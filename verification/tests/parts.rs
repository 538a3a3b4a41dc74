use inflate::bits::{BitState, BitStream};
use inflate::code_length_reader::CodeLengthReader;
use inflate::codes::canonical_codes;
use inflate::huffman::DynHuffman16;
use inflate::reverse::reverse8;
use inflate::tables::{dist_bits, dist_start, length_bits, length_start};
use inflate::window::WindowBuffer;
use inflate::InflateError;

const LONG_CODES: [u8; 25] = [
    0xff, 0x7f, 0xff, 0xbf, 0xbf, 0x7f, 0xff, 0xfd, 0xbf, 0xff, 0xef, 0xfe, 0xff, 0xff, 0xbf, 0xfe,
    0xef, 0x7f, 0x7b, 0xdf, 0x8f, 0xff, 0x0f, 0x00, 0x00,
];
const RFC_CODES: [u8; 6] = [
    0xe8, 0xcf, 0xe9, 0xfe, 0xff, 0x01,
];
const META: [u8; 5] = [
    0x70, 0xc0, 0x20, 0x00, 0x00,
];
const META_REPEATS: [u8; 5] = [
    0xf6, 0xfe, 0x3f, 0x00, 0x00,
];

fn fixed_lit_lengths() -> Vec<u8> {
    let mut v = Vec::new();
    for i in 0..288 {
        v.push(if i < 144 { 8 } else if i < 256 { 9 } else if i < 280 { 7 } else { 8 });
    }
    v
}

fn meta_lengths() -> [u8; 19] {
    let mut clens = [0u8; 19];
    clens[1] = 2;
    clens[2] = 2;
    clens[16] = 2;
    clens[17] = 3;
    clens[18] = 3;
    clens
}

#[test]
fn reverse8_reverses() {
    assert_eq!(reverse8(0b0000_0001), 0b1000_0000);
    assert_eq!(reverse8(0b0011_0000), 0b0000_1100);
    assert_eq!(reverse8(0b1010_1100), 0b0011_0101);
    assert_eq!(reverse8(0xff), 0xff);
    assert_eq!(reverse8(0), 0);
    for b in 0..=255u8 {
        assert_eq!(reverse8(reverse8(b)), b);
        for i in 0..8 {
            assert_eq!((reverse8(b) >> i) & 1, (b >> (7 - i)) & 1);
        }
    }
}

#[test]
fn canonical_codes_of_the_textbook_example() {
    let codes = canonical_codes(&[3, 3, 3, 3, 3, 2, 4, 4], 15).unwrap();
    assert_eq!(codes, vec![0b010, 0b011, 0b100, 0b101, 0b110, 0b00, 0b1110, 0b1111]);
}

#[test]
fn canonical_codes_of_the_fixed_code() {
    let codes = canonical_codes(&fixed_lit_lengths(), 15).unwrap();
    assert_eq!(codes.len(), 288);
    assert_eq!(codes[0], 0b0011_0000);
    assert_eq!(codes[1], 0b0011_0001);
    assert_eq!(codes[143], 0b1011_1111);
    assert_eq!(codes[144], 0b1_1001_0000);
    assert_eq!(codes[255], 0b1_1111_1111);
    assert_eq!(codes[256], 0b000_0000);
    assert_eq!(codes[279], 0b001_0111);
    assert_eq!(codes[280], 0b1100_0000);
    assert_eq!(codes[287], 0b1100_0111);
}

#[test]
fn canonical_codes_are_reproducible() {
    let lens = [4u8, 0, 2, 3, 0, 4, 1];
    assert_eq!(canonical_codes(&lens, 15), canonical_codes(&lens, 15));
    assert_eq!(canonical_codes(&lens, 15), Some(vec![0b1110, 0, 0b10, 0b110, 0, 0b1111, 0b0]));
}

#[test]
fn canonical_codes_skip_unused_symbols() {
    assert_eq!(canonical_codes(&[0, 0, 1, 0, 1], 7), Some(vec![0, 0, 0, 0, 1]));
    assert_eq!(canonical_codes(&[], 7), Some(vec![]));
    assert_eq!(canonical_codes(&[0, 0, 0], 7), Some(vec![0, 0, 0]));
}

#[test]
fn canonical_codes_refuse_too_many_codes() {
    assert_eq!(canonical_codes(&[1, 1, 1], 15), None);
    assert_eq!(canonical_codes(&[1, 2, 2, 2], 15), None);
    assert_eq!(canonical_codes(&[2, 2, 2, 2, 15], 15), None);
}

#[test]
fn canonical_codes_refuse_lengths_above_the_maximum() {
    assert_eq!(canonical_codes(&[8], 7), None);
    assert_eq!(canonical_codes(&[7, 7], 7), Some(vec![0, 1]));
    assert_eq!(canonical_codes(&[16], 15), None);
}

#[test]
fn length_table() {
    let bases = [3u16, 4, 5, 6, 7, 8, 9, 10, 11, 13, 15, 17, 19, 23, 27, 31, 35, 43, 51, 59, 67, 83, 99, 115, 131, 163, 195, 227, 258];
    let extra = [0u8, 0, 0, 0, 0, 0, 0, 0, 1, 1, 1, 1, 2, 2, 2, 2, 3, 3, 3, 3, 4, 4, 4, 4, 5, 5, 5, 5, 0];
    for code in 1..=29u8 {
        let bits = length_bits(code);
        assert_eq!(bits, extra[code as usize - 1]);
        assert_eq!(length_start(code, bits), bases[code as usize - 1]);
    }
}

#[test]
fn distance_table() {
    let bases = [1u16, 2, 3, 4, 5, 7, 9, 13, 17, 25, 33, 49, 65, 97, 129, 193, 257, 385, 513, 769, 1025, 1537, 2049, 3073, 4097, 6145, 8193, 12289, 16385, 24577];
    let extra = [0u8, 0, 0, 0, 1, 1, 2, 2, 3, 3, 4, 4, 5, 5, 6, 6, 7, 7, 8, 8, 9, 9, 10, 10, 11, 11, 12, 12, 13, 13];
    for code in 0..=29u8 {
        let bits = dist_bits(code);
        assert_eq!(bits, extra[code as usize]);
        assert_eq!(dist_start(code, bits), bases[code as usize]);
    }
}

#[test]
fn bit_cursor_takes_bits_from_the_low_end() {
    let data = [0b1010_0110u8, 0b0000_1111];
    let mut stream = BitStream::new(&data, BitState::new());
    assert_eq!(stream.take(3), Some(0b110));
    assert_eq!(stream.used, 1);
    assert_eq!(stream.take(1), Some(0));
    assert_eq!(stream.take16(9), Some(0b0_1111_1010));
    assert_eq!(stream.used, 2);
    assert_eq!(stream.state.n, 3);
    assert_eq!(stream.take(3), Some(0));
    assert_eq!(stream.take(1), None);
    assert_eq!(stream.take(0), Some(0));
}

#[test]
fn bit_cursor_need_moves_bytes_only_when_needed() {
    let data = [0xabu8, 0xcd, 0xef];
    let mut stream = BitStream::new(&data, BitState::new());
    assert!(stream.need(0));
    assert_eq!(stream.used, 0);
    assert!(stream.need(1));
    assert_eq!((stream.used, stream.state.n, stream.state.v), (1, 8, 0xab));
    assert!(stream.need(8));
    assert_eq!(stream.used, 1);
    assert!(stream.need(9));
    assert_eq!((stream.used, stream.state.n, stream.state.v), (2, 16, 0xcdab));
    assert!(stream.need(16));
    assert_eq!(stream.used, 2);
    assert_eq!(stream.take(1), Some(1));
    assert!(stream.need(16));
    assert_eq!((stream.used, stream.state.n, stream.state.v), (3, 23, 0xefcdab >> 1));
}

#[test]
fn bit_cursor_keeps_its_bits_when_the_input_runs_out() {
    let data = [0x5au8];
    let mut stream = BitStream::new(&data, BitState::new());
    assert!(!stream.need(16));
    assert_eq!((stream.used, stream.state.n, stream.state.v), (1, 8, 0x5a));
    assert_eq!(stream.take16(9), None);
    assert_eq!((stream.used, stream.state.n, stream.state.v), (1, 8, 0x5a));
    // The bits go on with the next piece of input.
    let state = stream.state;
    let more = [0x01u8];
    let mut stream = BitStream::new(&more, state);
    assert_eq!(stream.take16(9), Some(0x15a));
    assert_eq!(stream.used, 1);
}

#[test]
fn bit_cursor_use_byte_and_consume() {
    let data = [0xf0u8];
    let mut stream = BitStream::new(&data, BitState { n: 4, v: 0b1001 });
    assert!(stream.use_byte());
    assert_eq!((stream.state.n, stream.state.v), (12, 0xf09));
    assert!(!stream.use_byte());
    stream.consume(5);
    assert_eq!((stream.state.n, stream.state.v), (7, 0xf09 >> 5));
}

#[test]
fn self_overlapping_copy() {
    let mut window = WindowBuffer::with_capacity(32);
    assert!(window.push(b'A'));
    assert!(window.can_copy(1));
    assert_eq!(window.copy(10, 1), None);
    assert_eq!(window.output(1), b"AAAAAAAAAA");
    assert_eq!(window.output(0), b"AAAAAAAAAAA");
    assert_eq!(window.pos(), 11);
}

#[test]
fn overlapping_copy_repeats_a_pattern() {
    let mut window = WindowBuffer::with_capacity(64);
    for b in b"abc" {
        assert!(window.push(*b));
    }
    assert_eq!(window.copy(7, 3), None);
    assert_eq!(window.output(0), b"abcabcabca");
    assert_eq!(window.copy(2, 10), None);
    assert_eq!(window.output(0), b"abcabcabcaab");
}

#[test]
fn copy_wraps_around_the_window() {
    let mut window = WindowBuffer::with_capacity(32);
    for i in 0..32u8 {
        assert!(window.push(i));
    }
    assert!(window.is_full());
    assert!(!window.push(99));
    assert_eq!(window.take_output(0).len(), 32);
    for i in 32..62u8 {
        assert!(window.push(i));
    }
    assert_eq!(window.pos(), 30);
    // 32 places back from position 30 of the second round lies position 30
    // of the first.
    assert!(window.can_copy(32));
    assert_eq!(window.copy(5, 32), Some(3));
    assert!(window.is_full());
    assert_eq!(window.take_output(30), &[30, 31]);
    assert_eq!(window.pos(), 0);
    assert_eq!(window.copy(3, 32), None);
    assert_eq!(window.output(0), &[32, 33, 34]);
}

#[test]
fn copy_from_the_end_of_the_last_round() {
    let mut window = WindowBuffer::with_capacity(8);
    for i in 0..8u8 {
        assert!(window.push(i));
    }
    assert_eq!(window.take_output(0), &[0, 1, 2, 3, 4, 5, 6, 7]);
    assert!(window.push(8));
    // Three places back from position 1: the bytes 6, 7, 8, and then 6 again.
    assert_eq!(window.copy(4, 3), None);
    assert_eq!(window.output(0), &[8, 6, 7, 8, 6]);
}

#[test]
fn copy_is_cut_off_at_the_end_of_the_window() {
    let mut window = WindowBuffer::with_capacity(8);
    for i in 0..6u8 {
        assert!(window.push(i));
    }
    assert_eq!(window.copy(5, 2), Some(3));
    assert_eq!(window.take_output(0), &[0, 1, 2, 3, 4, 5, 4, 5]);
    assert_eq!(window.copy(3, 2), None);
    assert_eq!(window.output(0), &[4, 5, 4]);
    // A full window takes nothing.
    let mut full = WindowBuffer::with_capacity(2);
    assert!(full.push(1));
    assert!(full.push(2));
    assert_eq!(full.copy(7, 1), Some(7));
    assert_eq!(full.output(0), &[1, 2]);
}

#[test]
fn distances_that_reach_too_far() {
    let mut window = WindowBuffer::with_capacity(8);
    assert!(!window.can_copy(1));
    assert!(window.push(1));
    assert!(!window.can_copy(0));
    assert!(window.can_copy(1));
    assert!(!window.can_copy(2));
    for i in 0..7u8 {
        assert!(window.push(i));
    }
    assert!(window.can_copy(8));
    assert!(!window.can_copy(9));
    window.rewind();
    assert_eq!(window.pos(), 0);
    assert!(window.can_copy(8));
    assert!(!window.can_copy(9));
    assert_eq!(window.cap(), 8);
}

fn read_all(decoder: &DynHuffman16, data: &[u8], chunk: usize, count: usize) -> Vec<u16> {
    let mut symbols = Vec::new();
    let mut state = BitState::new();
    let mut pos = 0;
    while symbols.len() < count {
        let end = if pos + chunk < data.len() { pos + chunk } else { data.len() };
        let mut stream = BitStream::new(&data[pos..end], state);
        loop {
            if symbols.len() == count {
                break;
            }
            match decoder.read(&mut stream).unwrap() {
                Some((_, symbol)) => symbols.push(symbol),
                None => break,
            }
        }
        assert!(stream.used == end - pos || symbols.len() == count);
        pos += stream.used;
        state = stream.state;
    }
    symbols
}

#[test]
fn decoder_reads_short_codes() {
    let decoder = DynHuffman16::new(&[3, 3, 3, 3, 3, 2, 4, 4]).unwrap();
    assert_eq!(read_all(&decoder, &RFC_CODES, RFC_CODES.len(), 8), [5, 0, 7, 6, 1, 2, 3, 4]);
    assert_eq!(read_all(&decoder, &RFC_CODES, 1, 8), [5, 0, 7, 6, 1, 2, 3, 4]);
}

#[test]
fn decoder_reads_codes_of_up_to_fifteen_bits() {
    let lens = [1, 2, 3, 4, 5, 6, 7, 8, 9, 10, 11, 12, 13, 14, 15, 15];
    let decoder = DynHuffman16::new(&lens).unwrap();
    let expected = vec![15, 0, 14, 7, 8, 9, 12, 13, 3, 15, 14, 1, 11, 10, 2, 4, 5, 6, 0, 0, 13];
    for chunk in 1..=LONG_CODES.len() {
        assert_eq!(read_all(&decoder, &LONG_CODES, chunk, expected.len()), expected);
    }
}

#[test]
fn decoder_hands_back_the_bits_before_the_symbol() {
    let decoder = DynHuffman16::new(&[3, 3, 3, 3, 3, 2, 4, 4]).unwrap();
    let mut stream = BitStream::new(&RFC_CODES, BitState::new());
    let (save, symbol) = decoder.read(&mut stream).unwrap().unwrap();
    assert_eq!(symbol, 5);
    assert_eq!((save.n, save.v), (8, RFC_CODES[0] as u32));
    assert_eq!((stream.state.n, stream.state.v), (6, (RFC_CODES[0] >> 2) as u32));
    stream.state = save;
    assert_eq!(decoder.read(&mut stream).unwrap().map(|r| r.1), Some(5));
}

#[test]
fn decoder_waits_within_a_code() {
    let lens = [1, 2, 3, 4, 5, 6, 7, 8, 9, 10, 11, 12, 13, 14, 15, 15];
    let decoder = DynHuffman16::new(&lens).unwrap();
    // Twelve ones begin the codes of the symbols 12 and up.
    let data = [0xffu8];
    let mut stream = BitStream::new(&data, BitState::new());
    assert_eq!(decoder.read(&mut stream), Ok(None));
    assert_eq!((stream.used, stream.state.n, stream.state.v), (1, 8, 0xff));
    let state = stream.state;
    let more = [0x0fu8];
    let mut stream = BitStream::new(&more, state);
    // 111111111111 0: the code of symbol 12.
    assert_eq!(decoder.read(&mut stream).map(|r| r.map(|r| r.1)), Ok(Some(12)));
    assert_eq!(stream.state.n, 3);
}

#[test]
fn decoder_refuses_bits_that_are_no_code() {
    // One code only: 0. A one is the code of no symbol.
    let decoder = DynHuffman16::new(&[1]).unwrap();
    let mut stream = BitStream::new(&[0xfe], BitState::new());
    assert_eq!(decoder.read(&mut stream).map(|r| r.map(|r| r.1)), Ok(Some(0)));
    // With fewer than eight bits at hand the decoder waits.
    assert_eq!(decoder.read(&mut stream), Ok(None));
    let mut stream = BitStream::new(&[0xfe, 0xff], BitState::new());
    assert_eq!(decoder.read(&mut stream).map(|r| r.map(|r| r.1)), Ok(Some(0)));
    assert_eq!(decoder.read(&mut stream), Err(InflateError::BadCode));
    // Codes 0 and 10 and 110 followed by nine zeros: 111 begins no code.
    let decoder = DynHuffman16::new(&[1, 2, 12]).unwrap();
    let mut stream = BitStream::new(&[0x07, 0x00], BitState::new());
    assert_eq!(decoder.read(&mut stream), Err(InflateError::BadCode));
    // 11 and then not nine zeros.
    let mut stream = BitStream::new(&[0x03, 0x08], BitState::new());
    assert_eq!(decoder.read(&mut stream), Err(InflateError::BadCode));
    let mut stream = BitStream::new(&[0x03, 0x00], BitState::new());
    assert_eq!(decoder.read(&mut stream).map(|r| r.map(|r| r.1)), Ok(Some(2)));
}

#[test]
fn decoder_with_few_bits_left() {
    let decoder = DynHuffman16::new(&[1, 2, 12]).unwrap();
    // Three bits: a zero, then 10.
    let mut stream = BitStream::new(&[], BitState { n: 3, v: 0b010 });
    assert_eq!(decoder.read(&mut stream).map(|r| r.map(|r| r.1)), Ok(Some(0)));
    assert_eq!(decoder.read(&mut stream).map(|r| r.map(|r| r.1)), Ok(Some(1)));
    assert_eq!(decoder.read(&mut stream), Ok(None));
    // One bit, a one: it may begin a code.
    let mut stream = BitStream::new(&[], BitState { n: 1, v: 1 });
    assert_eq!(decoder.read(&mut stream), Ok(None));
    assert_eq!((stream.state.n, stream.state.v), (1, 1));
}

#[test]
fn decoder_refuses_lengths_of_no_code() {
    assert!(matches!(DynHuffman16::new(&[1, 1, 1]), Err(InflateError::BadCodeLengths)));
    assert!(matches!(DynHuffman16::new(&[16]), Err(InflateError::BadCodeLengths)));
    assert!(DynHuffman16::new(&[]).is_ok());
    assert!(DynHuffman16::new(&[0, 0]).is_ok());
}

#[test]
fn code_lengths_with_zeros() {
    let mut reader = CodeLengthReader::new(meta_lengths(), 13, 4).unwrap();
    let mut stream = BitStream::new(&META, BitState::new());
    assert_eq!(reader.read(&mut stream), Ok(true));
    assert_eq!(reader.result_len(), 17);
    let (lit, dist) = match reader.to_lit_and_dist() {
        Ok(pair) => pair,
        Err(_) => panic!("the lengths are those of codes"),
    };
    // Literal/length code: symbols 0 and 1, one bit each.
    let mut bits = BitStream::new(&[0b10], BitState::new());
    assert_eq!(lit.read(&mut bits).map(|r| r.map(|r| r.1)), Ok(Some(0)));
    assert_eq!(lit.read(&mut bits).map(|r| r.map(|r| r.1)), Ok(Some(1)));
    // Distance code: symbol 3 alone, with the code 00.
    let mut bits = BitStream::new(&[0b00], BitState::new());
    assert_eq!(dist.read(&mut bits).map(|r| r.map(|r| r.1)), Ok(Some(3)));
}

#[test]
fn code_lengths_with_repeats_go_beyond_the_count() {
    let mut reader = CodeLengthReader::new(meta_lengths(), 100, 20).unwrap();
    let mut stream = BitStream::new(&META_REPEATS, BitState::new());
    // 2, six times 2 again, ten zeros: then 138 zeros, with 103 lengths left.
    assert_eq!(reader.read(&mut stream), Err(InflateError::LengthsOverrun));
    assert_eq!(reader.result_len(), 1 + 6 + 10);
}

#[test]
fn code_lengths_with_repeats_up_to_the_count() {
    let mut reader = CodeLengthReader::new(meta_lengths(), 135, 20).unwrap();
    let mut stream = BitStream::new(&META_REPEATS, BitState::new());
    assert_eq!(reader.read(&mut stream), Ok(true));
    assert_eq!(reader.result_len(), 1 + 6 + 10 + 138);
}

#[test]
fn code_lengths_byte_by_byte() {
    let mut reader = CodeLengthReader::new(meta_lengths(), 13, 4).unwrap();
    let mut state = BitState::new();
    let mut done = false;
    let mut used = 0;
    for b in META.iter() {
        let piece = [*b];
        let mut stream = BitStream::new(&piece, state);
        done = reader.read(&mut stream).unwrap();
        state = stream.state;
        used += 1;
        if done {
            break;
        }
        assert_eq!(stream.used, 1);
    }
    assert!(done);
    assert!(used <= META.len());
    assert_eq!(reader.result_len(), 17);
}

#[test]
fn code_lengths_wait_only_for_bits_that_are_missing() {
    // 00 is the code of the length 1: six bits hold three lengths.
    let mut reader = CodeLengthReader::new(meta_lengths(), 13, 4).unwrap();
    let mut stream = BitStream::new(&[], BitState { n: 6, v: 0 });
    assert_eq!(reader.read(&mut stream), Ok(false));
    assert_eq!(reader.result_len(), 3);
    assert_eq!((stream.state.n, stream.state.v), (0, 0));
    // 11 begins the codes of 17 and 18, and is neither.
    let mut stream = BitStream::new(&[], BitState { n: 2, v: 0b11 });
    assert_eq!(reader.read(&mut stream), Ok(false));
    assert_eq!(reader.result_len(), 3);
    assert_eq!((stream.state.n, stream.state.v), (2, 0b11));
    // 011 is the code of 17, whose three bits more are not there.
    let mut stream = BitStream::new(&[], BitState { n: 5, v: 0b10011 });
    assert_eq!(reader.read(&mut stream), Ok(false));
    assert_eq!(reader.result_len(), 3);
    assert_eq!((stream.state.n, stream.state.v), (5, 0b10011));
}

#[test]
fn code_lengths_end_with_the_last_bits() {
    let mut reader = CodeLengthReader::new(meta_lengths(), 2, 1).unwrap();
    let mut stream = BitStream::new(&[], BitState { n: 6, v: 0b001000 });
    assert_eq!(reader.read(&mut stream), Ok(true));
    assert_eq!(reader.result_len(), 3);
    assert_eq!((stream.state.n, stream.state.v), (0, 0));
}

#[test]
fn code_lengths_repeat_needs_a_length_before_it() {
    let mut reader = CodeLengthReader::new(meta_lengths(), 13, 4).unwrap();
    // 10 is the code of the symbol 16.
    let mut stream = BitStream::new(&[0b01, 0], BitState::new());
    assert_eq!(reader.read(&mut stream), Err(InflateError::NoPreviousLength));
}

#[test]
fn code_lengths_refuse_bits_that_are_no_code() {
    let mut clens = [0u8; 19];
    clens[0] = 1;
    let mut reader = CodeLengthReader::new(clens, 5, 1).unwrap();
    let mut stream = BitStream::new(&[0b10, 0], BitState::new());
    assert_eq!(reader.read(&mut stream), Err(InflateError::BadCode));
    assert_eq!(reader.result_len(), 1);
}

#[test]
fn code_length_code_must_be_a_code() {
    let mut clens = [0u8; 19];
    clens[0] = 1;
    clens[1] = 1;
    clens[2] = 1;
    assert!(matches!(CodeLengthReader::new(clens, 257, 1), Err(InflateError::BadCodeLengths)));
}
