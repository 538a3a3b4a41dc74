use inflate::{InflateError, InflateStream};

/// The letter `a` as a zlib stream.
const A_ZLIB: [u8; 9] = [0x78, 0x9c, 0x4b, 0x04, 0x00, 0x00, 0x62, 0x00, 0x62];
/// A fixed block: `a`, then a copy of 19 bytes from one byte back.
const A_RUN_20: [u8; 4] = [0x4b, 0xc4, 0x02, 0x00];
/// A fixed block: `a`, then a copy of 258 bytes from one byte back.
const A_RUN_259: [u8; 4] = [0x4b, 0x1c, 0x05, 0x00];
/// A dynamic block whose code lengths are twice 138 zeros, for 258 lengths.
const OVERRUN: [u8; 6] = [0x05, 0x00, 0x80, 0xe4, 0xff, 0x1f];

fn sizes(r: Result<(usize, &[u8]), InflateError>) -> Result<(usize, Vec<u8>), InflateError> {
    r.map(|(n, out)| (n, out.to_vec()))
}

#[test]
fn one_call_goes_through_header_block_and_trailer() {
    let mut stream = InflateStream::from_zlib();
    assert_eq!(sizes(stream.update(&A_ZLIB)), Ok((9, vec![0x61])));
    assert_eq!(sizes(stream.update(&[])), Ok((0, vec![])));
}

#[test]
fn a_call_ends_where_the_input_ends() {
    let mut stream = InflateStream::new();
    assert_eq!(sizes(stream.update(&A_RUN_20[..3])), Ok((3, vec![0x61])));
    assert_eq!(sizes(stream.update(&A_RUN_20[3..])), Ok((1, vec![0x61; 19])));
    assert_eq!(sizes(stream.update(&[9, 9])), Ok((2, vec![])));
}

#[test]
fn a_call_with_the_header_alone_gives_nothing() {
    let mut stream = InflateStream::new();
    assert_eq!(sizes(stream.update(&[0x4b])), Ok((1, vec![])));
    assert_eq!(sizes(stream.update(&[0x04, 0x00])), Ok((2, vec![0x61])));
}

#[test]
fn the_longest_copy_has_258_bytes() {
    let mut stream = InflateStream::new();
    assert_eq!(sizes(stream.update(&A_RUN_259)), Ok((4, vec![0x61; 259])));
}

#[test]
fn next_state_takes_the_zlib_header_byte_by_byte() {
    let mut stream = InflateStream::from_zlib();
    assert_eq!(stream.next_state(&[]), Ok((0, false)));
    assert_eq!(stream.next_state(&A_ZLIB), Ok((1, true)));
    assert_eq!(stream.next_state(&A_ZLIB[1..]), Ok((1, true)));
    // The three bits at the start of the block: one byte is moved in.
    assert_eq!(stream.next_state(&A_ZLIB[2..]), Ok((1, true)));
    // The block with the fixed codes, to its end.
    assert_eq!(stream.next_state(&A_ZLIB[3..5]), Ok((2, true)));
    // Behind the last block every byte is taken in and dropped.
    assert_eq!(stream.next_state(&A_ZLIB[5..]), Ok((4, false)));
    assert_eq!(stream.next_state(&[]), Ok((0, false)));
}

#[test]
fn next_state_reads_a_fixed_block_in_one_call() {
    let mut stream = InflateStream::new();
    assert_eq!(stream.next_state(&A_RUN_259), Ok((1, true)));
    assert_eq!(stream.next_state(&A_RUN_259[1..]), Ok((3, true)));
    assert_eq!(stream.next_state(&[7]), Ok((1, false)));
}

#[test]
fn next_state_waits_within_a_block() {
    let mut stream = InflateStream::new();
    assert_eq!(stream.next_state(&A_RUN_20[..1]), Ok((1, true)));
    // The decoders are set up, and the bits of the first symbol are missing.
    assert_eq!(stream.next_state(&[]), Ok((0, true)));
    assert_eq!(stream.next_state(&[]), Ok((0, false)));
    // The literal and the length are there, the distance is not.
    assert_eq!(stream.next_state(&A_RUN_20[1..3]), Ok((2, true)));
    assert_eq!(stream.next_state(&[]), Ok((0, false)));
    assert_eq!(stream.next_state(&A_RUN_20[3..]), Ok((1, true)));
}

#[test]
fn next_state_reports_the_errors_of_the_headers() {
    assert_eq!(InflateStream::from_zlib().next_state(&[0x77]), Err(InflateError::UnknownMethod(7)));
    assert_eq!(InflateStream::from_zlib().next_state(&[0x88]), Err(InflateError::InvalidWindowInfo(8)));
    let mut stream = InflateStream::from_zlib();
    assert_eq!(stream.next_state(&[0x78]), Ok((1, true)));
    assert_eq!(stream.next_state(&[0x9d]), Err(InflateError::InvalidChecksum(0x78, 0x9d)));
    let mut stream = InflateStream::from_zlib();
    assert_eq!(stream.next_state(&[0x78]), Ok((1, true)));
    assert_eq!(stream.next_state(&[0xbb]), Err(InflateError::PresetDictionary));
    assert_eq!(InflateStream::new().next_state(&[0x07]), Err(InflateError::UnimplementedBlockType(3)));
}

#[test]
fn repeated_lengths_must_not_go_beyond_the_count() {
    let mut stream = InflateStream::new();
    assert_eq!(sizes(stream.update(&OVERRUN)), Err(InflateError::LengthsOverrun));
    assert_eq!(sizes(stream.update(&[])), Err(InflateError::LengthsOverrun));
}

/// A zlib stream with a window of 256 bytes: `a`, a copy of 258 bytes from
/// one byte back, `b`.
const BROKEN_COPY: [u8; 7] = [0x08, 0x1d, 0x4b, 0x1c, 0x05, 0x49, 0x00];
/// A zlib stream with a window of 256 bytes: `a`, a copy of 255 bytes from
/// one byte back, `b`.
const FULL_BEFORE_LITERAL: [u8; 8] = [0x08, 0x1d, 0x4b, 0x1c, 0xe1, 0x20, 0x09, 0x00];

#[test]
fn a_copy_is_broken_off_where_the_window_ends() {
    let mut stream = InflateStream::from_zlib();
    // The bits of the distance are in the sixth byte.
    assert_eq!(sizes(stream.update(&BROKEN_COPY)), Ok((6, vec![0x61; 256])));
    assert_eq!(sizes(stream.update(&BROKEN_COPY[6..])), Ok((1, vec![0x61, 0x61, 0x61, 0x62])));
    assert_eq!(sizes(stream.update(&[])), Ok((0, vec![])));
}

#[test]
fn a_literal_waits_for_room_in_the_window() {
    let mut stream = InflateStream::from_zlib();
    // The literal behind the copy has been read, and is kept for the next
    // call: its bits reach into the seventh byte.
    assert_eq!(sizes(stream.update(&FULL_BEFORE_LITERAL)), Ok((7, vec![0x61; 256])));
    assert_eq!(sizes(stream.update(&FULL_BEFORE_LITERAL[7..])), Ok((1, vec![0x62])));
}

#[test]
fn next_state_stops_at_a_full_window() {
    let mut stream = InflateStream::from_zlib();
    assert_eq!(stream.next_state(&FULL_BEFORE_LITERAL), Ok((1, true)));
    assert_eq!(stream.next_state(&FULL_BEFORE_LITERAL[1..]), Ok((1, true)));
    assert_eq!(stream.next_state(&FULL_BEFORE_LITERAL[2..]), Ok((1, true)));
    // The block as far as the window has room: four bytes more are moved in.
    assert_eq!(stream.next_state(&FULL_BEFORE_LITERAL[3..]), Ok((4, true)));
    // The window is full and the next symbol is a literal.
    assert_eq!(stream.next_state(&FULL_BEFORE_LITERAL[7..]), Ok((0, false)));
}
