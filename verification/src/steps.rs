//! The steps through the headers of the blocks. Each function here takes the
//! step of the machine that its phase has, if the input allows it.

use vstd::prelude::*;
use vstd::arithmetic::power2::*;
use crate::bits::{BitState, BitStream, bytes_moved};
use crate::huffman::DynHuffman16;
use crate::code_length_reader::CodeLengthReader;
use crate::window::WindowBuffer;
use crate::model::{Model, Phase, clen_order, fixed_lit_lengths, fixed_dist_lengths};
use crate::state::{BitsNext, State, machine};
use crate::error::InflateError;

verus! {

/// What a function that takes at most one step promises: the step of the
/// machine that led from `before` to `after`, or, where the input did not
/// allow it, that nothing has changed and every input byte has been taken in.
pub open spec fn one_step(before: Model, after: Model, stepped: bool, exhausted: bool) -> bool {
    if stepped {
        before.step() == Some(after)
    } else {
        before.step() is None && after == before && exhausted
    }
}

/// What a function of this module leaves of the cursor.
pub open spec fn cursor_kept(before: BitStream, after: BitStream) -> bool {
    &&& after.wf()
    &&& after.data@ == before.data@
    &&& after.used >= before.used
}

/// The cursor has moved in as many bytes as a request for `k` bits takes.
pub open spec fn moved(before: BitStream, after: BitStream, k: nat) -> bool {
    after.used - before.used == bytes_moved(
        before.state.n as nat,
        k,
        (before.data@.len() - before.used) as nat,
    )
}

/// Drops the bits up to the next byte boundary of the input.
fn align(stream: &mut BitStream)
    requires
        old(stream).wf(),
    ensures
        cursor_kept(*old(stream), *final(stream)),
        final(stream).used == old(stream).used,
        final(stream).bits() == old(stream).bits().skip(old(stream).bits().len % 8),
{
    let pad = stream.state.n % 8;
    proof {
        let n = stream.state.n as int;
        let k = stream.rest().len() as int;
        assert((n + 8 * k) % 8 == n % 8) by {
            vstd::arithmetic::div_mod::lemma_mod_multiples_vanish(k, n, 8);
        }
    }
    stream.consume(pad);
}

/// Reads the three bits at the start of a block.
pub fn read_block_header(stream: &mut BitStream, final_block: &mut bool, window: &WindowBuffer) -> (r: (
    State,
    bool,
))
    requires
        old(stream).wf(),
    ensures
        cursor_kept(*old(stream), *final(stream)),
        r.0.wf(),
        r.0.in_blocks(),
        one_step(
            machine(Phase::BlockHeader, old(stream).bits(), window, *old(final_block)),
            r.0.snapshot(final(stream).rest(), window, *final(final_block)),
            r.1,
            final(stream).used == final(stream).data@.len(),
        ),
        moved(*old(stream), *final(stream), 3),
{
    match stream.take(3) {
        None => (State::Bits(BitsNext::BlockHeader, stream.state), false),
        Some(h) => {
            proof {
                lemma2_to64();
                vstd::arithmetic::div_mod::lemma_mod_bound(old(stream).bits().value as int, 8);
            }
            let last = h % 2 == 1;
            let kind = h / 2;
            if *final_block {
                return (State::Failed(InflateError::DataAfterFinalBlock), true);
            }
            *final_block = last;
            if kind == 0 {
                // Skip to the next byte for an uncompressed block.
                align(stream);
                (State::Bits(BitsNext::BlockUncompressed, stream.state), true)
            } else if kind == 1 {
                (State::Bits(BitsNext::BlockFixed, stream.state), true)
            } else if kind == 2 {
                (State::Bits(BitsNext::BlockDynHlit, stream.state), true)
            } else {
                (State::Failed(InflateError::UnimplementedBlockType(kind)), true)
            }
        },
    }
}

/// Reads the length of a stored block, which is as far as stored blocks are
/// taken.
pub fn read_stored(stream: &mut BitStream, final_block: bool, window: &WindowBuffer) -> (r: (State, bool))
    requires
        old(stream).wf(),
    ensures
        cursor_kept(*old(stream), *final(stream)),
        r.0.wf(),
        r.0.in_blocks(),
        one_step(
            machine(Phase::BlockUncompressed, old(stream).bits(), window, final_block),
            r.0.snapshot(final(stream).rest(), window, final_block),
            r.1,
            final(stream).used == final(stream).data@.len(),
        ),
        moved(*old(stream), *final(stream), 16),
{
    match stream.take16(16) {
        None => (State::Bits(BitsNext::BlockUncompressed, stream.state), false),
        Some(len) => (State::Failed(InflateError::StoredBlock(len)), true),
    }
}

/// The code lengths of the fixed literal/length code.
fn fixed_lit() -> (v: Vec<u8>)
    ensures
        v@ == fixed_lit_lengths(),
{
    let mut v: Vec<u8> = Vec::new();
    let mut i: usize = 0;
    while i < 288
        invariant
            i <= 288,
            v@.len() == i,
            forall|j: int| 0 <= j < i ==> v@[j] == fixed_lit_lengths()[j],
        decreases 288 - i,
    {
        let bits: u8 = if i < 144 {
            8
        } else if i < 256 {
            9
        } else if i < 280 {
            7
        } else {
            8
        };
        v.push(bits);
        i = i + 1;
    }
    assert(v@ =~= fixed_lit_lengths());
    v
}

/// Builds the decoders of a block from the code lengths, if they are those
/// of codes.
pub fn start_symbols(lit_lens: &[u8], dist_lens: &[u8], bits: BitState) -> (r: State)
    requires
        bits.wf(),
        lit_lens@.len() < 2048,
        dist_lens@.len() < 2048,
    ensures
        r.wf(),
        r.in_blocks(),
        r is Failed || r.starts_symbols(bits),
        forall|m: Model, rest: Seq<u8>, window: &WindowBuffer|
            m.history == window.history() && m.window == window.capacity() ==> #[trigger] r.snapshot(
                rest,
                window,
                m.final_block,
            ) == #[trigger] m.start_symbols(lit_lens@, dist_lens@, bits.bits().append(rest)),
{
    match DynHuffman16::new(lit_lens) {
        Ok(lit) => match DynHuffman16::new(dist_lens) {
            Ok(dist) => State::Bits(BitsNext::BlockDyn(lit, dist), bits),
            Err(e) => State::Failed(e),
        },
        Err(e) => State::Failed(e),
    }
}

/// Sets up the decoders for the fixed codes.
pub fn start_fixed(stream: &BitStream, final_block: bool, window: &WindowBuffer) -> (r: State)
    requires
        stream.wf(),
    ensures
        r.wf(),
        r.in_blocks(),
        r is Failed || r.starts_symbols(stream.state),
        machine(Phase::BlockFixed, stream.bits(), window, final_block).step() == Some(
            r.snapshot(stream.rest(), window, final_block),
        ),
{
    let lit = fixed_lit();
    let dist = vec![5u8; 32];
    assert(dist@ =~= fixed_dist_lengths());
    let r = start_symbols(lit.as_slice(), dist.as_slice(), stream.state);
    proof {
        let m = machine(Phase::BlockFixed, stream.bits(), window, final_block);
        assert(r.snapshot(stream.rest(), window, final_block) == m.start_symbols(
            lit@,
            dist@,
            stream.state.bits().append(stream.rest()),
        ));
    }
    r
}

/// Where in the table the length goes that is sent as number `idx`.
fn clen_position(idx: u8) -> (r: usize)
    requires
        idx < 19,
    ensures
        r == clen_order()[idx as int],
        r < 19,
{
    if idx == 0 {
        16
    } else if idx == 1 {
        17
    } else if idx == 2 {
        18
    } else if idx == 3 {
        0
    } else if idx % 2 == 0 {
        (6 + idx / 2) as usize
    } else {
        (9 - idx / 2) as usize
    }
}

/// Reads one of the three counts at the start of a dynamic block, or one
/// length of the code length code.
pub fn read_dyn_header(next: BitsNext, stream: &mut BitStream, final_block: bool, window: &WindowBuffer) -> (r: (
    State,
    bool,
))
    requires
        old(stream).wf(),
        next is BlockDynHlit || next is BlockDynHdist || next is BlockDynHclen
            || next is BlockDynClenCodeLengths,
        machine(next.phase(), old(stream).bits(), window, final_block).wf(),
    ensures
        cursor_kept(*old(stream), *final(stream)),
        r.0.wf(),
        r.0.in_blocks(),
        one_step(
            machine(next.phase(), old(stream).bits(), window, final_block),
            r.0.snapshot(final(stream).rest(), window, final_block),
            r.1,
            final(stream).used == final(stream).data@.len(),
        ),
        moved(
            *old(stream),
            *final(stream),
            machine(next.phase(), old(stream).bits(), window, final_block).asks(),
        ),
{
    proof {
        lemma2_to64();
        vstd::arithmetic::div_mod::lemma_mod_bound(old(stream).bits().value as int, 32);
        vstd::arithmetic::div_mod::lemma_mod_bound(old(stream).bits().value as int, 16);
        vstd::arithmetic::div_mod::lemma_mod_bound(old(stream).bits().value as int, 8);
    }
    match next {
        BitsNext::BlockDynHlit => match stream.take(5) {
            None => (State::Bits(BitsNext::BlockDynHlit, stream.state), false),
            Some(v) => (State::Bits(BitsNext::BlockDynHdist(v + 1), stream.state), true),
        },
        BitsNext::BlockDynHdist(hlit) => match stream.take(5) {
            None => (State::Bits(BitsNext::BlockDynHdist(hlit), stream.state), false),
            Some(v) => (State::Bits(BitsNext::BlockDynHclen(hlit, v + 1), stream.state), true),
        },
        BitsNext::BlockDynHclen(hlit, hdist) => match stream.take(4) {
            None => (State::Bits(BitsNext::BlockDynHclen(hlit, hdist), stream.state), false),
            Some(v) => {
                let clens = [0u8;19];
                assert(clens@ =~= Seq::new(19, |i: int| 0u8));
                (
                    State::Bits(
                        BitsNext::BlockDynClenCodeLengths(hlit, hdist, v + 4, 0, clens),
                        stream.state,
                    ),
                    true,
                )
            },
        },
        BitsNext::BlockDynClenCodeLengths(hlit, hdist, hclen, idx, clens) => {
            let mut clens = clens;
            match stream.take(3) {
                None => (
                    State::Bits(
                        BitsNext::BlockDynClenCodeLengths(hlit, hdist, hclen, idx, clens),
                        stream.state,
                    ),
                    false,
                ),
                Some(v) => {
                    let ghost before = clens@;
                    clens[clen_position(idx)] = v;
                    assert(clens@ =~= before.update(clen_order()[idx as int], v));
                    if idx + 1 < hclen {
                        (
                            State::Bits(
                                BitsNext::BlockDynClenCodeLengths(hlit, hdist, hclen, idx + 1, clens),
                                stream.state,
                            ),
                            true,
                        )
                    } else {
                        match CodeLengthReader::new(clens, hlit as u16 + 256, hdist) {
                            Ok(reader) => (
                                State::Bits(BitsNext::BlockDynCodeLengths(reader), stream.state),
                                true,
                            ),
                            Err(e) => (State::Failed(e), true),
                        }
                    }
                },
            }
        },
        _ => (State::Bits(next, stream.state), false),
    }
}

} // verus!
