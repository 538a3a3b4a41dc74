//! The decompressor: it is fed the compressed bytes piece by piece and hands
//! out, after each piece, the output that the piece has given.

use vstd::prelude::*;
use vstd::arithmetic::power2::*;
use crate::bits::{BitSeq, BitState, BitStream, bytes_moved, left_of, lemma_first_byte, lemma_append_wf, lemma_empty_wf, lemma_append_empty};
use crate::codes::pow2_u32;
use crate::window::{WindowBuffer, MAX_WINDOW};
use crate::model::{Model, Phase};
use crate::state::{BitsNext, State, machine};
use crate::steps::{one_step, cursor_kept, moved, read_block_header, read_stored, start_fixed, read_dyn_header};
use crate::blocks::{progress, in_step, call_done, call_counted, lemma_one_step_progress, lemma_progress_chain, read_code_lengths, run_symbols, resume_copy, Pending};
use crate::error::InflateError;

verus! {

/// The machine at the start of a raw DEFLATE stream.
pub open spec fn raw_start() -> Model {
    Model {
        phase: Phase::BlockHeader,
        bits: BitSeq::empty(),
        history: Seq::empty(),
        final_block: false,
        window: MAX_WINDOW as nat,
    }
}

/// The machine at the start of a zlib stream.
pub open spec fn zlib_start() -> Model {
    Model {
        phase: Phase::ZlibMethodAndFlags,
        bits: BitSeq::empty(),
        history: Seq::empty(),
        final_block: false,
        window: 0,
    }
}

/// The window is full and has to be handed out before a byte can be written.
pub open spec fn paused(window: &WindowBuffer) -> bool {
    window.capacity() > 0 && window.position() >= window.capacity()
}

/// How many bytes of a copy of `len` bytes are written with `room` bytes of
/// room in the window.
pub open spec fn copy_room(len: nat, room: int) -> nat {
    if len <= room {
        len
    } else if room > 0 {
        room as nat
    } else {
        0
    }
}

/// Where one call comes to that starts at the state `before`, with `room`
/// bytes of room in the window.
///
/// Where the stream has ended or failed, nothing happens. Within a copy that
/// the end of the window broke off, as much of the copy is written as the
/// window has room for. Where code lengths are read, the call goes on until
/// the last of them is there, one of them is wrong, or the input runs out.
/// Within the body of a block, the call goes on until the block has ended,
/// the input is wrong or runs out, or the window is full and the next step
/// would write. Everywhere else the call takes one step, if the input has
/// the bits for it.
pub open spec fn call_goes(before: Model, room: int, after: Model) -> bool {
    match before.phase {
        Phase::CheckCRC => after == before,
        Phase::Failed(_) => after == before,
        Phase::LenDist { len, .. } => after == before.run(copy_room(len, room)),
        Phase::BlockDynCodeLengths { .. } => before.call_ends(true, room, after),
        _ => if before.in_body() {
            before.call_ends(false, room, after)
        } else {
            after == match before.step() {
                Some(next) => next,
                None => before,
            }
        },
    }
}

/// How many bytes `n` of the `len` that came one call takes in, which starts
/// at the state `before` with `pending` bits kept from earlier calls and ends
/// at `after`.
///
/// Where the stream has ended or failed, every byte is taken in and dropped.
/// Within a copy none is. A step through a header moves in the bytes that
/// the bits it asks for need, as far as they are there. Where code lengths or
/// the body of a block are read and the call does not fail, each step moves
/// in the bytes that the bits it asks for need, and every byte has been
/// taken in if the call ended there for want of input.
pub open spec fn call_takes(pending: nat, before: Model, room: int, after: Model, len: nat, n: nat) -> bool {
    match before.phase {
        Phase::CheckCRC => n == len,
        Phase::Failed(_) => n == len,
        Phase::LenDist { .. } => n == 0,
        Phase::BlockDynCodeLengths { .. } => call_counted(before, true, room, after, len, n),
        _ => if before.in_body() {
            call_counted(before, false, room, after, len, n)
        } else {
            n == bytes_moved(pending, before.asks(), len)
        },
    }
}

/// What a call has done that went from `before` to `after`, took `n` of the
/// `len` bytes that came, and says that it has `stepped`.
#[verifier::opaque]
pub open spec fn call_right(
    pending: nat,
    before: Model,
    room: int,
    len: nat,
    after: Model,
    stepped: bool,
    n: nat,
) -> bool {
    &&& call_goes(before, room, after)
    &&& stepped == (after != before)
    &&& call_takes(pending, before, room, after, len, n)
}

/// `call_right` for a call that read from the cursor `stream0` and left it as
/// `stream1`.
pub open spec fn bits_call(
    before: Model,
    stream0: &BitStream,
    window0: &WindowBuffer,
    after: Model,
    stepped: bool,
    stream1: &BitStream,
) -> bool {
    call_right(
        stream0.state.n as nat,
        before,
        window0.capacity() - window0.position(),
        (stream0.data@.len() - stream0.used) as nat,
        after,
        stepped,
        (stream1.used - stream0.used) as nat,
    )
}

/// A step through a header is a call as it should be.
proof fn lemma_header_call(
    before: Model,
    stream0: &BitStream,
    window0: &WindowBuffer,
    after: Model,
    stepped: bool,
    stream1: &BitStream,
)
    requires
        before.wf(),
        !before.halted(),
        !before.in_body(),
        !(before.phase is BlockDynCodeLengths),
        one_step(before, after, stepped, stream1.used == stream1.data@.len()),
        moved(*stream0, *stream1, before.asks()),
    ensures
        bits_call(before, stream0, window0, after, stepped, stream1),
{
    reveal(call_right);
    if stepped {
        before.lemma_step_below();
    }
}

/// A call that has read code lengths or the body of a block as far as it
/// goes is a call as it should be.
proof fn lemma_long_call(
    before: Model,
    lengths: bool,
    stream0: &BitStream,
    window0: &WindowBuffer,
    after: Model,
    stepped: bool,
    stream1: &BitStream,
)
    requires
        if lengths {
            before.phase is BlockDynCodeLengths
        } else {
            before.in_body() && !(before.phase is LenDist)
        },
        stream1.data@ == stream0.data@,
        stream1.used >= stream0.used,
        call_done(
            before,
            lengths,
            window0.capacity() - window0.position(),
            after,
            stepped,
            stream1.used == stream1.data@.len(),
        ),
        call_counted(
            before,
            lengths,
            window0.capacity() - window0.position(),
            after,
            left_of(*stream0),
            (stream1.used - stream0.used) as nat,
        ),
    ensures
        bits_call(before, stream0, window0, after, stepped, stream1),
{
    reveal(call_right);
}

/// Sets up the decoders for the fixed codes and reads the block with them.
fn run_fixed(stream: &mut BitStream, final_block: bool, window: &mut WindowBuffer) -> (r: (State, bool))
    requires
        old(stream).wf(),
        old(window).wf(),
        machine(Phase::BlockFixed, old(stream).bits(), old(window), final_block).wf(),
    ensures
        cursor_kept(*old(stream), *final(stream)),
        in_step(old(window), final(window)),
        r.0.wf(),
        r.0.in_blocks(),
        progress(
            machine(Phase::BlockFixed, old(stream).bits(), old(window), final_block),
            r.0.snapshot(final(stream).rest(), final(window), final_block),
            r.1,
            final(stream).used == final(stream).data@.len(),
            final(window).position() >= final(window).capacity(),
        ),
        call_done(
            machine(Phase::BlockFixed, old(stream).bits(), old(window), final_block),
            false,
            old(window).capacity() - old(window).position(),
            r.0.snapshot(final(stream).rest(), final(window), final_block),
            r.1,
            final(stream).used == final(stream).data@.len(),
        ),
        call_counted(
            machine(Phase::BlockFixed, old(stream).bits(), old(window), final_block),
            false,
            old(window).capacity() - old(window).position(),
            r.0.snapshot(final(stream).rest(), final(window), final_block),
            left_of(*old(stream)),
            (final(stream).used - old(stream).used) as nat,
        ),
{
    let ghost before = machine(Phase::BlockFixed, stream.bits(), window, final_block);
    let ghost room = window.capacity() - window.position();
    let first = start_fixed(stream, final_block, window);
    let ghost mid = first.snapshot(stream.rest(), window, final_block);
    match first {
        State::Bits(BitsNext::BlockDyn(lit, dist), _) => {
            assert(mid == machine(
                Pending::Symbol.phase(lit.lens(), dist.lens()),
                stream.bits(),
                window,
                final_block,
            ));
            proof {
                before.lemma_step_wf();
            }
            let r = run_symbols(lit, dist, Pending::Symbol, stream, final_block, window);
            proof {
                lemma_after_first(
                    before,
                    mid,
                    r.0.snapshot(stream.rest(), window, final_block),
                    room,
                    r.1,
                    stream.used == stream.data@.len(),
                    window.position() >= window.capacity(),
                );
                lemma_count_after_first(
                    before,
                    mid,
                    r.0.snapshot(stream.rest(), window, final_block),
                    room,
                    left_of(*old(stream)),
                    (stream.used - old(stream).used) as nat,
                );
            }
            (r.0, true)
        },
        other => {
            proof {
                lemma_fixed_failed(before, mid, room);
            }
            (other, true)
        },
    }
}

/// A call that takes a first step and then goes as far as a call goes from
/// there has gone as far as a call goes.
proof fn lemma_after_first(
    before: Model,
    mid: Model,
    after: Model,
    room: int,
    stepped: bool,
    exhausted: bool,
    full: bool,
)
    requires
        before.wf(),
        before.phase is BlockFixed,
        before.step() == Some(mid),
        mid.history == before.history,
        progress(mid, after, stepped, exhausted, full),
        call_done(mid, false, room, after, stepped, exhausted),
    ensures
        progress(before, after, true, exhausted, full),
        call_done(before, false, room, after, true, exhausted),
{
    before.lemma_goes_on(false, room);
    before.lemma_step_below();
    before.lemma_reaches_step();
    before.lemma_call_after_step(false, room, mid, after);
    lemma_progress_chain(before, mid, after, true, stepped, exhausted, full);
}

/// The first step of a block with the fixed codes moves no byte in.
proof fn lemma_count_after_first(before: Model, mid: Model, after: Model, room: int, left0: nat, n: nat)
    requires
        before.phase is BlockFixed,
        before.step() == Some(mid),
        mid.history == before.history,
        call_counted(mid, false, room, after, left0, n),
    ensures
        call_counted(before, false, room, after, left0, n),
{
    before.lemma_goes_on(false, room);
    assert(before.pulls(left0) == 0) by {
        reveal(Model::pulls);
    }
    if !(after.phase is Failed) && !(after.stuck() && after.in_body()) {
        before.lemma_leaves_after_step(false, room, mid, after, left0, (left0 - n) as nat);
    }
}

/// Where the fixed codes cannot be set up, the call ends with that step.
proof fn lemma_fixed_failed(before: Model, mid: Model, room: int)
    requires
        before.wf(),
        before.phase is BlockFixed,
        before.step() == Some(mid),
        mid.phase is Failed,
    ensures
        progress(before, mid, true, false, false),
        call_done(before, false, room, mid, true, false),
{
    lemma_one_step_progress(before, mid, true, false);
    before.lemma_goes_on(false, room);
    before.lemma_step_below();
    mid.lemma_goes_on(false, room);
    mid.lemma_call_stays(false, room);
    before.lemma_call_after_step(false, room, mid, mid);
    mid.lemma_stuck();
}

/// Takes the step of the phase `next`, or as many steps as the input and the
/// window allow where the phase is within the body of a block or code
/// lengths are read.
pub fn step_bits(next: BitsNext, stream: &mut BitStream, final_block: &mut bool, window: &mut WindowBuffer) -> (r: (
    State,
    bool,
))
    requires
        next.wf(),
        old(stream).wf(),
        old(window).wf(),
        machine(next.phase(), old(stream).bits(), old(window), *old(final_block)).wf(),
    ensures
        cursor_kept(*old(stream), *final(stream)),
        in_step(old(window), final(window)),
        r.0.wf(),
        r.0.in_blocks(),
        progress(
            machine(next.phase(), old(stream).bits(), old(window), *old(final_block)),
            r.0.snapshot(final(stream).rest(), final(window), *final(final_block)),
            r.1,
            final(stream).used == final(stream).data@.len(),
            final(window).position() >= final(window).capacity(),
        ),
        bits_call(
            machine(next.phase(), old(stream).bits(), old(window), *old(final_block)),
            old(stream),
            old(window),
            r.0.snapshot(final(stream).rest(), final(window), *final(final_block)),
            r.1,
            final(stream),
        ),
{
    let ghost before = machine(next.phase(), stream.bits(), window, *final_block);
    let ghost room = window.capacity() - window.position();
    match next {
        BitsNext::BlockHeader => {
            let r = read_block_header(stream, final_block, window);
            proof {
                lemma_one_step_progress(
                    before,
                    r.0.snapshot(stream.rest(), window, *final_block),
                    r.1,
                    stream.used == stream.data@.len(),
                );
                lemma_header_call(
                    before,
                    old(stream),
                    old(window),
                    r.0.snapshot(stream.rest(), window, *final_block),
                    r.1,
                    stream,
                );
            }
            r
        },
        BitsNext::BlockUncompressed => {
            let r = read_stored(stream, *final_block, window);
            proof {
                lemma_one_step_progress(
                    before,
                    r.0.snapshot(stream.rest(), window, *final_block),
                    r.1,
                    stream.used == stream.data@.len(),
                );
                lemma_header_call(
                    before,
                    old(stream),
                    old(window),
                    r.0.snapshot(stream.rest(), window, *final_block),
                    r.1,
                    stream,
                );
            }
            r
        },
        BitsNext::BlockFixed => {
            let r = run_fixed(stream, *final_block, window);
            proof {
                lemma_long_call(
                    before,
                    false,
                    old(stream),
                    old(window),
                    r.0.snapshot(stream.rest(), window, *final_block),
                    r.1,
                    stream,
                );
            }
            r
        },
        BitsNext::BlockDynCodeLengths(reader) => {
            let r = read_code_lengths(reader, stream, *final_block, window);
            proof {
                lemma_long_call(
                    before,
                    true,
                    old(stream),
                    old(window),
                    r.0.snapshot(stream.rest(), window, *final_block),
                    r.1,
                    stream,
                );
            }
            r
        },
        BitsNext::BlockDyn(lit, dist) => {
            let r = run_symbols(
            lit,
            dist,
            Pending::Symbol,
            stream,
            *final_block,
            window,
        );
            proof {
                lemma_long_call(
                    before,
                    false,
                    old(stream),
                    old(window),
                    r.0.snapshot(stream.rest(), window, *final_block),
                    r.1,
                    stream,
                );
            }
            r
        },
        BitsNext::BlockDynLength(lit, dist, code) => {
            let r = run_symbols(
            lit,
            dist,
            Pending::Length(code),
            stream,
            *final_block,
            window,
        );
            proof {
                lemma_long_call(
                    before,
                    false,
                    old(stream),
                    old(window),
                    r.0.snapshot(stream.rest(), window, *final_block),
                    r.1,
                    stream,
                );
            }
            r
        },
        BitsNext::BlockDynDistance(lit, dist, len) => {
            let r = run_symbols(
            lit,
            dist,
            Pending::Distance(len),
            stream,
            *final_block,
            window,
        );
            proof {
                lemma_long_call(
                    before,
                    false,
                    old(stream),
                    old(window),
                    r.0.snapshot(stream.rest(), window, *final_block),
                    r.1,
                    stream,
                );
            }
            r
        },
        BitsNext::BlockDynDistanceExtra(lit, dist, len, code) => {
            let r = run_symbols(
            lit,
            dist,
            Pending::DistanceExtra(len, code),
            stream,
            *final_block,
            window,
        );
            proof {
                lemma_long_call(
                    before,
                    false,
                    old(stream),
                    old(window),
                    r.0.snapshot(stream.rest(), window, *final_block),
                    r.1,
                    stream,
                );
            }
            r
        },
        other => {
            let r = read_dyn_header(other, stream, *final_block, window);
            proof {
                lemma_one_step_progress(
                    before,
                    r.0.snapshot(stream.rest(), window, *final_block),
                    r.1,
                    stream.used == stream.data@.len(),
                );
                lemma_header_call(
                    before,
                    old(stream),
                    old(window),
                    r.0.snapshot(stream.rest(), window, *final_block),
                    r.1,
                    stream,
                );
            }
            r
        },
    }
}

/// Reads the first byte of a zlib header and sets up the window.
pub fn read_zlib_method(data: &[u8], window: &mut WindowBuffer) -> (r: (State, usize, bool))
    requires
        old(window).wf(),
        old(window).capacity() == 0,
        old(window).history() == Seq::<u8>::empty(),
    ensures
        final(window).wf(),
        final(window).position() == 0,
        final(window).history() == Seq::<u8>::empty(),
        r.0.wf(),
        r.1 <= data@.len(),
        r.0 is ZlibFlags || r.0 is ZlibMethodAndFlags || r.0 is Failed,
        r.0 is ZlibFlags ==> final(window).capacity() > 0,
        r.0 is ZlibMethodAndFlags ==> final(window).capacity() == 0,
        r.1 == bytes_moved(0, 8, data@.len() as nat),
        one_step(
            machine(Phase::ZlibMethodAndFlags, BitSeq::empty().append(data@), old(window), false),
            r.0.snapshot(data@.skip(r.1 as int), final(window), false),
            r.2,
            r.1 == data@.len(),
        ),
{
    proof {
        window.lemma_wf();
    }
    if data.len() == 0 {
        proof {
            assert(data@.skip(0) =~= data@);
        }
        return (State::ZlibMethodAndFlags, 0, false);
    }
    let b = data[0];
    let method = b % 16;
    let info = b / 16;
    proof {
        lemma_first_byte(data@);
        lemma2_to64();
        window.lemma_wf();
    }
    if method != 8 {
        return (State::Failed(InflateError::UnknownMethod(method)), 1, true);
    }
    if info > 7 {
        return (State::Failed(InflateError::InvalidWindowInfo(info)), 1, true);
    }
    proof {
        crate::arith::lemma_pow2_monotone((8 + info) as nat, 15);
    }
    *window = WindowBuffer::with_capacity(pow2_u32((8 + info) as u32) as usize);
    (State::ZlibFlags(b), 1, true)
}

/// Reads the second byte of a zlib header.
pub fn read_zlib_flags(cmf: u8, data: &[u8], window: &WindowBuffer) -> (r: (State, usize, bool))
    ensures
        r.0.wf(),
        r.1 <= data@.len(),
        !(r.0 is ZlibMethodAndFlags),
        r.1 == bytes_moved(0, 8, data@.len() as nat),
        one_step(
            machine(Phase::ZlibFlags { cmf }, BitSeq::empty().append(data@), window, false),
            r.0.snapshot(data@.skip(r.1 as int), window, false),
            r.2,
            r.1 == data@.len(),
        ),
{
    if data.len() == 0 {
        proof {
            assert(data@.skip(0) =~= data@);
        }
        return (State::ZlibFlags(cmf), 0, false);
    }
    let b = data[0];
    proof {
        lemma_first_byte(data@);
        lemma2_to64();
    }
    if (cmf as u16 * 256 + b as u16) % 31 != 0 {
        return (State::Failed(InflateError::InvalidChecksum(cmf, b)), 1, true);
    }
    if (b / 32) % 2 == 1 {
        return (State::Failed(InflateError::PresetDictionary), 1, true);
    }
    (State::Bits(BitsNext::BlockHeader, BitState::new()), 1, true)
}


/// What a function promises that goes on from a state with `data` as the
/// input that follows: the new state goes with the window, and the steps
/// taken are progress from the old state with all of `data` to the new state
/// with what it left of `data`.
pub open spec fn advanced(
    pending: nat,
    before: Model,
    window0: &WindowBuffer,
    r: (State, usize, bool),
    data: Seq<u8>,
    window1: &WindowBuffer,
    final_block1: bool,
) -> bool {
    &&& r.0.fits(window1, final_block1)
    &&& r.1 <= data.len()
    &&& window1.position() - window0.position() == window1.history().len() - window0.history().len()
    &&& window0.capacity() > 0 ==> window1.capacity() == window0.capacity()
    &&& progress(
        before,
        r.0.snapshot(data.skip(r.1 as int), window1, final_block1),
        r.2,
        r.1 == data.len(),
        paused(window1),
    )
    &&& call_right(
        pending,
        before,
        window0.capacity() - window0.position(),
        data.len(),
        r.0.snapshot(data.skip(r.1 as int), window1, final_block1),
        r.2,
        r.1 as nat,
    )
}

/// Goes on from a state within the zlib header.
fn advance_zlib(state: State, data: &[u8], window: &mut WindowBuffer) -> (r: (State, usize, bool))
    requires
        state.fits(old(window), false),
        !state.in_blocks(),
    ensures
        advanced(0, state.snapshot(data@, old(window), false), old(window), r, data@, final(window), false),
{
    let ghost before = state.snapshot(data@, window, false);
    proof {
        lemma_empty_wf();
        lemma_append_wf(state.bits(), data@);
        window.lemma_wf();
    }
    match state {
        State::ZlibMethodAndFlags => {
            let r = read_zlib_method(data, window);
            proof {
                lemma_one_step_progress(
                    before,
                    r.0.snapshot(data@.skip(r.1 as int), window, false),
                    r.2,
                    r.1 == data@.len(),
                );
                reveal(call_right);
                if r.2 {
                    before.lemma_step_below();
                }
            }
            r
        },
        State::ZlibFlags(cmf) => {
            let r = read_zlib_flags(cmf, data, window);
            proof {
                lemma_one_step_progress(
                    before,
                    r.0.snapshot(data@.skip(r.1 as int), window, false),
                    r.2,
                    r.1 == data@.len(),
                );
                reveal(call_right);
                if r.2 {
                    before.lemma_step_below();
                }
            }
            r
        },
        other => {
            proof {
                reveal(call_right);
            }
            (other, 0, false)
        },
    }
}

/// Goes on from a state within the blocks.
fn advance_bits(next: BitsNext, bits: BitState, data: &[u8], final_block: &mut bool, window: &mut WindowBuffer) -> (r: (
    State,
    usize,
    bool,
))
    requires
        State::Bits(next, bits).fits(old(window), *old(final_block)),
    ensures
        advanced(
            bits.n as nat,
            State::Bits(next, bits).snapshot(data@, old(window), *old(final_block)),
            old(window),
            r,
            data@,
            final(window),
            *final(final_block),
        ),
{
    proof {
        lemma_append_wf(bits.bits(), data@);
    }
    let mut stream = BitStream::new(data, bits);
    let r = step_bits(next, &mut stream, final_block, window);
    (r.0, stream.used, r.1)
}

/// Goes on with a copy that the end of the window broke off. Returns the
/// state behind it.
fn run_len_dist(
    next: BitsNext,
    bits: BitState,
    len: u16,
    dist: u16,
    data: &[u8],
    final_block: bool,
    window: &mut WindowBuffer,
) -> (r: (State, usize, bool))
    requires
        State::LenDist((next, bits), len, dist).fits(old(window), final_block),
    ensures
        advanced(
            bits.n as nat,
            State::LenDist((next, bits), len, dist).snapshot(data@, old(window), final_block),
            old(window),
            r,
            data@,
            final(window),
            final_block,
        ),
{
    proof {
        lemma_append_wf(bits.bits(), data@);
        assert(data@.skip(0) =~= data@);
        window.lemma_wf();
    }
    let stepped = !window.is_full();
    proof {
        let before = State::LenDist((next, bits), len, dist).snapshot(data@, window, final_block);
        let room = window.capacity() - window.position();
        reveal(call_right);
        before.lemma_copy_run(copy_room(len as nat, room));
        crate::window::lemma_lz_copy_extends(window.history(), dist as nat, copy_room(len as nat, room));
    }
    match next {
        BitsNext::BlockDyn(lit, dist_code) => {
            let left = resume_copy(
                &lit,
                &dist_code,
                len,
                dist,
                Ghost(bits.bits().append(data@)),
                Ghost(0),
                final_block,
                window,
            );
            match left {
                Some(n) => (State::LenDist((BitsNext::BlockDyn(lit, dist_code), bits), n, dist), 0, stepped),
                None => (State::Bits(BitsNext::BlockDyn(lit, dist_code), bits), 0, stepped),
            }
        },
        other => (State::Bits(other, bits), 0, stepped),
    }
}

/// Goes on from a state, with `data` as the input that follows. Returns the
/// new state, how many bytes of `data` were taken in, and whether a step was
/// taken.
fn advance(state: State, data: &[u8], final_block: &mut bool, window: &mut WindowBuffer) -> (r: (
    State,
    usize,
    bool,
))
    requires
        state.fits(old(window), *old(final_block)),
    ensures
        advanced(
            state.bits().len,
            state.snapshot(data@, old(window), *old(final_block)),
            old(window),
            r,
            data@,
            final(window),
            *final(final_block),
        ),
{
    match state {
        State::Bits(next, bits) => advance_bits(next, bits, data, final_block, window),
        State::LenDist((next, bits), len, dist) => run_len_dist(
            next,
            bits,
            len,
            dist,
            data,
            *final_block,
            window,
        ),
        State::CheckCRC => {
            proof {
                assert(data@.skip(data@.len() as int) =~= Seq::<u8>::empty());
                lemma_empty_wf();
                state.snapshot(data@, window, *final_block).lemma_reaches_self();
                state.snapshot(data@, window, *final_block).lemma_stuck();
                reveal(call_right);
            }
            (State::CheckCRC, data.len(), false)
        },
        State::Failed(e) => {
            proof {
                lemma_empty_wf();
                state.snapshot(data@, window, *final_block).lemma_reaches_self();
                state.snapshot(data@, window, *final_block).lemma_stuck();
                reveal(call_right);
            }
            (State::Failed(e), data.len(), false)
        },
        other => advance_zlib(other, data, window),
    }
}

/// A call that goes on from the machine `m`, with `room` bytes of room in
/// the window and `data` as the input that follows, succeeds: it leaves the
/// machine `after`, has taken in `n` bytes, and says whether the machine has
/// `stepped`.
pub open spec fn call_made(m: Model, room: int, data: Seq<u8>, after: Model, n: nat, stepped: bool) -> bool {
    &&& n <= data.len()
    &&& !(after.phase is Failed)
    &&& call_right(
        m.bits.len,
        m.feed(data),
        room,
        data.len(),
        after.feed(data.skip(n as int)),
        stepped,
        n,
    )
}

/// The calls that lead from the machine `m`, with the window filled up to
/// `pos` and `data` as the input that follows, to the machine `end`, with
/// `total` bytes of `data` taken in. Each call is made with the window not
/// full and with what the calls before it have left of `data`, and is
/// followed by another only if the machine has moved. `calls` holds for each
/// call the machine that it left, the number of bytes that it took in, and
/// whether the machine has moved.
pub open spec fn calls_lead(
    m: Model,
    pos: int,
    data: Seq<u8>,
    calls: Seq<(Model, nat, bool)>,
    end: Model,
    total: nat,
) -> bool
    decreases calls.len(),
{
    if calls.len() == 0 {
        end == m && total == 0
    } else {
        let after = calls[0].0;
        let n = calls[0].1;
        let stepped = calls[0].2;
        &&& !(m.window > 0 && pos >= m.window)
        &&& call_made(m, m.window - pos, data, after, n, stepped)
        &&& calls.len() > 1 ==> stepped
        &&& n <= total
        &&& calls_lead(
            after,
            pos + (after.history.len() - m.history.len()),
            data.skip(n as int),
            calls.skip(1),
            end,
            (total - n) as nat,
        )
    }
}

/// One call more behind calls that lead to the machine `cur`.
pub proof fn lemma_calls_extend(
    m: Model,
    pos: int,
    data: Seq<u8>,
    calls: Seq<(Model, nat, bool)>,
    cur: Model,
    total: nat,
    after: Model,
    n: nat,
    stepped: bool,
)
    requires
        calls_lead(m, pos, data, calls, cur, total),
        calls.len() > 0 ==> calls.last().2,
        total <= data.len(),
        !(cur.window > 0 && pos + (cur.history.len() - m.history.len()) >= cur.window),
        call_made(
            cur,
            cur.window - (pos + (cur.history.len() - m.history.len())),
            data.skip(total as int),
            after,
            n,
            stepped,
        ),
    ensures
        calls_lead(m, pos, data, calls.push((after, n, stepped)), after, total + n),
    decreases calls.len(),
{
    let more = calls.push((after, n, stepped));
    if calls.len() == 0 {
        assert(data.skip(0) =~= data);
        assert(more.skip(1) =~= Seq::<(Model, nat, bool)>::empty());
        assert(more[0] == (after, n, stepped));
        assert(calls_lead(
            after,
            pos + (after.history.len() - m.history.len()),
            data.skip(n as int),
            more.skip(1),
            after,
            0,
        ));
    } else {
        let first = calls[0];
        let rest = calls.skip(1);
        let pos1 = pos + (first.0.history.len() - m.history.len());
        assert(data.skip(first.1 as int).skip((total - first.1) as int) =~= data.skip(total as int));
        if rest.len() > 0 {
            assert(rest.last() == calls.last());
        }
        lemma_calls_extend(
            first.0,
            pos1,
            data.skip(first.1 as int),
            rest,
            cur,
            (total - first.1) as nat,
            after,
            n,
            stepped,
        );
        assert(more.skip(1) =~= rest.push((after, n, stepped)));
        assert(more[0] == first);
        assert((total + n - first.1) as nat == (total - first.1) as nat + n);
    }
}

/// An incremental decompressor for one raw DEFLATE or zlib stream.
pub struct InflateStream {
    window: WindowBuffer,
    state: State,
    final_block: bool,
}

impl InflateStream {
    /// The machine that the decompressor stands for: its phase, the bits it
    /// has kept, and all the output so far.
    pub closed spec fn view(&self) -> Model {
        self.state.model(&self.window, self.final_block)
    }

    /// The parts of the decompressor are in order.
    pub closed spec fn inv(&self) -> bool {
        self.state.fits(&self.window, self.final_block)
    }

    /// The decompressor is in order and its window has room.
    pub open spec fn wf(&self) -> bool {
        self.inv() && !self.is_paused()
    }

    /// How far the window is filled.
    pub closed spec fn position(&self) -> nat {
        self.window.position()
    }

    /// The window is full: its content has to be handed out before a byte
    /// can be written.
    pub open spec fn is_paused(&self) -> bool {
        self.capacity() > 0 && self.position() >= self.capacity()
    }

    /// How large the window is.
    pub closed spec fn capacity(&self) -> nat {
        self.window.capacity()
    }

    /// What holds of a decompressor that is in order: its machine is, the
    /// machine knows the size of the window, and the window is filled no
    /// further than it goes and holds the end of the output. A window is
    /// there from the first byte of a zlib header on.
    pub proof fn lemma_inv(&self)
        requires
            self.inv(),
        ensures
            self@.wf(),
            self@.window == self.capacity(),
            self.capacity() <= MAX_WINDOW,
            self.position() <= self.capacity(),
            self.position() <= self@.history.len(),
            self@.phase is ZlibMethodAndFlags ==> self.capacity() == 0 && self@.history.len() == 0,
            !(self@.phase is ZlibMethodAndFlags || self@.phase is Failed) ==> self.capacity() > 0,
    {
        self.window.lemma_wf();
        lemma_empty_wf();
    }

    /// A decompressor for a raw DEFLATE stream, with a window of 32 KiB.
    pub fn new() -> (s: InflateStream)
        ensures
            s.wf(),
            s@ == raw_start(),
            s.position() == 0,
            s.capacity() == MAX_WINDOW,
    {
        let state = State::Bits(BitsNext::BlockHeader, BitState::new());
        let buffer = WindowBuffer::with_capacity(32 * 1024);
        InflateStream::with_state_and_buffer(state, buffer)
    }

    /// A decompressor for a zlib stream: the header comes first and says how
    /// large the window is.
    pub fn from_zlib() -> (s: InflateStream)
        ensures
            s.wf(),
            s@ == zlib_start(),
            s.position() == 0,
            s.capacity() == 0,
    {
        InflateStream::with_state_and_buffer(State::ZlibMethodAndFlags, WindowBuffer::with_capacity(0))
    }

    /// A decompressor at the start of a stream.
    fn with_state_and_buffer(state: State, buffer: WindowBuffer) -> (s: InflateStream)
        requires
            buffer.wf(),
            buffer.history() == Seq::<u8>::empty(),
            buffer.position() == 0,
            state == State::ZlibMethodAndFlags && buffer.capacity() == 0 || state == State::Bits(
                BitsNext::BlockHeader,
                BitState { n: 0, v: 0 },
            ) && buffer.capacity() > 0,
        ensures
            s.wf(),
            s@ == state.model(&buffer, false),
            s.position() == 0,
            s.capacity() == buffer.capacity(),
    {
        proof {
            lemma_empty_wf();
            lemma2_to64();
        }
        InflateStream { window: buffer, state, final_block: false }
    }

    /// Goes on from where the decompressor is, with `data` as the input that
    /// follows. Returns how many bytes of `data` were taken in, and whether
    /// the machine has moved.
    ///
    /// How far one call goes depends on where the decompressor is: see
    /// `call_goes`, and `call_takes` for the bytes that it takes in. The call
    /// fails exactly where it has come to malformed input, or had come to it
    /// before.
    pub fn next_state(&mut self, data: &[u8]) -> (r: Result<(usize, bool), InflateError>)
        requires
            old(self).inv(),
        ensures
            final(self).inv(),
            final(self).position() - old(self).position() == final(self)@.history.len() - old(
                self,
            )@.history.len(),
            old(self).capacity() > 0 ==> final(self).capacity() == old(self).capacity(),
            match r {
                Ok((n, stepped)) => {
                    &&& n <= data@.len()
                    &&& !(final(self)@.phase is Failed)
                    &&& progress(
                        old(self)@.feed(data@),
                        final(self)@.feed(data@.skip(n as int)),
                        stepped,
                        n == data@.len(),
                        final(self).is_paused(),
                    )
                    &&& call_goes(
                        old(self)@.feed(data@),
                        old(self).capacity() - old(self).position(),
                        final(self)@.feed(data@.skip(n as int)),
                    )
                    &&& stepped == (final(self)@.feed(data@.skip(n as int)) != old(self)@.feed(data@))
                    &&& call_takes(
                        old(self)@.bits.len,
                        old(self)@.feed(data@),
                        old(self).capacity() - old(self).position(),
                        final(self)@.feed(data@.skip(n as int)),
                        data@.len(),
                        n as nat,
                    )
                },
                Err(e) => {
                    &&& final(self)@.phase == Phase::Failed(e)
                    &&& old(self)@.feed(data@).reaches(final(self)@)
                    &&& call_goes(
                        old(self)@.feed(data@),
                        old(self).capacity() - old(self).position(),
                        final(self)@,
                    )
                },
            },
    {
        let r = self.go_on(data);
        proof {
            reveal(call_right);
        }
        match self.failure() {
            Some(e) => Err(e),
            None => Ok(r),
        }
    }

    /// Goes on from where the decompressor is, with `data` as the input that
    /// follows. Returns how many bytes of `data` were taken in, and whether
    /// the machine has moved.
    fn go_on(&mut self, data: &[u8]) -> (r: (usize, bool))
        requires
            old(self).inv(),
        ensures
            final(self).inv(),
            final(self).position() - old(self).position() == final(self)@.history.len() - old(
                self,
            )@.history.len(),
            old(self).capacity() > 0 ==> final(self).capacity() == old(self).capacity(),
            r.0 <= data@.len(),
            progress(
                old(self)@.feed(data@),
                final(self)@.feed(data@.skip(r.0 as int)),
                r.1,
                r.0 == data@.len(),
                final(self).is_paused(),
            ),
            call_right(
                old(self)@.bits.len,
                old(self)@.feed(data@),
                old(self).capacity() - old(self).position(),
                data@.len(),
                final(self)@.feed(data@.skip(r.0 as int)),
                r.1,
                r.0 as nat,
            ),
    {
        let mut state = State::CheckCRC;
        core::mem::swap(&mut self.state, &mut state);
        let r = advance(state, data, &mut self.final_block, &mut self.window);
        self.state = r.0;
        (r.1, r.2)
    }

    /// Goes on from where the decompressor is, with `data` from the place
    /// `consumed` on as the input that follows. Returns up to where `data`
    /// has then been taken in, and whether a step was taken.
    fn pump(&mut self, data: &[u8], consumed: usize) -> (r: Result<(usize, bool), InflateError>)
        requires
            old(self).inv(),
            consumed <= data@.len(),
        ensures
            final(self).inv(),
            final(self).position() - old(self).position() == final(self)@.history.len() - old(
                self,
            )@.history.len(),
            old(self).capacity() > 0 ==> final(self).capacity() == old(self).capacity(),
            final(self).position() <= final(self).capacity(),
            old(self)@.history.len() <= final(self)@.history.len(),
            final(self)@.history.subrange(0, old(self)@.history.len() as int) == old(self)@.history,
            match r {
                Ok((total, stepped)) => {
                    &&& consumed <= total <= data@.len()
                    &&& !(final(self)@.phase is Failed)
                    &&& progress(
                        old(self)@.feed(data@.skip(consumed as int)),
                        final(self)@.feed(data@.skip(total as int)),
                        stepped,
                        total == data@.len(),
                        final(self).is_paused(),
                    )
                    &&& call_made(
                        old(self)@,
                        old(self).capacity() - old(self).position(),
                        data@.skip(consumed as int),
                        final(self)@,
                        (total - consumed) as nat,
                        stepped,
                    )
                },
                Err(e) => {
                    &&& final(self)@.phase == Phase::Failed(e)
                    &&& old(self)@.feed(data@.skip(consumed as int)).reaches(final(self)@)
                },
            },
    {
        let chunk = vstd::slice::slice_subrange(data, consumed, data.len());
        proof {
            assert(chunk@ =~= data@.skip(consumed as int));
        }
        let ghost before = self@.feed(chunk@);
        let (n, stepped) = self.go_on(chunk);
        match self.failure() {
            Some(e) => {
                proof {
                    self.window.lemma_wf();
                    before.lemma_reaches_history(self@);
                }
                Err(e)
            },
            None => {
                proof {
                    assert(chunk@.skip(n as int) =~= data@.skip(consumed + n));
                    self.window.lemma_wf();
                    before.lemma_reaches_history(self@.feed(chunk@.skip(n as int)));
                }
                Ok((consumed + n, stepped))
            },
        }
    }

    /// The error that the decompressor has stopped with, if it has.
    fn failure(&self) -> (r: Option<InflateError>)
        ensures
            match r {
                Some(e) => self@.phase == Phase::Failed(e),
                None => !(self@.phase is Failed),
            },
    {
        match &self.state {
            State::Failed(e) => Some(*e),
            _ => None,
        }
    }

    /// Whether the window is full.
    fn window_full(&self) -> (r: bool)
        requires
            self.inv(),
        ensures
            r == self.is_paused(),
    {
        self.window.cap() > 0 && self.window.is_full()
    }

    /// Feeds the decompressor the next piece of the compressed stream.
    ///
    /// Returns how many bytes of `data` were taken in, and the output that
    /// this call has given: what the machine has written while it took steps
    /// on the input kept from earlier calls and the bytes taken in now. The
    /// call goes on until the window is full or no step is possible: the
    /// output ends at the end of the window, or every byte of `data` has been
    /// taken in and no step is possible without more input. The window is
    /// written from the start again once it was filled to its end.
    ///
    /// What the call does is what calls of `next_state` do of which each gets
    /// what the one before it has left of `data`, made as long as the window
    /// is not full and the machine moves: see `calls_lead`.
    ///
    /// Malformed input is reported once it is met, and again on every later
    /// call.
    pub fn update<'a>(&'a mut self, data: &[u8]) -> (r: Result<(usize, &'a [u8]), InflateError>)
        requires
            old(self).wf(),
        ensures
            final(self).wf(),
            match r {
                Ok((n, out)) => {
                    &&& n <= data@.len()
                    &&& old(self)@.feed(data@).reaches(final(self)@.feed(data@.skip(n as int)))
                    &&& !(final(self)@.phase is Failed)
                    &&& old(self)@.history.len() <= final(self)@.history.len()
                    &&& final(self)@.history.subrange(0, old(self)@.history.len() as int) == old(
                        self,
                    )@.history
                    &&& out@ == final(self)@.history.skip(old(self)@.history.len() as int)
                    &&& out@.len() == 0 ==> n == data@.len() && final(self)@.stuck()
                    &&& data@.len() == 0 && old(self)@.stuck() ==> final(self)@ == old(self)@
                    &&& crate::laws::update_call(old(self)@, data@, n as nat, final(self)@)
                    &&& exists|calls: Seq<(Model, nat, bool)>| #[trigger]
                        calls_lead(
                            old(self)@,
                            old(self).position() as int,
                            data@,
                            calls,
                            final(self)@,
                            n as nat,
                        )
                    &&& old(self).position() + out@.len() <= final(self).capacity()
                    &&& (final(self).capacity() > 0 && old(self).position() + out@.len() == final(self).capacity()) || (n == data@.len() && final(self)@.stuck())
                    &&& final(self).position() == if old(self).position() + out@.len() == final(self).capacity() {
                        0
                    } else {
                        old(self).position() + out@.len()
                    }
                },
                Err(e) => {
                    &&& final(self)@.phase == Phase::Failed(e)
                    &&& old(self)@.feed(data@).reaches(final(self)@)
                },
            },
    {
        match self.failure() {
            Some(e) => {
                proof {
                    self@.lemma_reaches_self();
                }
                return Err(e);
            },
            None => {},
        }
        let start_pos = self.window.pos();
        let mut consumed: usize = 0;
        let mut more = true;
        let ghost m0 = self@.feed(data@);
        let ghost mut calls: Seq<(Model, nat, bool)> = Seq::empty();
        proof {
            assert(data@.skip(0) =~= data@);
            m0.lemma_reaches_self();
            self.window.lemma_wf();
            assert(self@.history.subrange(0, self@.history.len() as int) =~= self@.history);
        }
        while more
            invariant
                self.inv(),
                consumed <= data@.len(),
                m0 == old(self)@.feed(data@),
                m0.reaches(self@.feed(data@.skip(consumed as int))),
                !(self@.phase is Failed),
                start_pos == old(self).position(),
                self.position() - start_pos == self@.history.len() - old(self)@.history.len(),
                self@.history.subrange(0, old(self)@.history.len() as int) == old(self)@.history,
                start_pos <= self.position() <= self.capacity(),
                self.capacity() == 0 || start_pos < self.capacity(),
                !more ==> self.is_paused() || (consumed == data@.len() && self@.feed(
                    data@.skip(consumed as int),
                ).stuck()),
                calls_lead(old(self)@, start_pos as int, data@, calls, self@, consumed as nat),
                more && calls.len() > 0 ==> calls.last().2,
            decreases
                    self@.feed(data@.skip(consumed as int)).bits.len,
                    self@.feed(data@.skip(consumed as int)).rank(),
                    if more {
                        1int
                    } else {
                        0int
                    },
        {
            if self.window_full() {
                more = false;
            } else {
                let ghost cur = self@.feed(data@.skip(consumed as int));
                let ghost h0 = old(self)@.history;
                let ghost h1 = self@.history;
                let ghost at = self@;
                proof {
                    self.lemma_inv();
                }
                match self.pump(data, consumed) {
                    Err(e) => {
                        self.window.rewind();
                        proof {
                            m0.lemma_reaches_trans(cur, self@);
                        }
                        return Err(e);
                    },
                    Ok((total, stepped)) => {
                        proof {
                            m0.lemma_reaches_trans(cur, self@.feed(data@.skip(total as int)));
                            assert(self@.history.subrange(0, h0.len() as int) =~= self@.history.subrange(
                                0,
                                h1.len() as int,
                            ).subrange(0, h0.len() as int));
                        }
                        proof {
                            lemma_calls_extend(
                                old(self)@,
                                start_pos as int,
                                data@,
                                calls,
                                at,
                                consumed as nat,
                                self@,
                                (total - consumed) as nat,
                                stepped,
                            );
                            calls = calls.push((self@, (total - consumed) as nat, stepped));
                        }
                        consumed = total;
                        if !stepped {
                            more = false;
                        }
                    },
                }
            }
        }
        proof {
            self.window.lemma_wf();
            self.lemma_inv();
            if data@.len() == 0 && old(self)@.stuck() {
                crate::laws::lemma_feed_nothing(old(self)@);
                crate::laws::lemma_feed_nothing(self@);
                assert(data@.skip(consumed as int) =~= Seq::<u8>::empty());
                assert(data@ =~= Seq::<u8>::empty());
                crate::laws::lemma_rest_stays(old(self)@, self@);
            }
            if consumed == data@.len() {
                assert(data@.skip(consumed as int) =~= Seq::<u8>::empty());
                lemma_append_empty(self@.bits);
            }
            let h = self@.history;
            assert(h.subrange(h.len() - (self.position() - start_pos), h.len() as int) =~= h.skip(
                old(self)@.history.len() as int,
            ));
        }
        let out = self.window.take_output(start_pos);
        Ok((consumed, out))
    }
}

} // verus!
