//! The body of a block: the code lengths of a dynamic block, and the symbols
//! with the copies that they ask for. Each function here takes as many steps
//! of the machine as the input and the room in the window allow.

use vstd::prelude::*;
use vstd::arithmetic::power2::*;
use crate::bits::{BitSeq, BitStream, bytes_moved, left_of};
use crate::huffman::{DynHuffman16, decode, symbol_pull, lemma_decode_len};
use crate::code_length_reader::{CodeLengthReader, meta_iter, meta_pull, read_to};
use crate::window::WindowBuffer;
use crate::tables::{length_bits, length_start, dist_bits, dist_start};
use crate::model::{Model, Phase};
use crate::state::{BitsNext, State, machine};
use crate::steps::{cursor_kept, one_step};
use crate::error::InflateError;

verus! {

/// What a function promises that takes any number of steps: `after` is
/// reached from `before`. If a step was taken, `after` comes below `before`
/// in the order of the steps. If none was, nothing has changed, and either
/// the window is full or no step is possible and every input byte has been
/// taken in.
pub open spec fn progress(
    before: Model,
    after: Model,
    stepped: bool,
    exhausted: bool,
    full: bool,
) -> bool {
    &&& before.reaches(after)
    &&& after.wf()
    &&& if stepped {
        after.below(before)
    } else {
        after == before && (full || (before.stuck() && exhausted))
    }
}

/// One step, or none where none is possible, is progress.
pub proof fn lemma_one_step_progress(before: Model, after: Model, stepped: bool, exhausted: bool)
    requires
        before.wf(),
        one_step(before, after, stepped, exhausted),
    ensures
        progress(before, after, stepped, exhausted, false),
{
    before.lemma_stuck();
    if stepped {
        before.lemma_step_wf();
        before.lemma_step_below();
        before.lemma_reaches_step();
    } else {
        before.lemma_reaches_self();
    }
}

/// `n` steps, the first of which was possible, are progress.
pub proof fn lemma_run_progress(before: Model, n: nat, exhausted: bool, full: bool)
    requires
        before.wf(),
        n >= 1,
        before.step() is Some,
    ensures
        progress(before, before.run(n), true, exhausted, full),
{
    before.lemma_run_wf(n);
    before.lemma_reaches_run(n);
}

/// A call that reads code lengths (`lengths`) or the body of a block has gone
/// on from `before` to `after`, with `room` bytes of room in the window at
/// its start.
#[verifier::opaque]
pub open spec fn went(before: Model, lengths: bool, room: int, after: Model) -> bool {
    exists|k: nat| #[trigger] before.end_of(lengths, room, k) == after
}

/// What a call promises that reads code lengths (`lengths`) or the body of a
/// block: it ends at the first state from which it does not go on. That is
/// where the part is over, where the input has run out, or where a byte is
/// to be written and the window is full. Where the input has run out, every
/// input byte has been taken in.
pub open spec fn call_done(
    before: Model,
    lengths: bool,
    room: int,
    after: Model,
    stepped: bool,
    exhausted: bool,
) -> bool {
    &&& before.call_ends(lengths, room, after)
    &&& stepped == (after != before)
    &&& after.stuck() && (if lengths {
        after.phase is BlockDynCodeLengths
    } else {
        after.in_body()
    }) ==> exhausted
}

/// One step within the body of a block, with room if it writes, is a step
/// that a call takes.
pub proof fn lemma_one_went(before: Model, room: int, after: Model)
    requires
        before.step() == Some(after),
        before.in_body(),
        !(before.writes() && room <= 0),
    ensures
        went(before, false, room, after),
        before.goes_on(false, room),
{
    reveal(went);
    before.lemma_goes_on(false, room);
    before.lemma_end_one(false, room);
}

/// Going on after going on is going on.
pub proof fn lemma_went_chain(before: Model, lengths: bool, room: int, mid: Model, after: Model)
    requires
        went(before, lengths, room, mid),
        went(mid, lengths, room - (mid.history.len() - before.history.len()), after),
    ensures
        went(before, lengths, room, after),
{
    reveal(went);
    let r1 = room - (mid.history.len() - before.history.len());
    let a = choose|k: nat| #[trigger] before.end_of(lengths, room, k) == mid;
    let b = choose|k: nat| #[trigger] mid.end_of(lengths, r1, k) == after;
    before.lemma_end_add(lengths, room, a, b);
}

/// Where a call has gone on to a state from which it does not go on, it
/// ends there.
pub proof fn lemma_went_ends(before: Model, lengths: bool, room: int, after: Model)
    requires
        went(before, lengths, room, after),
        !after.goes_on(lengths, room - (after.history.len() - before.history.len())),
    ensures
        before.call_ends(lengths, room, after),
{
    reveal(went);
    let a = choose|k: nat| #[trigger] before.end_of(lengths, room, k) == after;
    assert(before.end_of(lengths, room, a) == after);
}

/// A call that reads the body of a block has gone on from `before`, with
/// `left0` bytes outside the register, to `after`, with `left1` outside.
#[verifier::opaque]
pub open spec fn moved_on(before: Model, room: int, left0: nat, after: Model, left1: nat) -> bool {
    exists|k: nat| #[trigger]
        before.end_of(false, room, k) == after && before.left_after(false, room, k, left0) == left1
}

/// What a call promises of the bytes that it takes in, of the `left0` that
/// came, where it reads code lengths (`lengths`) or the body of a block and
/// does not fail: every byte where it ends for want of input, and else those
/// that its steps have asked for.
pub open spec fn call_counted(
    before: Model,
    lengths: bool,
    room: int,
    after: Model,
    left0: nat,
    n: nat,
) -> bool {
    if after.phase is Failed {
        true
    } else if after.stuck() && (if lengths {
        after.phase is BlockDynCodeLengths
    } else {
        after.in_body()
    }) {
        n == left0
    } else {
        n <= left0 && before.call_leaves(lengths, room, after, left0, (left0 - n) as nat)
    }
}

/// A call has gone on from a state to that state, and has moved no byte.
pub proof fn lemma_moved_nowhere(before: Model, room: int, left: nat)
    ensures
        moved_on(before, room, left, before, left),
{
    reveal(moved_on);
    assert(before.end_of(false, room, 0) == before);
    assert(before.left_after(false, room, 0, left) == left);
}

/// One step within the body of a block, with room if it writes, moves in
/// the bytes that it asks for.
pub proof fn lemma_one_moved(before: Model, room: int, after: Model, left0: nat, left1: nat)
    requires
        before.step() == Some(after),
        before.in_body(),
        !(before.writes() && room <= 0),
        left1 == left0 - before.pulls(left0),
    ensures
        moved_on(before, room, left0, after, left1),
{
    reveal(moved_on);
    before.lemma_goes_on(false, room);
    before.lemma_end_one(false, room);
    before.lemma_left_one(false, room, left0);
}

/// Going on after going on is going on.
pub proof fn lemma_moved_chain(
    before: Model,
    room: int,
    left0: nat,
    mid: Model,
    left1: nat,
    after: Model,
    left2: nat,
)
    requires
        moved_on(before, room, left0, mid, left1),
        moved_on(mid, room - (mid.history.len() - before.history.len()), left1, after, left2),
    ensures
        moved_on(before, room, left0, after, left2),
{
    reveal(moved_on);
    let r1 = room - (mid.history.len() - before.history.len());
    let a = choose|k: nat| #[trigger]
        before.end_of(false, room, k) == mid && before.left_after(false, room, k, left0) == left1;
    let b = choose|k: nat| #[trigger]
        mid.end_of(false, r1, k) == after && mid.left_after(false, r1, k, left1) == left2;
    before.lemma_end_add(false, room, a, b);
    before.lemma_left_add(false, room, a, b, left0);
    assert(before.end_of(false, room, a + b) == after);
}

/// A copy of `k` bytes moves no byte in.
pub proof fn lemma_copy_moved(before: Model, room: int, k: nat, left: nat)
    requires
        before.wf(),
        before.phase is LenDist,
        k <= before.phase->LenDist_len,
        k <= room,
    ensures
        moved_on(before, room, left, before.run(k), left),
{
    reveal(moved_on);
    before.lemma_copy_end(room, k);
    before.lemma_copy_left(room, k, left);
}

/// Where a call has gone on to a state from which it does not go on, it
/// ends there, with the bytes outside that it had not moved in.
pub proof fn lemma_moved_ends(
    before: Model,
    room: int,
    left0: nat,
    after: Model,
    left1: nat,
    left2: nat,
)
    requires
        moved_on(before, room, left0, after, left1),
        !after.goes_on(false, room - (after.history.len() - before.history.len())),
        left2 == left1 - after.held_back(
            false,
            room - (after.history.len() - before.history.len()),
            left1,
        ),
    ensures
        before.call_leaves(false, room, after, left0, left2),
{
    reveal(moved_on);
    let a = choose|k: nat| #[trigger]
        before.end_of(false, room, k) == after && before.left_after(false, room, k, left0) == left1;
    assert(before.end_of(false, room, a) == after);
}

/// How many bytes the step of a phase moves in, in terms of the cursor that
/// holds the input of the machine.
pub proof fn lemma_pulls(before: Model, stream: BitStream)
    requires
        stream.wf(),
        before.bits == stream.bits(),
    ensures
        before.pulls(left_of(stream)) == match before.phase {
            Phase::BlockDyn { lit, .. } => symbol_pull(
                stream.state.n as nat,
                left_of(stream),
                decode(lit, before.bits)->Symbol_len,
            ),
            Phase::BlockDynLength { sym, .. } => bytes_moved(
                stream.state.n as nat,
                crate::tables::length_extra_bits(sym),
                left_of(stream),
            ),
            Phase::BlockDynDistance { dist, .. } => symbol_pull(
                stream.state.n as nat,
                left_of(stream),
                decode(dist, before.bits)->Symbol_len,
            ),
            Phase::BlockDynDistanceExtra { sym, .. } => bytes_moved(
                stream.state.n as nat,
                crate::tables::dist_extra_bits(sym),
                left_of(stream),
            ),
            Phase::BlockDynCodeLengths { clens, .. } => meta_pull(
                clens,
                before.bits,
                stream.state.n as nat,
                left_of(stream),
            ),
            _ => 0,
        },
{
    reveal(Model::pulls);
    assert(stream.bits().len == stream.state.n + 8 * left_of(stream));
}

/// A step that a turn has taken, with the bytes that the cursor has moved
/// in for it.
pub proof fn lemma_turn_moved(before: Model, room: int, after: Model, stream0: BitStream, stream1: BitStream)
    requires
        stream0.wf(),
        stream1.wf(),
        before.bits == stream0.bits(),
        before.step() == Some(after),
        before.in_body(),
        !(before.writes() && room <= 0),
        stream1.data@ == stream0.data@,
        stream1.used - stream0.used == before.pulls(left_of(stream0)),
    ensures
        moved_on(before, room, left_of(stream0), after, left_of(stream1)),
{
    lemma_one_moved(before, room, after, left_of(stream0), left_of(stream1));
}

/// Reads code lengths as far as the input goes, and builds the decoders once
/// all lengths are there.
pub fn read_code_lengths(
    reader: CodeLengthReader,
    stream: &mut BitStream,
    final_block: bool,
    window: &WindowBuffer,
) -> (r: (State, bool))
    requires
        reader.wf(),
        old(stream).wf(),
        machine(BitsNext::BlockDynCodeLengths(reader).phase(), old(stream).bits(), window, final_block).wf(),
    ensures
        cursor_kept(*old(stream), *final(stream)),
        r.0.wf(),
        r.0.in_blocks(),
        progress(
            machine(
                BitsNext::BlockDynCodeLengths(reader).phase(),
                old(stream).bits(),
                window,
                final_block,
            ),
            r.0.snapshot(final(stream).rest(), window, final_block),
            r.1,
            final(stream).used == final(stream).data@.len(),
            false,
        ),
        call_done(
            machine(
                BitsNext::BlockDynCodeLengths(reader).phase(),
                old(stream).bits(),
                window,
                final_block,
            ),
            true,
            window.capacity() - window.position(),
            r.0.snapshot(final(stream).rest(), window, final_block),
            r.1,
            final(stream).used == final(stream).data@.len(),
        ),
        call_counted(
            machine(
                BitsNext::BlockDynCodeLengths(reader).phase(),
                old(stream).bits(),
                window,
                final_block,
            ),
            true,
            window.capacity() - window.position(),
            r.0.snapshot(final(stream).rest(), window, final_block),
            left_of(*old(stream)),
            (final(stream).used - old(stream).used) as nat,
        ),
{
    let mut reader = reader;
    let ghost before = machine(
        BitsNext::BlockDynCodeLengths(reader).phase(),
        stream.bits(),
        window,
        final_block,
    );
    let ghost clens = reader.clens();
    let ghost total = reader.total();
    let ghost result0 = reader.result();
    let ghost bits0 = stream.bits();
    let before_len = reader.result_len();
    let outcome = reader.read(stream);
    let ghost k = choose|k: nat| #[trigger]
        read_to(
            clens,
            total,
            result0,
            bits0,
            k,
            reader.result(),
            stream.bits(),
            outcome,
            left_of(*old(stream)),
            left_of(*stream),
        );
    let ghost room = window.capacity() - window.position();
    let ghost n = before.lemma_code_lengths_run(k, room, left_of(*old(stream)));
    let ghost mid = before.go(
        Phase::BlockDynCodeLengths {
            clens,
            result: reader.result(),
            num_lit: reader.num_lit(),
            num_dist: reader.num_dist(),
        },
        meta_iter(clens, total, result0, bits0, k).1,
    );
    proof {
        reader.lemma_wf();
        before.lemma_run_wf(n);
        before.lemma_reaches_self();
        before.lemma_stuck();
        before.lemma_reaches_run(n);
        lemma_went_to(before, true, room, n);
    }
    let ghost exhausted = stream.used == stream.data@.len();
    match outcome {
        Ok(true) => {
            let r = match reader.to_lit_and_dist() {
                Ok((lit, dist)) => {
                    proof {
                        lit.lemma_wf_valid();
                        dist.lemma_wf_valid();
                    }
                    State::Bits(BitsNext::BlockDyn(lit, dist), stream.state)
                },
                Err(e) => State::Failed(e),
            };
            proof {
                let after = r.snapshot(stream.rest(), window, final_block);
                after.lemma_goes_on(true, room);
                after.lemma_stuck();
                lemma_call_over(before, true, room, after, true, exhausted);
                assert(before.end_of(true, room, n) == after);
            }
            (r, true)
        },
        Ok(false) => {
            let stepped = reader.result_len() > before_len;
            proof {
                mid.lemma_goes_on(true, room);
                mid.lemma_stuck();
                assert(mid.step() is None);
                lemma_call_over(before, true, room, mid, stepped, exhausted);
            }
            (State::Bits(BitsNext::BlockDynCodeLengths(reader), stream.state), stepped)
        },
        Err(e) => {
            proof {
                assert(before.run(n) == mid);
                assert(mid.step() == Some(mid.fail(e)));
                before.lemma_run_then(n);
                before.lemma_run_wf(n + 1);
                if n == 0 {
                    assert(before.run(0) == before);
                }
                before.lemma_reaches_run(n + 1);
                mid.lemma_goes_on(true, room);
                mid.lemma_end_one(true, room);
                before.lemma_end_add(true, room, n, 1);
                lemma_went_to(before, true, room, n + 1);
                let after = mid.fail(e);
                after.lemma_goes_on(true, room);
                after.lemma_stuck();
                lemma_call_over(before, true, room, after, true, exhausted);
            }
            (State::Failed(e), true)
        },
    }
}

/// What is to be read next within the symbols of a block.
#[derive(Clone, Copy)]
pub enum Pending {
    /// A literal/length symbol.
    Symbol,
    /// The extra bits of a length symbol; the number is the symbol less 256.
    Length(u8),
    /// The distance symbol behind a length.
    Distance(u16),
    /// The extra bits of a distance symbol, behind the length.
    DistanceExtra(u16, u8),
}

impl Pending {
    /// The phase of the machine that this stands for, with the code lengths
    /// of the block.
    pub open spec fn phase(self, lit: Seq<u8>, dist: Seq<u8>) -> Phase {
        match self {
            Pending::Symbol => Phase::BlockDyn { lit, dist },
            Pending::Length(code) => Phase::BlockDynLength { lit, dist, sym: 256 + code as nat },
            Pending::Distance(len) => Phase::BlockDynDistance { lit, dist, len: len as nat },
            Pending::DistanceExtra(len, code) => Phase::BlockDynDistanceExtra {
                lit,
                dist,
                len: len as nat,
                sym: code as nat,
            },
        }
    }

    /// Puts the decoders of the block back with what is to be read next.
    pub fn with(self, lit: DynHuffman16, dist: DynHuffman16) -> (r: BitsNext)
        requires
            lit.wf(),
            dist.wf(),
        ensures
            r.wf(),
            r.phase() == self.phase(lit.lens(), dist.lens()),
    {
        match self {
            Pending::Symbol => BitsNext::BlockDyn(lit, dist),
            Pending::Length(code) => BitsNext::BlockDynLength(lit, dist, code),
            Pending::Distance(len) => BitsNext::BlockDynDistance(lit, dist, len),
            Pending::DistanceExtra(len, code) => BitsNext::BlockDynDistanceExtra(lit, dist, len, code),
        }
    }
}

/// How far the write position of the window has moved is how much the output
/// has grown.
pub open spec fn in_step(before: &WindowBuffer, after: &WindowBuffer) -> bool {
    &&& after.wf()
    &&& after.capacity() == before.capacity()
    &&& after.position() - before.position() == after.history().len() - before.history().len()
}

/// What one pass through the loop over the symbols comes to.
#[derive(Clone, Copy)]
pub enum Turn {
    /// Go on with what is to be read next.
    Next(Pending),
    /// Nothing was done: the input has run out, or the window is full.
    Wait,
    /// The block is over.
    EndOfBlock,
    /// A copy was begun that the end of the window broke off: how many bytes
    /// are left, and the distance.
    Copy(u16, u16),
    /// The input is malformed.
    Fail(InflateError),
}

impl Turn {
    /// The machine after a turn that took steps. (A turn that waits leaves
    /// the machine as it was; for it this says nothing of use.)
    pub open spec fn model(
        self,
        lit: Seq<u8>,
        dist: Seq<u8>,
        bits: BitSeq,
        window: &WindowBuffer,
        final_block: bool,
    ) -> Model {
        match self {
            Turn::Next(pending) => machine(pending.phase(lit, dist), bits, window, final_block),
            Turn::Wait => machine(Phase::CheckCRC, bits, window, final_block),
            Turn::EndOfBlock => if final_block {
                machine(Phase::CheckCRC, BitSeq::empty(), window, final_block)
            } else {
                machine(Phase::BlockHeader, bits, window, final_block)
            },
            Turn::Copy(left, back) => machine(
                Phase::LenDist { lit, dist, len: left as nat, back: back as nat },
                bits,
                window,
                final_block,
            ),
            Turn::Fail(e) => machine(Phase::Failed(e), BitSeq::empty(), window, final_block),
        }
    }
}

/// What a turn promises. Where it did nothing, nothing has changed, and the
/// window is full or no step is possible and every input byte has been taken
/// in. Else steps were taken that lead to the machine after the turn.
#[verifier::opaque]
pub open spec fn turn_done(
    turn: Turn,
    before: Model,
    lit: Seq<u8>,
    dist: Seq<u8>,
    stream0: BitStream,
    stream1: BitStream,
    window0: &WindowBuffer,
    window1: &WindowBuffer,
) -> bool {
    match turn {
        Turn::Wait => {
            &&& stream1.bits() == stream0.bits()
            &&& window1.history() == window0.history()
            &&& window1.position() == window0.position()
            &&& window1.position() >= window1.capacity() || (before.stuck() && stream1.used
                == stream1.data@.len())
            &&& before.stuck() ==> stream1.used == stream1.data@.len()
            &&& !before.goes_on(false, window0.capacity() - window0.position())
            &&& !before.stuck() ==> stream1.used - stream0.used == before.held_back(
                false,
                window0.capacity() - window0.position(),
                left_of(stream0),
            )
        },
        _ => {
            &&& before.step() is Some
            &&& went(
                before,
                false,
                window0.capacity() - window0.position(),
                turn.model(lit, dist, stream1.bits(), window1, before.final_block),
            )
            &&& !(turn is Fail) ==> moved_on(
                before,
                window0.capacity() - window0.position(),
                left_of(stream0),
                turn.model(lit, dist, stream1.bits(), window1, before.final_block),
                left_of(stream1),
            )
            &&& turn is Copy ==> window1.position() >= window1.capacity()
            &&& progress(
                before,
                turn.model(lit, dist, stream1.bits(), window1, before.final_block),
                true,
                false,
                false,
            )
        },
    }
}

/// Reads what is pending within the symbols of a block: a symbol or extra
/// bits. A literal is written to the window, a complete pair of length and
/// distance is copied.
pub fn symbol_turn(
    lit: &DynHuffman16,
    dist: &DynHuffman16,
    pending: Pending,
    stream: &mut BitStream,
    final_block: bool,
    window: &mut WindowBuffer,
) -> (turn: Turn)
    requires
        lit.wf(),
        dist.wf(),
        old(stream).wf(),
        old(window).wf(),
        machine(pending.phase(lit.lens(), dist.lens()), old(stream).bits(), old(window), final_block).wf(),
    ensures
        cursor_kept(*old(stream), *final(stream)),
        in_step(old(window), final(window)),
        turn_done(
            turn,
            machine(
                pending.phase(lit.lens(), dist.lens()),
                old(stream).bits(),
                old(window),
                final_block,
            ),
            lit.lens(),
            dist.lens(),
            *old(stream),
            *final(stream),
            old(window),
            final(window),
        ),
{
    proof {
        reveal(turn_done);
    }
    match pending {
        Pending::Symbol => turn_symbol(lit, dist, stream, final_block, window),
        Pending::Length(code) => turn_length(lit, dist, code, stream, final_block, window),
        Pending::Distance(len) => turn_distance(lit, dist, len, stream, final_block, window),
        Pending::DistanceExtra(len, code) => turn_copy(lit, dist, len, code, stream, final_block, window),
    }
}

/// Reads a literal/length symbol.
fn turn_symbol(
    lit: &DynHuffman16,
    dist: &DynHuffman16,
    stream: &mut BitStream,
    final_block: bool,
    window: &mut WindowBuffer,
) -> (turn: Turn)
    requires
        lit.wf(),
        dist.wf(),
        old(stream).wf(),
        old(window).wf(),
        machine(Pending::Symbol.phase(lit.lens(), dist.lens()), old(stream).bits(), old(window), final_block).wf(),
    ensures
        cursor_kept(*old(stream), *final(stream)),
        in_step(old(window), final(window)),
        turn_done(
            turn,
            machine(
                Pending::Symbol.phase(lit.lens(), dist.lens()),
                old(stream).bits(),
                old(window),
                final_block,
            ),
            lit.lens(),
            dist.lens(),
            *old(stream),
            *final(stream),
            old(window),
            final(window),
        ),
{
    proof {
        reveal(turn_done);
    }
    let ghost before = machine(
        Pending::Symbol.phase(lit.lens(), dist.lens()),
        stream.bits(),
        window,
        final_block,
    );
    proof {
        lemma_decode_len(lit.lens(), stream.bits());
    }
    let (turn, save) = match lit.read(stream) {
        Err(e) => (Turn::Fail(e), None),
        Ok(None) => (Turn::Wait, None),
        Ok(Some((save, sym))) => {
            if sym < 256 {
                if window.push(sym as u8) {
                    (Turn::Next(Pending::Symbol), None)
                } else {
                    (Turn::Wait, Some(save))
                }
            } else if sym == 256 {
                (Turn::EndOfBlock, None)
            } else if sym <= 285 {
                (Turn::Next(Pending::Length((sym - 256) as u8)), None)
            } else {
                (Turn::Fail(InflateError::BadLengthCode(sym)), None)
            }
        },
    };
    match save {
        Some(save) => {
            stream.state = save;
        },
        None => {},
    }
    proof {
        before.lemma_stuck();
        old(window).lemma_wf();
        let room = old(window).capacity() - old(window).position();
        lemma_pulls(before, *old(stream));
        match turn {
            Turn::Wait => {
                before.lemma_goes_on(false, room);
            },
            _ => {
                lemma_one_step_progress(
                    before,
                    turn.model(lit.lens(), dist.lens(), stream.bits(), window, final_block),
                    true,
                    false,
                );
                lemma_one_went(
                    before,
                    room,
                    turn.model(lit.lens(), dist.lens(), stream.bits(), window, final_block),
                );
                if !(turn is Fail) {
                    lemma_turn_moved(
                        before,
                        room,
                        turn.model(lit.lens(), dist.lens(), stream.bits(), window, final_block),
                        *old(stream),
                        *stream,
                    );
                }
            },
        }
    }
    turn
}

/// Reads the extra bits of a length symbol.
fn turn_length(
    lit: &DynHuffman16,
    dist: &DynHuffman16,
    code: u8,
    stream: &mut BitStream,
    final_block: bool,
    window: &mut WindowBuffer,
) -> (turn: Turn)
    requires
        lit.wf(),
        dist.wf(),
        old(stream).wf(),
        old(window).wf(),
        machine(Pending::Length(code).phase(lit.lens(), dist.lens()), old(stream).bits(), old(window), final_block).wf(),
    ensures
        cursor_kept(*old(stream), *final(stream)),
        in_step(old(window), final(window)),
        turn_done(
            turn,
            machine(
                Pending::Length(code).phase(lit.lens(), dist.lens()),
                old(stream).bits(),
                old(window),
                final_block,
            ),
            lit.lens(),
            dist.lens(),
            *old(stream),
            *final(stream),
            old(window),
            final(window),
        ),
{
    proof {
        reveal(turn_done);
    }
    let ghost before = machine(
        Pending::Length(code).phase(lit.lens(), dist.lens()),
        stream.bits(),
        window,
        final_block,
    );
    let bits = length_bits(code);
    proof {
        before.lemma_stuck();
        before.lemma_goes_on(false, old(window).capacity() - old(window).position());
    }
    match stream.take(bits) {
        None => Turn::Wait,
        Some(extra) => {
            proof {
                crate::tables::lemma_length_range(256 + code as nat);
                vstd::arithmetic::power2::lemma_pow2_pos(bits as nat);
                vstd::arithmetic::div_mod::lemma_mod_bound(
                    before.bits.value as int,
                    pow2(bits as nat) as int,
                );
            }
            let len = length_start(code, bits) + extra as u16;
            let turn = Turn::Next(Pending::Distance(len));
            proof {
                lemma_one_step_progress(
                    before,
                    turn.model(lit.lens(), dist.lens(), stream.bits(), window, final_block),
                    true,
                    false,
                );
                lemma_one_went(
                    before,
                    old(window).capacity() - old(window).position(),
                    turn.model(lit.lens(), dist.lens(), stream.bits(), window, final_block),
                );
                lemma_pulls(before, *old(stream));
                lemma_turn_moved(
                    before,
                    old(window).capacity() - old(window).position(),
                    turn.model(lit.lens(), dist.lens(), stream.bits(), window, final_block),
                    *old(stream),
                    *stream,
                );
            }
            turn
        },
    }
}

/// Reads the distance symbol behind a length.
fn turn_distance(
    lit: &DynHuffman16,
    dist: &DynHuffman16,
    len: u16,
    stream: &mut BitStream,
    final_block: bool,
    window: &mut WindowBuffer,
) -> (turn: Turn)
    requires
        lit.wf(),
        dist.wf(),
        old(stream).wf(),
        old(window).wf(),
        machine(Pending::Distance(len).phase(lit.lens(), dist.lens()), old(stream).bits(), old(window), final_block).wf(),
    ensures
        cursor_kept(*old(stream), *final(stream)),
        in_step(old(window), final(window)),
        turn_done(
            turn,
            machine(
                Pending::Distance(len).phase(lit.lens(), dist.lens()),
                old(stream).bits(),
                old(window),
                final_block,
            ),
            lit.lens(),
            dist.lens(),
            *old(stream),
            *final(stream),
            old(window),
            final(window),
        ),
{
    proof {
        reveal(turn_done);
    }
    let ghost before = machine(
        Pending::Distance(len).phase(lit.lens(), dist.lens()),
        stream.bits(),
        window,
        final_block,
    );
    proof {
        lemma_decode_len(dist.lens(), stream.bits());
    }
    let turn = match dist.read(stream) {
        Err(e) => Turn::Fail(e),
        Ok(None) => Turn::Wait,
        Ok(Some((save, sym))) => {
            if sym >= 30 {
                Turn::Fail(InflateError::BadDistanceCode(sym))
            } else {
                Turn::Next(Pending::DistanceExtra(len, sym as u8))
            }
        },
    };
    proof {
        before.lemma_stuck();
        old(window).lemma_wf();
        let room = old(window).capacity() - old(window).position();
        lemma_pulls(before, *old(stream));
        match turn {
            Turn::Wait => {
                before.lemma_goes_on(false, room);
            },
            _ => {
                lemma_one_step_progress(
                    before,
                    turn.model(lit.lens(), dist.lens(), stream.bits(), window, final_block),
                    true,
                    false,
                );
                lemma_one_went(
                    before,
                    room,
                    turn.model(lit.lens(), dist.lens(), stream.bits(), window, final_block),
                );
                if !(turn is Fail) {
                    lemma_turn_moved(
                        before,
                        room,
                        turn.model(lit.lens(), dist.lens(), stream.bits(), window, final_block),
                        *old(stream),
                        *stream,
                    );
                }
            },
        }
    }
    turn
}

/// Reads the extra bits of a distance symbol and copies.
#[verifier::rlimit(50)]
fn turn_copy(
    lit: &DynHuffman16,
    dist: &DynHuffman16,
    len: u16,
    code: u8,
    stream: &mut BitStream,
    final_block: bool,
    window: &mut WindowBuffer,
) -> (turn: Turn)
    requires
        lit.wf(),
        dist.wf(),
        old(stream).wf(),
        old(window).wf(),
        machine(Pending::DistanceExtra(len, code).phase(lit.lens(), dist.lens()), old(stream).bits(), old(window), final_block).wf(),
    ensures
        cursor_kept(*old(stream), *final(stream)),
        in_step(old(window), final(window)),
        turn_done(
            turn,
            machine(
                Pending::DistanceExtra(len, code).phase(lit.lens(), dist.lens()),
                old(stream).bits(),
                old(window),
                final_block,
            ),
            lit.lens(),
            dist.lens(),
            *old(stream),
            *final(stream),
            old(window),
            final(window),
        ),
{
    proof {
        reveal(turn_done);
    }
    let ghost before = machine(
        Pending::DistanceExtra(len, code).phase(lit.lens(), dist.lens()),
        stream.bits(),
        window,
        final_block,
    );
    let bits = dist_bits(code);
    let ghost room = old(window).capacity() - old(window).position();
    proof {
        before.lemma_stuck();
        before.lemma_goes_on(false, room);
    }
    match stream.take16(bits) {
        None => Turn::Wait,
        Some(extra) => {
            proof {
                crate::tables::lemma_dist_range(code as nat);
                vstd::arithmetic::power2::lemma_pow2_pos(bits as nat);
                vstd::arithmetic::div_mod::lemma_mod_bound(
                    before.bits.value as int,
                    pow2(bits as nat) as int,
                );
                window.lemma_wf();
            }
            let back = dist_start(code, bits) + extra;
            if !window.can_copy(back) {
                let e = InflateError::DistanceTooFar(back);
                proof {
                    lemma_one_step_progress(before, before.fail(e), true, false);
                    lemma_one_went(before, room, before.fail(e));
                }
                Turn::Fail(e)
            } else {
                let ghost mid = machine(
                    Phase::LenDist {
                        lit: lit.lens(),
                        dist: dist.lens(),
                        len: len as nat,
                        back: back as nat,
                    },
                    stream.bits(),
                    window,
                    final_block,
                );
                proof {
                    assert(before.step() == Some(mid));
                    before.lemma_step_wf();
                }
                let left = resume_copy(
                    lit,
                    dist,
                    len,
                    back,
                    Ghost(stream.bits()),
                    Ghost(left_of(*stream)),
                    final_block,
                    window,
                );
                let turn = match left {
                    None => Turn::Next(Pending::Symbol),
                    Some(left) => Turn::Copy(left, back),
                };
                proof {
                    let after = turn.model(lit.lens(), dist.lens(), stream.bits(), window, final_block);
                    lemma_progress_after_step(
                        before,
                        mid,
                        after,
                        old(window).position() < old(window).capacity(),
                    );
                    lemma_one_went(before, room, mid);
                    lemma_went_chain(before, false, room, mid, after);
                    lemma_pulls(before, *old(stream));
                    lemma_turn_moved(before, room, mid, *old(stream), *stream);
                    lemma_moved_chain(
                        before,
                        room,
                        left_of(*old(stream)),
                        mid,
                        left_of(*stream),
                        after,
                        left_of(*stream),
                    );
                }
                turn
            }
        },
    }
}

/// Progress behind a step is progress.
pub proof fn lemma_progress_after_step(before: Model, mid: Model, after: Model, stepped: bool)
    requires
        before.wf(),
        before.step() == Some(mid),
        progress(mid, after, stepped, false, true),
    ensures
        progress(before, after, true, false, false),
{
    before.lemma_step_below();
    before.lemma_reaches_step();
    before.lemma_reaches_trans(mid, after);
}

/// Goes on with a copy that the end of the window broke off.
pub fn resume_copy(
    lit: &DynHuffman16,
    dist: &DynHuffman16,
    len: u16,
    back: u16,
    Ghost(bits): Ghost<BitSeq>,
    Ghost(outside): Ghost<nat>,
    final_block: bool,
    window: &mut WindowBuffer,
) -> (left: Option<u16>)
    requires
        lit.wf(),
        dist.wf(),
        old(window).wf(),
        machine(
            Phase::LenDist { lit: lit.lens(), dist: dist.lens(), len: len as nat, back: back as nat },
            bits,
            old(window),
            final_block,
        ).wf(),
    ensures
        in_step(old(window), final(window)),
        ({
            let before = machine(
                Phase::LenDist {
                    lit: lit.lens(),
                    dist: dist.lens(),
                    len: len as nat,
                    back: back as nat,
                },
                bits,
                old(window),
                final_block,
            );
            let turn = match left {
                Some(n) => Turn::Copy(n, back),
                None => Turn::Next(Pending::Symbol),
            };
            let stepped = old(window).position() < old(window).capacity();
            let room = old(window).capacity() - old(window).position();
            let k = if len <= room {
                len as nat
            } else {
                room as nat
            };
            &&& progress(
                before,
                turn.model(lit.lens(), dist.lens(), bits, final(window), final_block),
                stepped,
                false,
                true,
            )
            &&& stepped ==> before.step() is Some
            &&& final(window).history() == crate::window::lz_copy(
                old(window).history(),
                back as nat,
                k,
            )
            &&& final(window).position() == old(window).position() + k
            &&& left == if len <= room {
                None
            } else {
                Some((len - room) as u16)
            }
            &&& went(
                before,
                false,
                room,
                turn.model(lit.lens(), dist.lens(), bits, final(window), final_block),
            )
            &&& moved_on(
                before,
                room,
                outside,
                turn.model(lit.lens(), dist.lens(), bits, final(window), final_block),
                outside,
            )
        }),
{
    let ghost before = machine(
        Phase::LenDist { lit: lit.lens(), dist: dist.lens(), len: len as nat, back: back as nat },
        bits,
        window,
        final_block,
    );
    let ghost room = window.capacity() - window.position();
    let ghost k: nat = if len <= room {
        len as nat
    } else {
        room as nat
    };
    proof {
        window.lemma_wf();
        before.lemma_copy_run(k);
        before.lemma_copy_end(room, k);
        lemma_went_to(before, false, room, k);
        lemma_copy_moved(before, room, k, outside);
        crate::window::lemma_lz_copy_extends(window.history(), back as nat, k);
        if k >= 1 {
            lemma_run_progress(before, k, false, true);
        } else {
            before.lemma_reaches_self();
            assert(before.run(0) == before);
        }
    }
    window.copy(len, back)
}


/// Progress after progress is progress.
pub proof fn lemma_progress_chain(
    before: Model,
    mid: Model,
    after: Model,
    stepped1: bool,
    stepped2: bool,
    exhausted: bool,
    full: bool,
)
    requires
        before.reaches(mid),
        if stepped1 {
            mid.below(before)
        } else {
            mid == before
        },
        progress(mid, after, stepped2, exhausted, full),
    ensures
        progress(before, after, stepped1 || stepped2, exhausted, full),
{
    before.lemma_reaches_trans(mid, after);
}

/// A call has gone on from a state to that state.
pub proof fn lemma_went_nowhere(before: Model, lengths: bool, room: int)
    ensures
        went(before, lengths, room, before),
{
    reveal(went);
    assert(before.end_of(lengths, room, 0) == before);
}

/// What is there after some steps of a call, the call has gone on to.
pub proof fn lemma_went_to(before: Model, lengths: bool, room: int, k: nat)
    ensures
        went(before, lengths, room, before.end_of(lengths, room, k)),
{
    reveal(went);
}

/// A call that has gone on to a state from which it does not go on is done.
pub proof fn lemma_call_over(
    before: Model,
    lengths: bool,
    room: int,
    after: Model,
    stepped: bool,
    exhausted: bool,
)
    requires
        went(before, lengths, room, after),
        !after.goes_on(lengths, room - (after.history.len() - before.history.len())),
        if stepped {
            after.below(before)
        } else {
            after == before
        },
        after.stuck() && (if lengths {
            after.phase is BlockDynCodeLengths
        } else {
            after.in_body()
        }) ==> exhausted,
    ensures
        call_done(before, lengths, room, after, stepped, exhausted),
{
    lemma_went_ends(before, lengths, room, after);
}

/// From a state outside the body of a block, or within a copy with the
/// window full, a call that reads the body does not go on; and within a copy
/// a step is always possible.
pub proof fn lemma_body_left(after: Model, room: int)
    requires
        !after.in_body() || (after.phase is LenDist && room <= 0),
    ensures
        !after.goes_on(false, room),
        !(after.stuck() && after.in_body()),
{
    after.lemma_goes_on(false, room);
    after.lemma_stuck();
    if after.phase is LenDist {
        assert(after.step() == after.step_copy());
    }
}

/// What holds of the state `cur` that a call has come to which started at
/// `before` with `room` bytes of room.
#[verifier::opaque]
pub open spec fn underway(before: Model, room: int, cur: Model, stepped: bool) -> bool {
    &&& went(before, false, room, cur)
    &&& before.reaches(cur)
    &&& cur.wf()
    &&& if stepped {
        cur.below(before)
    } else {
        cur == before
    }
}

proof fn lemma_underway_start(before: Model, room: int)
    requires
        before.wf(),
    ensures
        underway(before, room, before, false),
{
    reveal(underway);
    before.lemma_reaches_self();
    lemma_went_nowhere(before, false, room);
}

proof fn lemma_underway_next(before: Model, room: int, cur: Model, stepped: bool, after: Model)
    requires
        underway(before, room, cur, stepped),
        progress(cur, after, true, false, false),
        went(cur, false, room - (cur.history.len() - before.history.len()), after),
    ensures
        underway(before, room, after, true),
        after.below(cur),
{
    reveal(underway);
    lemma_progress_chain(before, cur, after, stepped, true, false, false);
    lemma_went_chain(before, false, room, cur, after);
}

proof fn lemma_underway_done(
    before: Model,
    room: int,
    after: Model,
    stepped: bool,
    exhausted: bool,
    full: bool,
)
    requires
        underway(before, room, after, stepped),
        !after.goes_on(false, room - (after.history.len() - before.history.len())),
        after.stuck() && after.in_body() ==> exhausted,
        !stepped ==> full || (after.stuck() && exhausted),
    ensures
        progress(before, after, stepped, exhausted, full),
        call_done(before, false, room, after, stepped, exhausted),
{
    reveal(underway);
    lemma_call_over(before, false, room, after, stepped, exhausted);
}

/// What a turn adds to a call: the call is under way to the state after the
/// turn, or it is done.
proof fn lemma_turn(
    turn: Turn,
    before: Model,
    room: int,
    cur: Model,
    stepped: bool,
    lit: Seq<u8>,
    dist: Seq<u8>,
    stream0: BitStream,
    stream1: BitStream,
    window0: &WindowBuffer,
    window1: &WindowBuffer,
)
    requires
        underway(before, room, cur, stepped),
        cur.in_body(),
        cur.history == window0.history(),
        in_step(window0, window1),
        window0.capacity() - window0.position() == room - (cur.history.len() - before.history.len()),
        turn_done(turn, cur, lit, dist, stream0, stream1, window0, window1),
    ensures
        ({
            let after = turn.model(lit, dist, stream1.bits(), window1, cur.final_block);
            let exhausted = stream1.used == stream1.data@.len();
            let full = window1.position() >= window1.capacity();
            match turn {
                Turn::Next(_) => underway(before, room, after, true) && after.below(cur) && after.wf(),
                Turn::Wait => progress(before, cur, stepped, exhausted, full) && call_done(
                    before,
                    false,
                    room,
                    cur,
                    stepped,
                    exhausted,
                ) && stream1.bits() == stream0.bits() && window1.history() == window0.history(),
                _ => progress(before, after, true, exhausted, full) && call_done(
                    before,
                    false,
                    room,
                    after,
                    true,
                    exhausted,
                ),
            }
        }),
{
    reveal(turn_done);
    crate::bits::lemma_empty_wf();
    let after = turn.model(lit, dist, stream1.bits(), window1, cur.final_block);
    let exhausted = stream1.used == stream1.data@.len();
    let full = window1.position() >= window1.capacity();
    let room1 = window1.capacity() - window1.position();
    match turn {
        Turn::Wait => {
            cur.lemma_goes_on(false, room1);
            cur.lemma_stuck();
            lemma_underway_done(before, room, cur, stepped, exhausted, full);
        },
        _ => {
            lemma_underway_next(before, room, cur, stepped, after);
            match turn {
                Turn::Next(_) => {},
                _ => {
                    lemma_body_left(after, room1);
                    lemma_underway_done(before, room, after, true, exhausted, full);
                },
            }
        },
    }
}

/// What a turn adds to the bytes that a call has moved in.
proof fn lemma_turn_count(
    turn: Turn,
    before: Model,
    room: int,
    left0: nat,
    cur: Model,
    lit: Seq<u8>,
    dist: Seq<u8>,
    stream0: BitStream,
    stream1: BitStream,
    window0: &WindowBuffer,
    window1: &WindowBuffer,
)
    requires
        moved_on(before, room, left0, cur, left_of(stream0)),
        cur.in_body(),
        cur.history == window0.history(),
        in_step(window0, window1),
        window0.capacity() - window0.position() == room - (cur.history.len() - before.history.len()),
        turn_done(turn, cur, lit, dist, stream0, stream1, window0, window1),
        cursor_kept(stream0, stream1),
    ensures
        ({
            let after = turn.model(lit, dist, stream1.bits(), window1, cur.final_block);
            match turn {
                Turn::Next(_) => moved_on(before, room, left0, after, left_of(stream1)),
                Turn::Wait => !cur.stuck() ==> before.call_leaves(
                    false,
                    room,
                    cur,
                    left0,
                    left_of(stream1),
                ),
                Turn::Fail(_) => true,
                _ => before.call_leaves(false, room, after, left0, left_of(stream1)),
            }
        }),
{
    reveal(turn_done);
    let after = turn.model(lit, dist, stream1.bits(), window1, cur.final_block);
    let room0 = window0.capacity() - window0.position();
    let room1 = window1.capacity() - window1.position();
    match turn {
        Turn::Wait => {
            if !cur.stuck() {
                lemma_moved_ends(before, room, left0, cur, left_of(stream0), left_of(stream1));
            }
        },
        Turn::Fail(_) => {},
        _ => {
            lemma_moved_chain(before, room, left0, cur, left_of(stream0), after, left_of(stream1));
            match turn {
                Turn::Next(_) => {},
                _ => {
                    lemma_body_left(after, room1);
                    lemma_moved_ends(before, room, left0, after, left_of(stream1), left_of(stream1));
                },
            }
        },
    }
}

/// The state that the symbols of a block are left in by a turn that is not
/// followed by another.
fn close_turn(
    turn: Turn,
    pending: Pending,
    lit: DynHuffman16,
    dist: DynHuffman16,
    stream: &BitStream,
    final_block: bool,
    window: &WindowBuffer,
) -> (r: State)
    requires
        lit.wf(),
        dist.wf(),
        stream.wf(),
        !(turn is Next),
    ensures
        r.wf(),
        r.in_blocks(),
        r.snapshot(stream.rest(), window, final_block) == if turn is Wait {
            machine(pending.phase(lit.lens(), dist.lens()), stream.bits(), window, final_block)
        } else {
            turn.model(lit.lens(), dist.lens(), stream.bits(), window, final_block)
        },
{
    match turn {
        Turn::Next(_) => State::CheckCRC,
        Turn::Wait => State::Bits(pending.with(lit, dist), stream.state),
        Turn::EndOfBlock => {
            if final_block {
                State::CheckCRC
            } else {
                State::Bits(BitsNext::BlockHeader, stream.state)
            }
        },
        Turn::Copy(left, back) => State::LenDist(
            (BitsNext::BlockDyn(lit, dist), stream.state),
            left,
            back,
        ),
        Turn::Fail(e) => State::Failed(e),
    }
}

/// Reads symbols and copies until the block is over, the input runs out, the
/// window is full or the input is found to be malformed.
#[verifier::rlimit(50)]
pub fn run_symbols(
    lit: DynHuffman16,
    dist: DynHuffman16,
    start: Pending,
    stream: &mut BitStream,
    final_block: bool,
    window: &mut WindowBuffer,
) -> (r: (State, bool))
    requires
        lit.wf(),
        dist.wf(),
        old(stream).wf(),
        old(window).wf(),
        machine(start.phase(lit.lens(), dist.lens()), old(stream).bits(), old(window), final_block).wf(),
    ensures
        cursor_kept(*old(stream), *final(stream)),
        in_step(old(window), final(window)),
        r.0.wf(),
        r.0.in_blocks(),
        progress(
            machine(start.phase(lit.lens(), dist.lens()), old(stream).bits(), old(window), final_block),
            r.0.snapshot(final(stream).rest(), final(window), final_block),
            r.1,
            final(stream).used == final(stream).data@.len(),
            final(window).position() >= final(window).capacity(),
        ),
        call_done(
            machine(start.phase(lit.lens(), dist.lens()), old(stream).bits(), old(window), final_block),
            false,
            old(window).capacity() - old(window).position(),
            r.0.snapshot(final(stream).rest(), final(window), final_block),
            r.1,
            final(stream).used == final(stream).data@.len(),
        ),
        call_counted(
            machine(start.phase(lit.lens(), dist.lens()), old(stream).bits(), old(window), final_block),
            false,
            old(window).capacity() - old(window).position(),
            r.0.snapshot(final(stream).rest(), final(window), final_block),
            left_of(*old(stream)),
            (final(stream).used - old(stream).used) as nat,
        ),
{
    let mut pending = start;
    let mut stepped = false;
    let ghost m0 = machine(
        start.phase(lit.lens(), dist.lens()),
        stream.bits(),
        window,
        final_block,
    );
    let ghost room0 = window.capacity() - window.position();
    let ghost mut cur = m0;
    proof {
        lemma_underway_start(m0, room0);
        lemma_moved_nowhere(m0, room0, left_of(*stream));
    }
    loop
        invariant
            lit.wf(),
            dist.wf(),
            stream.wf(),
            cursor_kept(*old(stream), *stream),
            in_step(old(window), window),
            room0 == old(window).capacity() - old(window).position(),
            m0 == machine(
                start.phase(lit.lens(), dist.lens()),
                old(stream).bits(),
                old(window),
                final_block,
            ),
            cur == machine(pending.phase(lit.lens(), dist.lens()), stream.bits(), window, final_block),
            cur.wf(),
            underway(m0, room0, cur, stepped),
            moved_on(m0, room0, left_of(*old(stream)), cur, left_of(*stream)),
        decreases cur.bits.len, cur.rank(),
    {
        let ghost window0 = *window;
        let ghost stream0 = *stream;
        let turn = symbol_turn(&lit, &dist, pending, stream, final_block, window);
        let ghost after = turn.model(lit.lens(), dist.lens(), stream.bits(), window, final_block);
        let ghost exhausted = stream.used == stream.data@.len();
        let ghost full = window.position() >= window.capacity();
        proof {
            lemma_turn(
                turn,
                m0,
                room0,
                cur,
                stepped,
                lit.lens(),
                dist.lens(),
                stream0,
                *stream,
                &window0,
                window,
            );
            lemma_turn_count(
                turn,
                m0,
                room0,
                left_of(*old(stream)),
                cur,
                lit.lens(),
                dist.lens(),
                stream0,
                *stream,
                &window0,
                window,
            );
        }
        match turn {
            Turn::Next(p) => {
                pending = p;
                stepped = true;
                proof {
                    cur = after;
                }
            },
            Turn::Wait => {
                return (close_turn(turn, pending, lit, dist, stream, final_block, window), stepped);
            },
            _ => {
                return (close_turn(turn, pending, lit, dist, stream, final_block, window), true);
            },
        }
    }
}

} // verus!
