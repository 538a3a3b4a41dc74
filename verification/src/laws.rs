//! What holds of the machine whatever the input is cut into: a step that is
//! possible stays possible, with the same result, when more input follows,
//! and so the state in which the machine comes to rest depends on the input
//! as a whole, not on the pieces in which it came.

use vstd::prelude::*;
use vstd::arithmetic::power2::*;
use crate::bits::{lemma_append_first, lemma_append_append, lemma_append_wf, lemma_append_empty};
use crate::huffman::{decode, Decoded, lemma_decode_feed, lemma_decode_len};
use crate::code_length_reader::{meta_step, MetaStep, lemma_meta_step_feed, lemma_meta_step_used};
use crate::tables::{length_extra_bits, dist_extra_bits};
use crate::model::{Model, Phase};

verus! {

/// Feeding in two parts is feeding the whole.
pub proof fn lemma_feed_feed(m: Model, a: Seq<u8>, b: Seq<u8>)
    ensures
        m.feed(a).feed(b) == m.feed(a + b),
{
    lemma_append_append(m.bits, a, b);
}

/// Feeding nothing changes nothing.
pub proof fn lemma_feed_nothing(m: Model)
    ensures
        m.feed(Seq::<u8>::empty()) == m,
{
    lemma_append_empty(m.bits);
}

/// Feeding keeps a state in order.
pub proof fn lemma_feed_wf(m: Model, data: Seq<u8>)
    requires
        m.wf(),
    ensures
        m.feed(data).wf(),
{
    lemma_append_wf(m.bits, data);
}

proof fn lemma_feed_zlib(m: Model, data: Seq<u8>)
    requires
        m.wf(),
        m.phase is ZlibMethodAndFlags || m.phase is ZlibFlags,
        m.step() is Some,
    ensures
        m.feed(data).step() == Some(m.step().unwrap().feed(data)),
{
    lemma_append_first(m.bits, data, 8);
}

proof fn lemma_feed_block_header(m: Model, data: Seq<u8>)
    requires
        m.wf(),
        m.phase is BlockHeader || m.phase is BlockUncompressed || m.phase is BlockFixed,
        m.step() is Some,
    ensures
        m.feed(data).step() == Some(m.step().unwrap().feed(data)),
{
    match m.phase {
        Phase::BlockHeader => {
            lemma_append_first(m.bits, data, 3);
            let rest = m.bits.skip(3);
            let pad = rest.len % 8;
            vstd::arithmetic::div_mod::lemma_mod_decreases(rest.len, 8);
            lemma_append_first(rest, data, pad);
            assert((rest.len + 8 * data.len()) % 8 == pad) by {
                vstd::arithmetic::div_mod::lemma_mod_multiples_vanish(
                    data.len() as int,
                    rest.len as int,
                    8,
                );
            }
        },
        Phase::BlockUncompressed => {
            lemma_append_first(m.bits, data, 16);
        },
        _ => {},
    }
}

proof fn lemma_feed_dyn_header(m: Model, data: Seq<u8>)
    requires
        m.wf(),
        m.phase is BlockDynHlit || m.phase is BlockDynHdist || m.phase is BlockDynHclen
            || m.phase is BlockDynClenCodeLengths,
        m.step() is Some,
    ensures
        m.feed(data).step() == Some(m.step().unwrap().feed(data)),
{
    match m.phase {
        Phase::BlockDynHlit => {
            lemma_append_first(m.bits, data, 5);
            assert(m.step() == m.step_dyn_header());
        },
        Phase::BlockDynHdist { .. } => {
            lemma_append_first(m.bits, data, 5);
            assert(m.step() == m.step_dyn_header());
        },
        Phase::BlockDynHclen { .. } => {
            lemma_append_first(m.bits, data, 4);
            assert(m.step() == m.step_dyn_header());
        },
        Phase::BlockDynClenCodeLengths { .. } => {
            lemma_append_first(m.bits, data, 3);
            assert(m.step() == m.step_dyn_header());
        },
        _ => {},
    }
}

proof fn lemma_feed_code_lengths(m: Model, data: Seq<u8>)
    requires
        m.wf(),
        m.phase is BlockDynCodeLengths,
        m.step() is Some,
    ensures
        m.feed(data).step() == Some(m.step().unwrap().feed(data)),
{
    let clens = m.phase->BlockDynCodeLengths_clens;
    let result = m.phase->BlockDynCodeLengths_result;
    let total = m.phase->BlockDynCodeLengths_num_lit + m.phase->BlockDynCodeLengths_num_dist;
    lemma_meta_step_feed(clens, total, result, m.bits, data);
    lemma_meta_step_used(clens, total, result, m.bits);
    match meta_step(clens, total, result, m.bits) {
        MetaStep::Emit { result: r2, used } => {
            lemma_append_first(m.bits, data, used);
        },
        _ => {},
    }
}

proof fn lemma_feed_symbol(m: Model, data: Seq<u8>)
    requires
        m.wf(),
        m.phase is BlockDyn,
        m.step() is Some,
    ensures
        m.feed(data).step() == Some(m.step().unwrap().feed(data)),
{
    let lit = m.phase->BlockDyn_lit;
    lemma_decode_feed(lit, m.bits, data);
    lemma_decode_len(lit, m.bits);
    match decode(lit, m.bits) {
        Decoded::Symbol { sym, len } => {
            lemma_append_first(m.bits, data, len);
        },
        _ => {},
    }
}

proof fn lemma_feed_len_dist(m: Model, data: Seq<u8>)
    requires
        m.wf(),
        m.phase is BlockDynLength || m.phase is BlockDynDistance || m.phase is BlockDynDistanceExtra
            || m.phase is LenDist,
        m.step() is Some,
    ensures
        m.feed(data).step() == Some(m.step().unwrap().feed(data)),
{
    match m.phase {
        Phase::BlockDynLength { lit, dist, sym } => {
            lemma_append_first(m.bits, data, length_extra_bits(sym));
        },
        Phase::BlockDynDistance { lit, dist, len } => {
            lemma_decode_feed(dist, m.bits, data);
            lemma_decode_len(dist, m.bits);
            match decode(dist, m.bits) {
                Decoded::Symbol { sym, len: l } => {
                    lemma_append_first(m.bits, data, l);
                },
                _ => {},
            }
        },
        Phase::BlockDynDistanceExtra { lit, dist, len, sym } => {
            lemma_append_first(m.bits, data, dist_extra_bits(sym));
        },
        _ => {},
    }
}

/// A step that is possible stays possible when more input follows, and
/// leads to the same state, with that input behind it.
pub proof fn lemma_step_feed(m: Model, data: Seq<u8>)
    requires
        m.wf(),
        m.step() is Some,
    ensures
        m.feed(data).step() == Some(m.step().unwrap().feed(data)),
{
    match m.phase {
        Phase::ZlibMethodAndFlags => lemma_feed_zlib(m, data),
        Phase::ZlibFlags { .. } => lemma_feed_zlib(m, data),
        Phase::BlockHeader => lemma_feed_block_header(m, data),
        Phase::BlockUncompressed => lemma_feed_block_header(m, data),
        Phase::BlockFixed => lemma_feed_block_header(m, data),
        Phase::BlockDynHlit => lemma_feed_dyn_header(m, data),
        Phase::BlockDynHdist { .. } => lemma_feed_dyn_header(m, data),
        Phase::BlockDynHclen { .. } => lemma_feed_dyn_header(m, data),
        Phase::BlockDynClenCodeLengths { .. } => lemma_feed_dyn_header(m, data),
        Phase::BlockDynCodeLengths { .. } => lemma_feed_code_lengths(m, data),
        Phase::BlockDyn { .. } => lemma_feed_symbol(m, data),
        Phase::BlockDynLength { .. } => lemma_feed_len_dist(m, data),
        Phase::BlockDynDistance { .. } => lemma_feed_len_dist(m, data),
        Phase::BlockDynDistanceExtra { .. } => lemma_feed_len_dist(m, data),
        Phase::LenDist { .. } => lemma_feed_len_dist(m, data),
        Phase::CheckCRC => {},
        Phase::Failed(_) => {},
    }
}

/// The steps that the machine takes on some input it takes as well when
/// more input follows.
pub proof fn lemma_run_feed(m: Model, data: Seq<u8>, n: nat) -> (k: nat)
    requires
        m.wf(),
    ensures
        m.feed(data).run(k) == m.run(n).feed(data),
    decreases n,
{
    if n == 0 {
        0
    } else {
        match m.step() {
            Some(next) => {
                lemma_step_feed(m, data);
                m.lemma_step_wf();
                let k1 = lemma_run_feed(next, data, (n - 1) as nat);
                k1 + 1
            },
            None => 0,
        }
    }
}

/// What the machine reaches on some input it reaches as well when more
/// input follows.
pub proof fn lemma_reaches_feed(m: Model, other: Model, data: Seq<u8>)
    requires
        m.wf(),
        m.reaches(other),
    ensures
        m.feed(data).reaches(other.feed(data)),
{
    reveal(Model::reaches);
    let n = choose|n: nat| m.run(n) == other;
    let k = lemma_run_feed(m, data, n);
}

/// The machine comes to rest in one state only: two states that it reaches
/// and in which no step is possible are the same.
pub proof fn lemma_rest_unique(m: Model, x: Model, y: Model)
    requires
        m.reaches(x),
        m.reaches(y),
        x.stuck(),
        y.stuck(),
    ensures
        x == y,
{
    reveal(Model::reaches);
    reveal(Model::stuck);
    let a = choose|n: nat| m.run(n) == x;
    let b = choose|n: nat| m.run(n) == y;
    if a <= b {
        m.lemma_run_add(a, (b - a) as nat);
        assert(x.run((b - a) as nat) == x);
    } else {
        m.lemma_run_add(b, (a - b) as nat);
        assert(y.run((a - b) as nat) == y);
    }
}

/// A machine in which no step is possible reaches no other state: as long
/// as no input is added, nothing changes and nothing is written.
pub proof fn lemma_rest_stays(m: Model, x: Model)
    requires
        m.stuck(),
        m.reaches(x),
    ensures
        x == m,
{
    reveal(Model::reaches);
    reveal(Model::stuck);
    let a = choose|n: nat| m.run(n) == x;
    assert(m.run(a) == m);
}

/// The result does not depend on how the input is cut into pieces.
///
/// Let the machine be fed `first`, run to any state `mid`, then be fed
/// `second` and run until no step is possible. It then is in the state, and
/// has written the output, that it comes to when it is fed `first` and
/// `second` in one piece and runs until no step is possible.
pub proof fn lemma_chunk_invariance(
    m: Model,
    first: Seq<u8>,
    second: Seq<u8>,
    mid: Model,
    in_pieces: Model,
    at_once: Model,
)
    requires
        m.wf(),
        m.feed(first).reaches(mid),
        mid.feed(second).reaches(in_pieces),
        in_pieces.stuck(),
        m.feed(first + second).reaches(at_once),
        at_once.stuck(),
    ensures
        in_pieces == at_once,
        in_pieces.history == at_once.history,
{
    lemma_feed_wf(m, first);
    lemma_reaches_feed(m.feed(first), mid, second);
    lemma_feed_feed(m, first, second);
    m.feed(first + second).lemma_reaches_trans(mid.feed(second), in_pieces);
    lemma_rest_unique(m.feed(first + second), in_pieces, at_once);
}


/// What a call of the decompressor makes of its machine where it succeeds:
/// fed `data`, the machine `before` has taken steps, `n` bytes of `data` were
/// taken in, and `after` is left.
pub open spec fn update_call(before: Model, data: Seq<u8>, n: nat, after: Model) -> bool {
    &&& n <= data.len()
    &&& after.wf()
    &&& before.feed(data).reaches(after.feed(data.skip(n as int)))
}

/// A piece of input is fed through by calls, each of which gets what the
/// call before it has left of the piece: `calls` holds, for each call, the
/// number of bytes that it took in and the machine that it left. The last
/// call has taken in what was left and leaves the machine `end`, from which
/// no step is possible.
pub open spec fn fed_through(before: Model, data: Seq<u8>, calls: Seq<(nat, Model)>, end: Model) -> bool
    decreases calls.len(),
{
    if calls.len() == 0 {
        false
    } else {
        let n = calls[0].0;
        let after = calls[0].1;
        &&& update_call(before, data, n, after)
        &&& if calls.len() == 1 {
            n == data.len() && after.stuck() && end == after
        } else {
            fed_through(after, data.skip(n as int), calls.skip(1), end)
        }
    }
}

/// Calls that feed a piece of input through take the machine to the state
/// in which it comes to rest on that input.
pub proof fn lemma_fed_through(before: Model, data: Seq<u8>, calls: Seq<(nat, Model)>, end: Model)
    requires
        before.wf(),
        fed_through(before, data, calls, end),
    ensures
        before.feed(data).reaches(end),
        end.stuck(),
        end.wf(),
    decreases calls.len(),
{
    let n = calls[0].0;
    let after = calls[0].1;
    if calls.len() == 1 {
        assert(data.skip(n as int) =~= Seq::<u8>::empty());
        lemma_feed_nothing(after);
    } else {
        lemma_fed_through(after, data.skip(n as int), calls.skip(1), end);
        before.feed(data).lemma_reaches_trans(after.feed(data.skip(n as int)), end);
    }
}

/// The result of the calls does not depend on how the input is cut into
/// pieces, nor on how many calls it takes to feed a piece through.
///
/// Let `first` be fed through by some calls, and then `second`. The machine
/// then is in the state, and has written the output, that calls leave which
/// feed through `first` and `second` in one piece.
pub proof fn lemma_calls_in_pieces(
    m: Model,
    first: Seq<u8>,
    second: Seq<u8>,
    calls_first: Seq<(nat, Model)>,
    mid: Model,
    calls_second: Seq<(nat, Model)>,
    in_pieces: Model,
    calls_whole: Seq<(nat, Model)>,
    at_once: Model,
)
    requires
        m.wf(),
        fed_through(m, first, calls_first, mid),
        fed_through(mid, second, calls_second, in_pieces),
        fed_through(m, first + second, calls_whole, at_once),
    ensures
        in_pieces == at_once,
        in_pieces.history == at_once.history,
{
    lemma_fed_through(m, first, calls_first, mid);
    lemma_fed_through(mid, second, calls_second, in_pieces);
    lemma_fed_through(m, first + second, calls_whole, at_once);
    lemma_chunk_invariance(m, first, second, mid, in_pieces, at_once);
}

/// The mark of the last block is set only within that block: before the
/// header of a block, and within the zlib header, it is not set.
pub open spec fn orderly(m: Model) -> bool {
    (m.phase is BlockHeader || m.phase is ZlibMethodAndFlags || m.phase is ZlibFlags)
        ==> !m.final_block
}

/// A step keeps the mark of the last block in order, and does not find data
/// after the last block.
pub proof fn lemma_step_orderly(m: Model)
    requires
        orderly(m),
        !(m.phase matches Phase::Failed(e) && e == crate::error::InflateError::DataAfterFinalBlock),
        m.step() is Some,
    ensures
        orderly(m.step().unwrap()),
        !(m.step().unwrap().phase matches Phase::Failed(e) && e
            == crate::error::InflateError::DataAfterFinalBlock),
{
    match m.phase {
        Phase::BlockDynCodeLengths { clens, result, num_lit, num_dist } => {
            assert(m.step() == m.step_code_lengths());
        },
        Phase::BlockDyn { lit, dist } => {
            assert(m.step() == m.step_symbol(lit, dist));
        },
        _ => {},
    }
}

/// As `lemma_step_orderly`, for any number of steps.
pub proof fn lemma_run_orderly(m: Model, n: nat)
    requires
        orderly(m),
        !(m.phase matches Phase::Failed(e) && e == crate::error::InflateError::DataAfterFinalBlock),
    ensures
        orderly(m.run(n)),
        !(m.run(n).phase matches Phase::Failed(e) && e
            == crate::error::InflateError::DataAfterFinalBlock),
    decreases n,
{
    if n > 0 {
        match m.step() {
            Some(next) => {
                lemma_step_orderly(m);
                lemma_run_orderly(next, (n - 1) as nat);
            },
            None => {},
        }
    }
}

/// A stream that is fed from its start on never fails for data after the
/// last block: once the last block is over, the machine has come to its end
/// and looks at nothing that follows.
pub proof fn lemma_no_data_after_final(m: Model, data: Seq<u8>, other: Model)
    requires
        orderly(m),
        !(m.phase is Failed),
        m.feed(data).reaches(other),
    ensures
        other.phase != Phase::Failed(crate::error::InflateError::DataAfterFinalBlock),
        orderly(other),
{
    reveal(Model::reaches);
    let n = choose|n: nat| m.feed(data).run(n) == other;
    lemma_run_orderly(m.feed(data), n);
}

} // verus!
