//! The reader for the code lengths of a dynamic block. The lengths of the
//! literal/length and distance codes are themselves sent with a Huffman code
//! over nineteen symbols: a length from 0 to 15, or one of three commands
//! that repeat a length.

use vstd::prelude::*;
use vstd::arithmetic::power2::*;
use crate::arith::{lemma_mod_pow2_twice, lemma_pow2_monotone};
use crate::bits::{BitSeq, BitStream, bytes_moved, left_of, lemma_skip_skip};
use crate::codes::{code_of, sym_matches, lengths_valid, canonical_codes, pow2_u32, lemma_match_unique};
use crate::reverse::reverse8;
use crate::huffman::{DynHuffman16, fill_stride, lemma_short_pattern, matches_within};
use crate::error::InflateError;

verus! {

/// What the next symbol of the code length alphabet does.
pub enum MetaStep {
    /// The input ends before the symbol and its extra bits.
    Suspend,
    /// The input is malformed.
    Fail(InflateError),
    /// The lengths read so far become `result`; `used` bits are removed.
    Emit { result: Seq<u8>, used: nat },
}

/// `n` times the length `x`.
pub open spec fn repeat(x: u8, n: nat) -> Seq<u8> {
    Seq::new(n, |i: int| x)
}

/// Some symbol of the code `clens` stands at the front of `bits`, all of it.
pub open spec fn meta_has_match(clens: Seq<u8>, bits: BitSeq) -> bool {
    exists|s: int| matches_within(clens, s, bits)
}

/// The symbol of the code `clens` that stands at the front of `bits`.
pub open spec fn meta_match(clens: Seq<u8>, bits: BitSeq) -> int {
    choose|s: int| matches_within(clens, s, bits)
}

/// `n` more lengths `x`, unless that is more than the `total` asked for.
pub open spec fn emit_repeat(result: Seq<u8>, total: nat, x: u8, n: nat, used: nat) -> MetaStep {
    if result.len() + n > total {
        MetaStep::Fail(InflateError::LengthsOverrun)
    } else {
        MetaStep::Emit { result: result + repeat(x, n), used }
    }
}

/// One symbol of the code length alphabet, read from `bits` with the lengths
/// `result` before it, `total` being asked for. A symbol up to 15 is a
/// length. Symbol 16 repeats the last length three to six times, 17 gives
/// three to ten zeros, 18 gives eleven to 138 zeros; how often is said by
/// two, three or seven bits behind the symbol. The step waits as long as the
/// symbol or its extra bits are not all there. Seven bits that are the code
/// of no symbol are malformed input, and so is a repeat that gives more
/// lengths than are asked for.
pub open spec fn meta_step(clens: Seq<u8>, total: nat, result: Seq<u8>, bits: BitSeq) -> MetaStep {
    if !meta_has_match(clens, bits) {
        if bits.len >= 7 {
            MetaStep::Fail(InflateError::BadCode)
        } else {
            MetaStep::Suspend
        }
    } else {
        let s = meta_match(clens, bits);
        let l = clens[s] as nat;
        let after = bits.skip(l);
        if s <= 15 {
            MetaStep::Emit { result: result.push(s as u8), used: l }
        } else if s == 16 {
            if result.len() == 0 {
                MetaStep::Fail(InflateError::NoPreviousLength)
            } else if after.len < 2 {
                MetaStep::Suspend
            } else {
                emit_repeat(result, total, result.last(), 3 + after.first(2), l + 2)
            }
        } else if s == 17 {
            if after.len < 3 {
                MetaStep::Suspend
            } else {
                emit_repeat(result, total, 0, 3 + after.first(3), l + 3)
            }
        } else {
            if after.len < 7 {
                MetaStep::Suspend
            } else {
                emit_repeat(result, total, 0, 11 + after.first(7), l + 7)
            }
        }
    }
}

/// A step that gives lengths takes at least one bit, and no more than there
/// are; it gives at least one length, and no more than are asked for.
pub proof fn lemma_meta_step_used(clens: Seq<u8>, total: nat, result: Seq<u8>, bits: BitSeq)
    requires
        lengths_valid(clens, 7),
        result.len() < total,
    ensures
        meta_step(clens, total, result, bits) matches MetaStep::Emit { result: r2, used } ==> 1
            <= used <= bits.len && result.len() < r2.len() <= total,
{
    lemma2_to64();
    if meta_has_match(clens, bits) {
        let s = meta_match(clens, bits);
        let l = clens[s] as nat;
        let after = bits.skip(l);
        vstd::arithmetic::div_mod::lemma_mod_bound(after.value as int, 4);
        vstd::arithmetic::div_mod::lemma_mod_bound(after.value as int, 8);
        vstd::arithmetic::div_mod::lemma_mod_bound(after.value as int, 128);
    }
}

/// More input behind the bits does not change a step that was possible.
pub proof fn lemma_meta_step_feed(
    clens: Seq<u8>,
    total: nat,
    result: Seq<u8>,
    bits: BitSeq,
    data: Seq<u8>,
)
    requires
        lengths_valid(clens, 7),
    ensures
        !(meta_step(clens, total, result, bits) is Suspend) ==> meta_step(
            clens,
            total,
            result,
            bits.append(data),
        ) == meta_step(clens, total, result, bits),
{
    lemma2_to64();
    let more = bits.append(data);
    assert forall|s: int| 0 <= s < clens.len() && clens[s] as nat <= bits.len implies sym_matches(
        clens,
        s,
        more.value,
    ) == sym_matches(clens, s, bits.value) by {
        crate::bits::lemma_append_first(bits, data, clens[s] as nat);
    }
    if meta_has_match(clens, bits) {
        let s = meta_match(clens, bits);
        assert(matches_within(clens, s, more));
        let s2 = meta_match(clens, more);
        lemma_match_unique(clens, 7, s2, s, more.value);
        let l = clens[s] as nat;
        let after = bits.skip(l);
        crate::bits::lemma_append_first(bits, data, l);
        if after.len >= 2 {
            crate::bits::lemma_append_first(after, data, 2);
        }
        if after.len >= 3 {
            crate::bits::lemma_append_first(after, data, 3);
        }
        if after.len >= 7 {
            crate::bits::lemma_append_first(after, data, 7);
        }
    } else if bits.len >= 7 {
        assert forall|s: int| !matches_within(clens, s, more) by {
            if matches_within(clens, s, more) {
                assert(matches_within(clens, s, bits));
            }
        }
    }
}

/// How many bits more a symbol of the code length alphabet has behind its
/// code.
pub open spec fn meta_extra(s: int) -> nat {
    if s == 16 {
        2
    } else if s == 17 {
        3
    } else if s == 18 {
        7
    } else {
        0
    }
}

/// How many bytes the cursor moves in to read the next symbol, with
/// `pending` bits in its register and `left` bytes of input: it asks for 7
/// bits, and behind the code for the bits more that the symbol has.
pub open spec fn meta_pull(clens: Seq<u8>, bits: BitSeq, pending: nat, left: nat) -> nat {
    let first = bytes_moved(pending, 7, left);
    let s = meta_match(clens, bits);
    first + bytes_moved(
        (pending + 8 * first - clens[s]) as nat,
        meta_extra(s),
        (left - first) as nat,
    )
}

/// How many of `left` bytes are still outside the register after at most `k`
/// symbols.
pub open spec fn meta_left(
    clens: Seq<u8>,
    total: nat,
    result: Seq<u8>,
    bits: BitSeq,
    k: nat,
    left: nat,
) -> nat
    decreases k,
{
    if k == 0 || result.len() >= total {
        left
    } else {
        match meta_step(clens, total, result, bits) {
            MetaStep::Emit { result: r2, used } => meta_left(
                clens,
                total,
                r2,
                bits.skip(used),
                (k - 1) as nat,
                (left - meta_pull(clens, bits, (bits.len - 8 * left) as nat, left)) as nat,
            ),
            _ => left,
        }
    }
}

/// The lengths and the bits after at most `k` symbols, reading on only while
/// fewer than `total` lengths are there.
pub open spec fn meta_iter(clens: Seq<u8>, total: nat, result: Seq<u8>, bits: BitSeq, k: nat) -> (
    Seq<u8>,
    BitSeq,
)
    decreases k,
{
    if k == 0 || result.len() >= total {
        (result, bits)
    } else {
        match meta_step(clens, total, result, bits) {
            MetaStep::Emit { result: r2, used } => meta_iter(
                clens,
                total,
                r2,
                bits.skip(used),
                (k - 1) as nat,
            ),
            _ => (result, bits),
        }
    }
}

/// What reading code lengths comes to: `k` symbols were read, which gave
/// the lengths `result`. The reader then has all lengths; or it waits for
/// the next symbol, with the bits `bits` left;
/// or the next symbol is malformed.
pub open spec fn read_to(
    clens: Seq<u8>,
    total: nat,
    result0: Seq<u8>,
    bits0: BitSeq,
    k: nat,
    result: Seq<u8>,
    bits: BitSeq,
    r: Result<bool, InflateError>,
    left0: nat,
    left1: nat,
) -> bool {
    let end = meta_iter(clens, total, result0, bits0, k);
    &&& end.0 == result
    &&& match r {
        Ok(done) => {
            &&& end.1 == bits
            &&& done == (result.len() >= total)
            &&& done ==> meta_left(clens, total, result0, bits0, k, left0) == left1
            &&& !done ==> meta_step(clens, total, result, bits) == MetaStep::Suspend
        },
        Err(e) => result.len() < total && meta_step(clens, total, result, end.1) == MetaStep::Fail(e),
    }
}

/// Reading `k` symbols and then one more is reading `k + 1`.
pub proof fn lemma_meta_iter_step(
    clens: Seq<u8>,
    total: nat,
    result: Seq<u8>,
    bits: BitSeq,
    k: nat,
)
    ensures
        ({
            let mid = meta_iter(clens, total, result, bits, k);
            meta_iter(clens, total, result, bits, k + 1) == meta_iter(clens, total, mid.0, mid.1, 1)
        }),
    decreases k,
{
    if k == 0 || result.len() >= total {
        reveal_with_fuel(meta_iter, 2);
    } else {
        match meta_step(clens, total, result, bits) {
            MetaStep::Emit { result: r2, used } => {
                lemma_meta_iter_step(clens, total, r2, bits.skip(used), (k - 1) as nat);
            },
            _ => {
                reveal_with_fuel(meta_iter, 2);
            },
        }
    }
}

/// The bytes outside after `k` symbols and then one more.
pub proof fn lemma_meta_left_step(
    clens: Seq<u8>,
    total: nat,
    result: Seq<u8>,
    bits: BitSeq,
    k: nat,
    left: nat,
)
    ensures
        ({
            let mid = meta_iter(clens, total, result, bits, k);
            meta_left(clens, total, result, bits, k + 1, left) == meta_left(
                clens,
                total,
                mid.0,
                mid.1,
                1,
                meta_left(clens, total, result, bits, k, left),
            )
        }),
    decreases k,
{
    if k == 0 || result.len() >= total {
        reveal_with_fuel(meta_iter, 2);
        reveal_with_fuel(meta_left, 2);
    } else {
        match meta_step(clens, total, result, bits) {
            MetaStep::Emit { result: r2, used } => {
                lemma_meta_left_step(
                    clens,
                    total,
                    r2,
                    bits.skip(used),
                    (k - 1) as nat,
                    (left - meta_pull(clens, bits, (bits.len - 8 * left) as nat, left)) as nat,
                );
            },
            _ => {
                reveal_with_fuel(meta_iter, 2);
                reveal_with_fuel(meta_left, 2);
            },
        }
    }
}

/// An entry of the table says which symbol matches its index.
pub open spec fn meta_entry_ok(clens: Seq<u8>, i: int, p: int, e: u8) -> bool {
    let pn = p as nat;
    if e == 0xff {
        forall|s: int| 0 <= s < i ==> !sym_matches(clens, s, pn)
    } else {
        e < i && sym_matches(clens, e as int, pn)
    }
}

/// The table holds the codes of the first `i` symbols.
pub open spec fn meta_table_ok(clens: Seq<u8>, i: int, patterns: Seq<u8>) -> bool {
    &&& patterns.len() == 128
    &&& forall|p: int| 0 <= p < 128 ==> meta_entry_ok(clens, i, p, #[trigger] patterns[p])
}

/// A symbol without a code changes nothing.
proof fn lemma_meta_skip(clens: Seq<u8>, i: int, patterns: Seq<u8>)
    requires
        meta_table_ok(clens, i, patterns),
        clens[i] == 0,
    ensures
        meta_table_ok(clens, i + 1, patterns),
{
    assert forall|p: int| 0 <= p < 128 implies meta_entry_ok(clens, i + 1, p, #[trigger] patterns[p]) by {
        assert(meta_entry_ok(clens, i, p, patterns[p]));
    }
}

/// Enters the code of symbol `i` in the table.
fn insert_meta(patterns: &mut Vec<u8>, i: usize, code: u16, bits: u8, Ghost(clens): Ghost<Seq<u8>>)
    requires
        lengths_valid(clens, 7),
        i < 19,
        clens.len() == 19,
        clens[i as int] == bits,
        bits != 0,
        code as nat == code_of(clens, i as int),
        meta_table_ok(clens, i as int, old(patterns)@),
    ensures
        meta_table_ok(clens, i + 1, final(patterns)@),
{
    proof {
        lemma_short_pattern(clens, 7, i as int, code as nat, bits as nat);
        lemma2_to64();
        lemma_pow2_monotone((8 - bits) as nat, 8);
        lemma_pow2_monotone(bits as nat, 7);
    }
    let shifted: u32 = (code as u32) * pow2_u32((8 - bits) as u32);
    let base = reverse8(shifted as u8);
    let step = pow2_u32(bits as u32) as usize;
    fill_stride(patterns, base as usize, step, i as u8);
    proof {
        assert forall|p: int| 0 <= p < 128 implies meta_entry_ok(
            clens,
            i + 1,
            p,
            #[trigger] patterns@[p],
        ) by {
            assert(meta_entry_ok(clens, i as int, p, old(patterns)@[p]));
        }
    }
}

/// One more symbol read after `k` gives the state after `k + 1`.
proof fn lemma_meta_iter_extend(
    clens: Seq<u8>,
    total: nat,
    result0: Seq<u8>,
    bits0: BitSeq,
    k: nat,
    r1: Seq<u8>,
    b1: BitSeq,
    r2: Seq<u8>,
    used: nat,
    left0: nat,
    left1: nat,
)
    requires
        meta_iter(clens, total, result0, bits0, k) == (r1, b1),
        meta_left(clens, total, result0, bits0, k, left0) == left1,
        r1.len() < total,
        meta_step(clens, total, r1, b1) == (MetaStep::Emit { result: r2, used }),
    ensures
        meta_iter(clens, total, result0, bits0, k + 1) == (r2, b1.skip(used)),
        meta_left(clens, total, result0, bits0, k + 1, left0) == (left1 - meta_pull(
            clens,
            b1,
            (b1.len - 8 * left1) as nat,
            left1,
        )) as nat,
{
    lemma_meta_iter_step(clens, total, result0, bits0, k);
    lemma_meta_left_step(clens, total, result0, bits0, k, left0);
    reveal_with_fuel(meta_iter, 2);
    reveal_with_fuel(meta_left, 2);
}

/// Reads the code lengths of a dynamic block, over several calls if need be.
pub struct CodeLengthReader {
    patterns: Vec<u8>,
    clens: [u8; 19],
    result: Vec<u8>,
    num_lit: u16,
    num_dist: u8,
}

impl CodeLengthReader {
    /// The lengths of the nineteen codes that the lengths are sent with.
    pub closed spec fn clens(&self) -> Seq<u8> {
        self.clens@
    }

    /// The lengths read so far.
    pub closed spec fn result(&self) -> Seq<u8> {
        self.result@
    }

    /// How many of the lengths belong to the literal/length code.
    pub closed spec fn num_lit(&self) -> nat {
        self.num_lit as nat
    }

    /// How many of the lengths belong to the distance code.
    pub closed spec fn num_dist(&self) -> nat {
        self.num_dist as nat
    }

    /// How many lengths are to be read.
    pub open spec fn total(&self) -> nat {
        self.num_lit() + self.num_dist()
    }

    pub closed spec fn wf(&self) -> bool {
        &&& lengths_valid(self.clens@, 7)
        &&& meta_table_ok(self.clens@, 19, self.patterns@)
        &&& self.num_lit < 2048
        &&& self.result@.len() <= self.num_lit + self.num_dist
    }

    /// What `wf` says of the sizes.
    pub proof fn lemma_wf(&self)
        requires
            self.wf(),
        ensures
            lengths_valid(self.clens(), 7),
            self.clens().len() == 19,
            self.num_lit() < 2048,
            self.num_dist() < 256,
            self.result().len() <= self.total(),
    {
    }

    /// Builds the reader for the given nineteen code lengths. Fails where
    /// they are the lengths of no prefix code.
    pub fn new(clens: [u8; 19], num_lit: u16, num_dist: u8) -> (r: Result<
        CodeLengthReader,
        InflateError,
    >)
        requires
            num_lit < 2048,
        ensures
            match r {
                Ok(reader) => {
                    &&& reader.wf()
                    &&& reader.clens() == clens@
                    &&& reader.result() == Seq::<u8>::empty()
                    &&& reader.num_lit() == num_lit
                    &&& reader.num_dist() == num_dist
                    &&& lengths_valid(clens@, 7)
                },
                Err(e) => e == InflateError::BadCodeLengths && !lengths_valid(clens@, 7),
            },
    {
        let codes = match canonical_codes(vstd::array::array_as_slice(&clens), 7) {
            Some(codes) => codes,
            None => {
                return Err(InflateError::BadCodeLengths);
            },
        };
        // Fill in the 7-bit patterns that match each code.
        let mut patterns: Vec<u8> = vec![0xffu8; 128];
        let mut i: usize = 0;
        while i < 19
            invariant
                i <= 19,
                lengths_valid(clens@, 7),
                codes@.len() == 19,
                forall|j: int|
                    0 <= j < 19 ==> codes@[j] as nat == if clens@[j] == 0 {
                        0
                    } else {
                        code_of(clens@, j)
                    },
                meta_table_ok(clens@, i as int, patterns@),
            decreases 19 - i,
        {
            let bits = clens[i];
            if bits != 0 {
                insert_meta(&mut patterns, i, codes[i], bits, Ghost(clens@));
            } else {
                proof {
                    lemma_meta_skip(clens@, i as int, patterns@);
                }
            }
            i = i + 1;
        }
        Ok(CodeLengthReader { patterns, clens, result: Vec::new(), num_lit, num_dist })
    }

    /// What the table says of the symbol at the front of the bits.
    proof fn lemma_lookup(&self, bits: BitSeq, e: u8)
        requires
            self.wf(),
            e == self.patterns@[(bits.value % 128) as int],
        ensures
            e == 0xff ==> !meta_has_match(self.clens@, bits),
            e != 0xff ==> e < 19 && 1 <= self.clens@[e as int] <= 7,
            e != 0xff && self.clens@[e as int] as nat <= bits.len ==> meta_has_match(self.clens@, bits)
                && meta_match(self.clens@, bits) == e,
            e != 0xff && self.clens@[e as int] as nat > bits.len ==> !meta_has_match(self.clens@, bits),
    {
        lemma2_to64();
        let clens = self.clens@;
        let value = bits.value;
        let pn = value % 128;
        let p = pn as int;
        assert(p as nat == pn);
        assert(meta_entry_ok(clens, 19, p, self.patterns@[p]));
        assert forall|s: int| 0 <= s < 19 && clens[s] > 0 implies sym_matches(clens, s, value)
            == sym_matches(clens, s, pn) by {
            let l = clens[s] as nat;
            assert(l + (7 - l) as nat == 7);
            lemma_mod_pow2_twice(value, l, (7 - l) as nat);
        }
        if e == 0xff {
            assert forall|s: int| !matches_within(clens, s, bits) by {
                if 0 <= s < 19 {
                    assert(!sym_matches(clens, s, pn));
                }
            }
        } else {
            assert(sym_matches(clens, e as int, value));
            assert forall|s: int| matches_within(clens, s, bits) implies s == e by {
                lemma_match_unique(clens, 7, s, e as int, value);
            }
            if clens[e as int] as nat <= bits.len {
                assert(matches_within(clens, e as int, bits));
            }
        }
    }

    /// Appends `n` times the length `x`, unless that gives more lengths than
    /// are asked for.
    fn finish_repeat(&mut self, x: u8, n: u8) -> (r: bool)
        requires
            old(self).wf(),
        ensures
            final(self).wf(),
            final(self).patterns == old(self).patterns,
            final(self).clens == old(self).clens,
            final(self).num_lit == old(self).num_lit,
            final(self).num_dist == old(self).num_dist,
            r == (old(self).result@.len() + n <= old(self).total()),
            r ==> final(self).result@ == old(self).result@ + repeat(x, n as nat),
            !r ==> final(self).result@ == old(self).result@,
    {
        let total_len = self.num_lit as usize + self.num_dist as usize;
        if self.result.len() + n as usize > total_len {
            false
        } else {
            self.push_repeat(x, n);
            true
        }
    }

    /// Appends `x` to the lengths, `n` times.
    fn push_repeat(&mut self, x: u8, n: u8)
        requires
            old(self).result@.len() + n < 0x1_0000,
        ensures
            final(self).result@ == old(self).result@ + repeat(x, n as nat),
            final(self).patterns == old(self).patterns,
            final(self).clens == old(self).clens,
            final(self).num_lit == old(self).num_lit,
            final(self).num_dist == old(self).num_dist,
    {
        let mut j: u8 = 0;
        while j < n
            invariant
                j <= n,
                self.result@ == old(self).result@ + repeat(x, j as nat),
                self.patterns == old(self).patterns,
                self.clens == old(self).clens,
                self.num_lit == old(self).num_lit,
                self.num_dist == old(self).num_dist,
            decreases n - j,
        {
            self.result.push(x);
            j = j + 1;
            assert(self.result@ =~= old(self).result@ + repeat(x, j as nat));
        }
        assert(self.result@ =~= old(self).result@ + repeat(x, n as nat));
    }

    /// Reads one symbol with its extra bits, if the input holds all of it.
    /// Tells whether it did.
    pub fn step(&mut self, stream: &mut BitStream) -> (r: Result<bool, InflateError>)
        requires
            old(self).wf(),
            old(self).result().len() < old(self).total(),
            old(stream).wf(),
        ensures
            final(self).wf(),
            final(self).clens() == old(self).clens(),
            final(self).num_lit() == old(self).num_lit(),
            final(self).num_dist() == old(self).num_dist(),
            final(stream).wf(),
            final(stream).data@ == old(stream).data@,
            final(stream).used >= old(stream).used,
            match meta_step(old(self).clens(), old(self).total(), old(self).result(), old(stream).bits()) {
                MetaStep::Emit { result, used } => {
                    &&& r == Ok::<bool, InflateError>(true)
                    &&& final(self).result() == result
                    &&& final(stream).bits() == old(stream).bits().skip(used)
                    &&& used <= old(stream).bits().len
                    &&& 1 <= used <= 14
                    &&& final(stream).used - old(stream).used == meta_pull(
                        old(self).clens(),
                        old(stream).bits(),
                        old(stream).state.n as nat,
                        left_of(*old(stream)),
                    )
                },
                MetaStep::Suspend => {
                    &&& r == Ok::<bool, InflateError>(false)
                    &&& final(self).result() == old(self).result()
                    &&& final(stream).bits() == old(stream).bits()
                    &&& final(stream).used == final(stream).data@.len()
                },
                MetaStep::Fail(e) => {
                    &&& r == Err::<bool, InflateError>(e)
                    &&& final(self).result() == old(self).result()
                },
            },
    {
        let has7 = stream.need(7);
        let save = stream.state;
        let ghost all = stream.bits();
        proof {
            if has7 {
                stream.lemma_bits_front(7);
            } else {
                stream.lemma_bits_exhausted();
                lemma_pow2_monotone(stream.state.n as nat, 7);
                crate::arith::lemma_small_pow2(stream.state.v as nat, 7);
            }
            lemma2_to64();
        }
        let code = self.patterns[(stream.state.v % 128) as usize];
        proof {
            self.lemma_lookup(all, code);
        }
        if code == 0xff {
            if has7 {
                return Err(InflateError::BadCode);
            } else {
                return Ok(false);
            }
        }
        let l = self.clens[code as usize];
        if !has7 && l > stream.state.n {
            return Ok(false);
        }
        stream.consume(l);
        let ghost after = stream.bits();
        if code <= 15 {
            self.result.push(code);
            return Ok(true);
        }
        if code == 16 {
            let len = self.result.len();
            if len == 0 {
                return Err(InflateError::NoPreviousLength);
            }
            let last = self.result[len - 1];
            match stream.take(2) {
                Some(n) => {
                    proof {
                        lemma_skip_skip(all, l as nat, 2);
                        vstd::arithmetic::div_mod::lemma_mod_bound(after.value as int, 4);
                    }
                    if self.finish_repeat(last, 3 + n) {
                        Ok(true)
                    } else {
                        Err(InflateError::LengthsOverrun)
                    }
                },
                None => {
                    stream.state = save;
                    Ok(false)
                },
            }
        } else if code == 17 {
            match stream.take(3) {
                Some(n) => {
                    proof {
                        lemma_skip_skip(all, l as nat, 3);
                        vstd::arithmetic::div_mod::lemma_mod_bound(after.value as int, 8);
                    }
                    if self.finish_repeat(0, 3 + n) {
                        Ok(true)
                    } else {
                        Err(InflateError::LengthsOverrun)
                    }
                },
                None => {
                    stream.state = save;
                    Ok(false)
                },
            }
        } else {
            match stream.take(7) {
                Some(n) => {
                    proof {
                        lemma_skip_skip(all, l as nat, 7);
                        vstd::arithmetic::div_mod::lemma_mod_bound(after.value as int, 128);
                    }
                    if self.finish_repeat(0, 11 + n) {
                        Ok(true)
                    } else {
                        Err(InflateError::LengthsOverrun)
                    }
                },
                None => {
                    stream.state = save;
                    Ok(false)
                },
            }
        }
    }

    /// Reads lengths until all are there or the input runs out. Tells whether
    /// all are there.
    pub fn read(&mut self, stream: &mut BitStream) -> (r: Result<bool, InflateError>)
        requires
            old(self).wf(),
            old(stream).wf(),
        ensures
            final(self).wf(),
            final(self).clens() == old(self).clens(),
            final(self).num_lit() == old(self).num_lit(),
            final(self).num_dist() == old(self).num_dist(),
            final(stream).wf(),
            final(stream).data@ == old(stream).data@,
            final(stream).used >= old(stream).used,
            exists|k: nat| #[trigger]
                read_to(
                    old(self).clens(),
                    old(self).total(),
                    old(self).result(),
                    old(stream).bits(),
                    k,
                    final(self).result(),
                    final(stream).bits(),
                    r,
                    left_of(*old(stream)),
                    left_of(*final(stream)),
                ),
            r == Ok::<bool, InflateError>(false) ==> final(stream).used == final(stream).data@.len(),
    {
        let total_len = self.num_lit as usize + self.num_dist as usize;
        let ghost clens = self.clens();
        let ghost total = self.total();
        let ghost result0 = self.result();
        let ghost bits0 = stream.bits();
        let ghost mut k: nat = 0;
        while self.result.len() < total_len
            invariant
                self.wf(),
                self.clens() == clens,
                self.total() == total,
                self.num_lit() == old(self).num_lit(),
                self.num_dist() == old(self).num_dist(),
                total_len == total,
                clens == old(self).clens(),
                total == old(self).total(),
                result0 == old(self).result(),
                bits0 == old(stream).bits(),
                stream.wf(),
                stream.data@ == old(stream).data@,
                stream.used >= old(stream).used,
                meta_iter(clens, total, result0, bits0, k) == (self.result(), stream.bits()),
                meta_left(clens, total, result0, bits0, k, left_of(*old(stream))) == left_of(*stream),
            decreases stream.bits().len,
        {
            let ghost before_result = self.result();
            let ghost before_bits = stream.bits();
            let ghost before_left = left_of(*stream);
            assert(stream.bits().len == stream.state.n + 8 * left_of(*stream));
            match self.step(stream) {
                Ok(true) => {
                    proof {
                        lemma_meta_iter_extend(
                            clens,
                            total,
                            result0,
                            bits0,
                            k,
                            before_result,
                            before_bits,
                            self.result(),
                            (before_bits.len - stream.bits().len) as nat,
                            left_of(*old(stream)),
                            before_left,
                        );
                        k = k + 1;
                    }
                },
                Ok(false) => {
                    proof {
                        assert(read_to(
                            clens,
                            total,
                            result0,
                            bits0,
                            k,
                            self.result(),
                            stream.bits(),
                            Ok(false),
                            left_of(*old(stream)),
                            left_of(*stream),
                        ));
                    }
                    return Ok(false);
                },
                Err(e) => {
                    proof {
                        assert(read_to(
                            clens,
                            total,
                            result0,
                            bits0,
                            k,
                            self.result(),
                            stream.bits(),
                            Err(e),
                            left_of(*old(stream)),
                            left_of(*stream),
                        ));
                    }
                    return Err(e);
                },
            }
        }
        proof {
            assert(read_to(
                clens,
                total,
                result0,
                bits0,
                k,
                self.result(),
                stream.bits(),
                Ok(true),
                left_of(*old(stream)),
                left_of(*stream),
            ));
        }
        Ok(true)
    }

    /// How many lengths have been read.
    pub fn result_len(&self) -> (r: usize)
        ensures
            r == self.result().len(),
    {
        self.result.len()
    }

    /// Builds the two symbol decoders from the lengths read: the first
    /// `num_lit` lengths are those of the literal/length code, the others
    /// those of the distance code.
    pub fn to_lit_and_dist(self) -> (r: Result<(DynHuffman16, DynHuffman16), InflateError>)
        requires
            self.wf(),
            self.result().len() >= self.total(),
        ensures
            match r {
                Ok((lit, dist)) => {
                    &&& lit.wf()
                    &&& lit.lens() == lit_lengths(self.result(), self.num_lit())
                    &&& dist.wf()
                    &&& dist.lens() == dist_lengths(self.result(), self.num_lit())
                },
                Err(e) => {
                    &&& e == InflateError::BadCodeLengths
                    &&& !(lengths_valid(lit_lengths(self.result(), self.num_lit()), 15)
                        && lengths_valid(dist_lengths(self.result(), self.num_lit()), 15))
                },
            },
    {
        let num_lit = self.num_lit as usize;
        let all = self.result.as_slice();
        let lit = match DynHuffman16::new(vstd::slice::slice_subrange(all, 0, num_lit)) {
            Ok(lit) => lit,
            Err(e) => {
                return Err(e);
            },
        };
        let dist = match DynHuffman16::new(vstd::slice::slice_subrange(all, num_lit, all.len())) {
            Ok(dist) => dist,
            Err(e) => {
                return Err(e);
            },
        };
        Ok((lit, dist))
    }
}

/// The lengths of the literal/length code among all lengths.
pub open spec fn lit_lengths(result: Seq<u8>, num_lit: nat) -> Seq<u8> {
    result.subrange(0, num_lit as int)
}

/// The lengths of the distance code among all lengths.
pub open spec fn dist_lengths(result: Seq<u8>, num_lit: nat) -> Seq<u8> {
    result.subrange(num_lit as int, result.len() as int)
}

} // verus!
