//! The symbol decoder: a lookup table for a canonical Huffman code of up to
//! fifteen bits. The next eight bits of input index a direct table; codes of
//! more than eight bits go on through a small two-level trie.

use vstd::prelude::*;
use vstd::arithmetic::power2::*;
use vstd::arithmetic::div_mod::*;
use vstd::arithmetic::mul::*;
use crate::arith::{lemma_pow2_split, lemma_pow2_monotone, lemma_mod_pow2_twice, lemma_small_pow2};
use crate::bits::{BitSeq, BitState, BitStream, bytes_moved};
use crate::codes::{code_of, code_pattern, sym_matches, lengths_valid, canonical_codes, pow2_u32, lemma_match_unique, lemma_pattern_bound, lemma_code_fits};
use crate::reverse::{reverse8, rev_bits, lemma_rev_shift, lemma_rev_split};
use crate::error::InflateError;

verus! {

/// What stands at the front of some bits, read with a given code.
pub enum Decoded {
    /// The code of `sym`, `len` bits long.
    Symbol { sym: int, len: nat },
    /// No code yet, but more bits may complete one.
    NeedMore,
    /// No code, whatever follows.
    Invalid,
}

/// The code of `s` stands at the front of `bits`, all of it.
pub open spec fn matches_within(lens: Seq<u8>, s: int, bits: BitSeq) -> bool {
    sym_matches(lens, s, bits.value) && lens[s] as nat <= bits.len
}

/// The eight bits `p` begin like the code of `s`: they hold the whole code
/// where it is short, its first eight bits where it is long.
pub open spec fn starts_like(lens: Seq<u8>, s: int, p: nat) -> bool {
    &&& 0 <= s < lens.len()
    &&& lens[s] > 0
    &&& if lens[s] <= 8 {
        p % pow2(lens[s] as nat) == code_pattern(lens, s)
    } else {
        code_pattern(lens, s) % 256 == p
    }
}

/// Some code begins like the eight bits `p`.
pub open spec fn begins_code(lens: Seq<u8>, p: nat) -> bool {
    exists|s: int| starts_like(lens, s, p)
}

/// The symbol whose code stands at the front of `bits`. Without one, the
/// input is invalid once fifteen bits are there, or eight that begin no code.
pub open spec fn decode(lens: Seq<u8>, bits: BitSeq) -> Decoded {
    if exists|s: int| matches_within(lens, s, bits) {
        let s = choose|s: int| matches_within(lens, s, bits);
        Decoded::Symbol { sym: s, len: lens[s] as nat }
    } else if bits.len >= 15 {
        Decoded::Invalid
    } else if bits.len >= 8 && !begins_code(lens, bits.value % 256) {
        Decoded::Invalid
    } else {
        Decoded::NeedMore
    }
}

/// A symbol that `decode` finds is one of the code, and its code is not empty
/// and lies within the bits.
pub proof fn lemma_decode_len(lens: Seq<u8>, bits: BitSeq)
    ensures
        decode(lens, bits) matches Decoded::Symbol { sym, len } ==> 0 <= sym < lens.len() && len
            == lens[sym] && 1 <= len <= bits.len && sym_matches(lens, sym, bits.value),
{
}

/// Bits that a code matches begin like that code.
pub proof fn lemma_match_starts(lens: Seq<u8>, s: int, value: nat)
    requires
        lengths_valid(lens, 15),
        sym_matches(lens, s, value),
    ensures
        starts_like(lens, s, value % 256),
{
    lemma2_to64();
    let l = lens[s] as nat;
    if l <= 8 {
        assert(l + (8 - l) as nat == 8);
        lemma_mod_pow2_twice(value, l, (8 - l) as nat);
    } else {
        lemma_match_prefix(lens, s, value);
    }
}

/// More input behind the bits does not change what stands at their front:
/// a symbol that was found is found again, and bits that were the code of no
/// symbol stay so.
pub proof fn lemma_decode_feed(lens: Seq<u8>, bits: BitSeq, data: Seq<u8>)
    requires
        lengths_valid(lens, 15),
    ensures
        !(decode(lens, bits) is NeedMore) ==> decode(lens, bits.append(data)) == decode(lens, bits),
{
    lemma2_to64();
    let more = bits.append(data);
    assert forall|s: int| 0 <= s < lens.len() && lens[s] as nat <= bits.len implies sym_matches(
        lens,
        s,
        more.value,
    ) == sym_matches(lens, s, bits.value) by {
        crate::bits::lemma_append_first(bits, data, lens[s] as nat);
    }
    if bits.len >= 8 {
        crate::bits::lemma_append_first(bits, data, 8);
    }
    match decode(lens, bits) {
        Decoded::Symbol { sym, len } => {
            assert(matches_within(lens, sym, bits));
            assert(matches_within(lens, sym, more));
            let s2 = choose|s: int| matches_within(lens, s, more);
            lemma_match_unique(lens, 15, s2, sym, more.value);
        },
        Decoded::Invalid => {
            assert forall|s: int| !matches_within(lens, s, more) by {
                if matches_within(lens, s, more) {
                    if bits.len >= 15 {
                        assert(matches_within(lens, s, bits));
                    } else {
                        lemma_match_starts(lens, s, more.value);
                        assert(starts_like(lens, s, bits.value % 256));
                    }
                }
            }
        },
        Decoded::NeedMore => {},
    }
}

/// What reading a symbol does to the cursor, and what it returns: the symbol
/// that `decode` finds, with the pending bits as they were before it was
/// removed; nothing, with every input byte pending, where more bits are
/// needed; an error where the bits are no code.
/// How many bytes the cursor moves in to read a symbol with a code of `len`
/// bits, with `pending` bits in its register and `left` bytes of input: it
/// asks for 8 bits, and for 16 where the code is longer than 8.
pub open spec fn symbol_pull(pending: nat, left: nat, len: nat) -> nat {
    let first = bytes_moved(pending, 8, left);
    if len <= 8 {
        first
    } else {
        first + bytes_moved(pending + 8 * first, 16, (left - first) as nat)
    }
}

/// The bytes that reading a symbol has moved in, where a symbol was found.
pub open spec fn read_pulls(
    lens: Seq<u8>,
    before: BitStream,
    after: BitStream,
    r: Result<Option<(BitState, u16)>, InflateError>,
) -> bool {
    r matches Ok(Some(_)) ==> after.used - before.used == symbol_pull(
        before.state.n as nat,
        (before.data@.len() - before.used) as nat,
        decode(lens, before.bits())->Symbol_len,
    )
}

pub open spec fn read_result(
    lens: Seq<u8>,
    before: BitStream,
    after: BitStream,
    r: Result<Option<(BitState, u16)>, InflateError>,
) -> bool {
    match decode(lens, before.bits()) {
        Decoded::Symbol { sym, len } => {
            &&& r matches Ok(Some((save, code)))
            &&& code == sym
            &&& 0 <= sym < lens.len()
            &&& len == lens[sym]
            &&& save.wf()
            &&& save.bits().append(after.rest()) == before.bits()
            &&& after.bits() == before.bits().skip(len)
            &&& len <= before.bits().len
        },
        Decoded::NeedMore => {
            &&& r == Ok::<Option<(BitState, u16)>, InflateError>(None)
            &&& after.bits() == before.bits()
            &&& after.used == after.data@.len()
        },
        Decoded::Invalid => {
            &&& r == Err::<Option<(BitState, u16)>, InflateError>(InflateError::BadCode)
            &&& after.bits() == before.bits()
        },
    }
}

/// One node of the overflow structure: sixteen entries for codes of nine to
/// twelve bits, and up to sixteen children for longer ones. A child that is
/// not there is an empty vector.
pub struct Trie8bit {
    pub data: Vec<u16>,
    pub children: Vec<Vec<u16>>,
}

impl Trie8bit {
    pub open spec fn shaped(&self) -> bool {
        &&& self.data@.len() == 16
        &&& self.children@.len() == 16
        &&& forall|k: int|
            0 <= k < 16 ==> (#[trigger] self.children@[k])@.len() == 0 || self.children@[k]@.len()
                == 16
    }

    /// The entry for the eight bits `q` that follow the first eight.
    pub open spec fn lookup(&self, q: int) -> u16 {
        if self.children@[q % 16]@.len() == 0 {
            self.data@[q % 16]
        } else {
            self.children@[q % 16]@[q / 16]
        }
    }
}

/// An entry of the direct table for a code of at most eight bits.
pub open spec fn direct_ok(lens: Seq<u8>, i: int, p: int, e: u16) -> bool {
    let s = (e % 4096) as int;
    let l = (e / 4096) as nat;
    &&& 0 <= s < i
    &&& lens[s] as nat == l
    &&& 1 <= l <= 8
    &&& (p as nat) % pow2(l) == code_pattern(lens, s)
}

/// Symbol `s`, one of the first `i`, has a long code that begins with `p`.
pub open spec fn long_with_prefix(lens: Seq<u8>, i: int, s: int, p: int) -> bool {
    0 <= s < i && lens[s] > 8 && code_pattern(lens, s) % 256 == p as nat
}

/// Symbol `s`, one of the first `i`, has a code of more than twelve bits that
/// begins with the twelve bits `w`.
pub open spec fn deep_with_prefix(lens: Seq<u8>, i: int, s: int, w: int) -> bool {
    0 <= s < i && lens[s] > 12 && code_pattern(lens, s) % 4096 == w as nat
}

/// An entry of the direct table that leads on to a trie.
pub open spec fn pointer_ok(lens: Seq<u8>, i: int, p: int, e: u16, prefixes: Seq<int>) -> bool {
    let idx = (e % 2048) as int;
    &&& e % 4096 >= 2048
    &&& 9 <= e / 4096 <= 15
    &&& idx < prefixes.len()
    &&& prefixes[idx] == p
    &&& exists|s: int| long_with_prefix(lens, i, s, p)
}

/// What entry `e` at index `p` of the direct table says of the first `i`
/// symbols.
pub open spec fn pattern_ok(lens: Seq<u8>, i: int, p: int, e: u16, prefixes: Seq<int>) -> bool {
    let pn = p as nat;
    if e == 0xffff {
        forall|s: int| 0 <= s < i ==> !starts_like(lens, s, pn)
    } else if e / 4096 <= 8 {
        direct_ok(lens, i, p, e)
    } else {
        pointer_ok(lens, i, p, e, prefixes)
    }
}

/// What entry `e` of a trie, found for the sixteen bits `w`, says of the
/// first `i` symbols.
pub open spec fn trie_entry_ok(lens: Seq<u8>, i: int, w: int, e: u16) -> bool {
    let wn = w as nat;
    if e == 0xffff {
        forall|s: int| 0 <= s < i && lens[s] > 8 ==> !sym_matches(lens, s, wn)
    } else {
        let s = (e % 4096) as int;
        &&& 0 <= s < i
        &&& lens[s] == e / 4096
        &&& lens[s] > 8
        &&& sym_matches(lens, s, w as nat)
    }
}

/// A child is there only where a code of more than twelve bits needs it.
pub open spec fn child_ok(lens: Seq<u8>, i: int, t: Trie8bit, pt: int, k: int) -> bool {
    let w = pt + 256 * k;
    t.children@[k]@.len() != 0 ==> exists|s: int| deep_with_prefix(lens, i, s, w)
}

/// The trie for the first eight bits `pt` holds the long codes, among the
/// first `i` symbols, that begin with them.
pub open spec fn trie_ok(lens: Seq<u8>, i: int, t: Trie8bit, pt: int) -> bool {
    &&& t.shaped()
    &&& 0 <= pt < 256
    &&& forall|q: int| 0 <= q < 256 ==> trie_entry_ok(lens, i, pt + 256 * q, #[trigger] t.lookup(q))
    &&& forall|k: int| 0 <= k < 16 ==> #[trigger] child_ok(lens, i, t, pt, k)
}

/// The direct table and the tries hold the codes of the first `i` symbols.
#[verifier::opaque]
pub open spec fn tables_ok(
    lens: Seq<u8>,
    i: int,
    patterns: Seq<u16>,
    rest: Seq<Trie8bit>,
    prefixes: Seq<int>,
) -> bool {
    &&& patterns.len() == 256
    &&& prefixes.len() == rest.len()
    &&& rest.len() <= i
    &&& forall|p: int| 0 <= p < 256 ==> pattern_ok(lens, i, p, #[trigger] patterns[p], prefixes)
    &&& forall|t: int| 0 <= t < rest.len() ==> trie_ok(lens, i, #[trigger] rest[t], prefixes[t])
    &&& forall|t: int|
        0 <= t < rest.len() ==> {
            let e = patterns[#[trigger] prefixes[t]];
            e != 0xffff && e / 4096 > 8 && e % 2048 == t
        }
}

proof fn lemma_stride_gap(idx: int, p: int, step: int, base: int)
    requires
        step > 0,
        0 <= base < step,
        idx >= 0,
        idx % step == base,
        idx < p < idx + step,
    ensures
        p % step != base,
{
    let k = idx / step;
    lemma_fundamental_div_mod(idx, step);
    let d = p - idx;
    if base + d < step {
        assert(p == k * step + (base + d)) by {
            lemma_mul_is_commutative(k, step);
        }
        lemma_fundamental_div_mod_converse(p, step, k, base + d);
    } else {
        assert(p == (k + 1) * step + (base + d - step)) by {
            lemma_mul_is_commutative(k, step);
            lemma_mul_is_distributive_add_other_way(step, k, 1);
        }
        lemma_fundamental_div_mod_converse(p, step, k + 1, base + d - step);
    }
}

/// Writes `entry` to every index that leaves the remainder `base` when
/// divided by `step`.
pub fn fill_stride<T: Copy>(table: &mut Vec<T>, base: usize, step: usize, entry: T)
    requires
        0 < step <= 256,
        base < step,
        old(table)@.len() <= 256,
    ensures
        final(table)@.len() == old(table)@.len(),
        forall|p: int|
            0 <= p < old(table)@.len() ==> #[trigger] final(table)@[p] == if p % (step as int)
                == base {
                entry
            } else {
                old(table)@[p]
            },
{
    let size = table.len();
    let mut idx = base;
    proof {
        lemma_small_mod(base as nat, step as nat);
        assert forall|p: int| 0 <= p < size implies #[trigger] table@[p] == if p % (step as int)
            == base && p < idx {
            entry
        } else {
            old(table)@[p]
        } by {
            if p < base {
                lemma_small_mod(p as nat, step as nat);
            }
        }
    }
    while idx < size
        invariant
            table@.len() == size,
            size == old(table)@.len(),
            size <= 256,
            0 < step <= 256,
            base < step,
            idx % step == base,
            forall|p: int|
                0 <= p < size ==> #[trigger] table@[p] == if p % (step as int) == base && p < idx {
                    entry
                } else {
                    old(table)@[p]
                },
        decreases size + step - idx,
    {
        table[idx] = entry;
        proof {
            lemma_mod_add_multiples_vanish(idx as int, step as int);
            assert forall|p: int| 0 <= p < size implies #[trigger] table@[p] == if p % (step as int)
                == base && p < idx + step {
                entry
            } else {
                old(table)@[p]
            } by {
                if idx < p < idx + step {
                    lemma_stride_gap(idx as int, p, step as int, base as int);
                }
            }
        }
        idx = idx + step;
    }
}


/// An entry that was right of the first `i` symbols stays right when symbol
/// `i` has nothing to do with its index.
proof fn lemma_frame_pattern(lens: Seq<u8>, i: int, p: int, e: u16, prefixes: Seq<int>)
    requires
        pattern_ok(lens, i, p, e, prefixes),
        !starts_like(lens, i, p as nat),
    ensures
        pattern_ok(lens, i + 1, p, e, prefixes),
{
    if e == 0xffff {
    } else if e / 4096 <= 8 {
    } else {
        let s = choose|s: int| long_with_prefix(lens, i, s, p);
        assert(long_with_prefix(lens, i + 1, s, p));
    }
}

/// A trie entry stays right when symbol `i` does not match its bits.
proof fn lemma_frame_trie_entry(lens: Seq<u8>, i: int, w: int, e: u16)
    requires
        trie_entry_ok(lens, i, w, e),
        lens[i] > 8 ==> !sym_matches(lens, i, w as nat),
    ensures
        trie_entry_ok(lens, i + 1, w, e),
{
}

/// A whole trie stays right when symbol `i` matches nothing that it holds.
proof fn lemma_frame_trie(lens: Seq<u8>, i: int, t: Trie8bit, pt: int)
    requires
        trie_ok(lens, i, t, pt),
        lens[i] > 8 ==> code_pattern(lens, i) % 256 != pt as nat,
        0 <= i < lens.len(),
        lens[i] <= 15,
    ensures
        trie_ok(lens, i + 1, t, pt),
{
    assert forall|q: int| 0 <= q < 256 implies trie_entry_ok(
        lens,
        i + 1,
        pt + 256 * q,
        #[trigger] t.lookup(q),
    ) by {
        if lens[i] > 8 {
            lemma_match_prefix(lens, i, (pt + 256 * q) as nat);
        }
        lemma_frame_trie_entry(lens, i, pt + 256 * q, t.lookup(q));
    }
    assert forall|k: int| 0 <= k < 16 implies #[trigger] child_ok(lens, i + 1, t, pt, k) by {
        assert(child_ok(lens, i, t, pt, k));
        if t.children@[k]@.len() != 0 {
            let w = pt + 256 * k;
            let s = choose|s: int| deep_with_prefix(lens, i, s, w);
            assert(deep_with_prefix(lens, i + 1, s, w));
        }
    }
}

/// Bits that a long code matches begin with the first eight bits of its
/// pattern.
proof fn lemma_match_prefix(lens: Seq<u8>, s: int, w: nat)
    requires
        0 <= s < lens.len(),
        8 < lens[s] <= 15,
    ensures
        sym_matches(lens, s, w) ==> code_pattern(lens, s) % 256 == w % 256,
{
    let l = lens[s] as nat;
    lemma2_to64();
    assert(8 + (l - 8) as nat == l);
    lemma_mod_pow2_twice(w, 8, (l - 8) as nat);
}

/// Where a short code matches the index, nothing was entered before: any
/// earlier entry would belong to a code that has this one as its beginning,
/// or is its beginning.
proof fn lemma_slot_free_short(lens: Seq<u8>, i: int, p: int, e: u16, prefixes: Seq<int>)
    requires
        lengths_valid(lens, 15),
        0 <= i < lens.len(),
        0 <= p < 256,
        1 <= lens[i] <= 8,
        starts_like(lens, i, p as nat),
        pattern_ok(lens, i, p, e, prefixes),
    ensures
        e == 0xffff,
{
    let li = lens[i] as nat;
    lemma2_to64();
    if e != 0xffff {
        if e / 4096 <= 8 {
            let s = (e % 4096) as int;
            assert(sym_matches(lens, s, p as nat));
            assert(sym_matches(lens, i, p as nat));
            lemma_match_unique(lens, 15, s, i, p as nat);
        } else {
            let s = choose|s: int| long_with_prefix(lens, i, s, p);
            let v = code_pattern(lens, s);
            lemma_pattern_bound(lens, s);
            lemma_small_pow2(v, lens[s] as nat);
            assert(sym_matches(lens, s, v));
            assert(li + (8 - li) as nat == 8);
            lemma_mod_pow2_twice(v, li, (8 - li) as nat);
            assert(sym_matches(lens, i, v));
            lemma_match_unique(lens, 15, s, i, v);
        }
    }
}

/// The pattern of a short code, from its code as the table builder holds it.
pub proof fn lemma_short_pattern(lens: Seq<u8>, max: nat, i: int, code: nat, l: nat)
    requires
        lengths_valid(lens, max),
        0 <= i < lens.len(),
        lens[i] as nat == l,
        1 <= l <= 8,
        code == code_of(lens, i),
    ensures
        code * pow2((8 - l) as nat) < 256,
        rev_bits(code * pow2((8 - l) as nat), 8) == code_pattern(lens, i),
        code_pattern(lens, i) < pow2(l),
        pow2(l) <= 256,
{
    lemma2_to64();
    let k = (8 - l) as nat;
    lemma_code_fits(lens, max, i);
    lemma_pow2_split(l, k);
    assert(l + k == 8);
    assert(code * pow2(k) < pow2(l) * pow2(k)) by {
        lemma_mul_strict_inequality(code as int, pow2(l) as int, pow2(k) as int);
    }
    lemma_rev_shift(code, l, k);
    lemma_pattern_bound(lens, i);
    lemma_pow2_monotone(l, 8);
}

/// Enters the code of symbol `i`, of at most eight bits, in the direct table.
fn insert_short(
    patterns: &mut Vec<u16>,
    i: usize,
    code: u16,
    bits: u8,
    Ghost(lens): Ghost<Seq<u8>>,
    Ghost(rest): Ghost<Seq<Trie8bit>>,
    Ghost(prefixes): Ghost<Seq<int>>,
)
    requires
        lengths_valid(lens, 15),
        i < lens.len() < 2048,
        lens[i as int] == bits,
        1 <= bits <= 8,
        code as nat == code_of(lens, i as int),
        tables_ok(lens, i as int, old(patterns)@, rest, prefixes),
    ensures
        tables_ok(lens, i + 1, final(patterns)@, rest, prefixes),
{
    proof {
        reveal(tables_ok);
        lemma_short_pattern(lens, 15, i as int, code as nat, bits as nat);
        lemma2_to64();
        lemma_pow2_monotone((8 - bits) as nat, 8);
    }
    let entry: u16 = i as u16 + (bits as u16) * 4096;
    let shifted: u32 = (code as u32) * pow2_u32((8 - bits) as u32);
    let base = reverse8(shifted as u8);
    let step = pow2_u32(bits as u32) as usize;
    fill_stride(patterns, base as usize, step, entry);
    proof {
        let old_p = old(patterns)@;
        let new_p = patterns@;
        assert(entry % 4096 == i && entry / 4096 == bits && entry != 0xffff);
        assert forall|p: int| 0 <= p < 256 implies pattern_ok(
            lens,
            i + 1,
            p,
            #[trigger] new_p[p],
            prefixes,
        ) by {
            assert(pattern_ok(lens, i as int, p, old_p[p], prefixes));
            if p % (step as int) == base {
                assert(direct_ok(lens, i + 1, p, entry));
            } else {
                lemma_frame_pattern(lens, i as int, p, old_p[p], prefixes);
            }
        }
        assert forall|t: int| 0 <= t < rest.len() implies trie_ok(
            lens,
            i + 1,
            #[trigger] rest[t],
            prefixes[t],
        ) by {
            lemma_frame_trie(lens, i as int, rest[t], prefixes[t]);
        }
        assert forall|t: int| 0 <= t < rest.len() implies {
            let e = new_p[#[trigger] prefixes[t]];
            e != 0xffff && e / 4096 > 8 && e % 2048 == t
        } by {
            let p = prefixes[t];
            assert(trie_ok(lens, i as int, rest[t], prefixes[t]));
            assert(pattern_ok(lens, i as int, p, old_p[p], prefixes));
            if p % (step as int) == base {
                lemma_slot_free_short(lens, i as int, p, old_p[p], prefixes);
            }
        }
    }
}


/// The pattern of a long code in two parts: its first eight bits and the
/// rest, from the code as the table builder holds it.
proof fn lemma_long_pattern(lens: Seq<u8>, i: int, code: nat, l: nat)
    requires
        lengths_valid(lens, 15),
        0 <= i < lens.len(),
        lens[i] as nat == l,
        9 <= l <= 15,
        code == code_of(lens, i),
    ensures
        code / pow2((l - 8) as nat) < 256,
        (code % pow2((l - 8) as nat)) * pow2((16 - l) as nat) < 256,
        code_pattern(lens, i) == rev_bits(code / pow2((l - 8) as nat), 8) + 256 * rev_bits(
            (code % pow2((l - 8) as nat)) * pow2((16 - l) as nat),
            8,
        ),
        rev_bits((code % pow2((l - 8) as nat)) * pow2((16 - l) as nat), 8) < pow2((l - 8) as nat),
        rev_bits(code / pow2((l - 8) as nat), 8) < 256,
        0 < pow2((l - 8) as nat) <= 128,
        0 < pow2((16 - l) as nat) <= 128,
{
    lemma2_to64();
    let k = (l - 8) as nat;
    let j = (16 - l) as nat;
    assert(k + j == 8);
    assert(8 + k == l);
    lemma_code_fits(lens, 15, i);
    lemma_pow2_split(k, 8);
    lemma_pow2_split(k, j);
    lemma_pow2_monotone(k, 7);
    lemma_pow2_monotone(j, 7);
    crate::arith::lemma_div_pow2_bound(code, k, 8);
    let lo = code % pow2(k);
    assert(lo < pow2(k)) by {
        lemma_mod_bound(code as int, pow2(k) as int);
    }
    assert(lo * pow2(j) < pow2(k) * pow2(j)) by {
        lemma_mul_strict_inequality(lo as int, pow2(k) as int, pow2(j) as int);
    }
    lemma_rev_shift(lo, k, j);
    lemma_rev_split(code, 8, k);
    crate::reverse::lemma_rev_bound(lo, k);
    crate::reverse::lemma_rev_bound(code / pow2(k), 8);
}

/// Which sixteen bits a long code matches: those that begin with its first
/// eight bits and go on with the rest of its pattern.
proof fn lemma_long_match(lens: Seq<u8>, i: int, low: int, high: int, q: int)
    requires
        0 <= i < lens.len(),
        9 <= lens[i] <= 15,
        code_pattern(lens, i) == low + 256 * high,
        0 <= low < 256,
        0 <= high,
        0 <= q < 256,
    ensures
        sym_matches(lens, i, (low + 256 * q) as nat) == (q % (pow2((lens[i] - 8) as nat) as int)
            == high),
{
    lemma2_to64();
    let l = lens[i] as nat;
    let k = (l - 8) as nat;
    let x = (low + 256 * q) as nat;
    assert(8 + k == l);
    crate::arith::lemma_mod_pow2_breakdown(x, 8, k);
    assert(x % 256 == low);
    assert(x / 256 == q);
    lemma_pow2_split(k, 0);
    lemma_mod_bound(q, pow2(k) as int);
}

/// For a code of nine to twelve bits the rest of the pattern is decided by
/// the low four of the second eight bits.
proof fn lemma_mod_of_low4(q: int, k: nat)
    requires
        0 <= q < 256,
        1 <= k <= 4,
    ensures
        (q % 16) % (pow2(k) as int) == q % (pow2(k) as int),
        0 < pow2(k) <= 16,
{
    lemma2_to64();
    assert(k + (4 - k) as nat == 4);
    lemma_mod_pow2_twice(q as nat, k, (4 - k) as nat);
    lemma_pow2_monotone(k, 4);
}

/// For a code of more than twelve bits the rest of the pattern is the low four
/// bits, which pick the child, and `k - 4` bits that pick the entry in it.
proof fn lemma_mod_of_high4(q: int, k: nat, high: int)
    requires
        0 <= q < 256,
        5 <= k <= 7,
        0 <= high < pow2(k),
    ensures
        (q % (pow2(k) as int) == high) == (q % 16 == high % 16 && (q / 16) % (pow2((k - 4) as nat) as int)
            == high / 16),
        0 < pow2((k - 4) as nat) <= 8,
        high / 16 < pow2((k - 4) as nat),
        high < 128,
{
    lemma2_to64();
    let j = (k - 4) as nat;
    assert(4 + j == k);
    crate::arith::lemma_mod_pow2_breakdown(q as nat, 4, j);
    lemma_pow2_monotone(j, 3);
    lemma_pow2_monotone(k, 7);
    lemma_pow2_split(j, 0);
    lemma_mod_bound(q / 16, pow2(j) as int);
    crate::arith::lemma_div_pow2_bound(high as nat, 4, j);
}

/// A long code matches its own pattern.
proof fn lemma_matches_own_pattern(lens: Seq<u8>, i: int)
    requires
        0 <= i < lens.len(),
        lens[i] > 0,
    ensures
        sym_matches(lens, i, code_pattern(lens, i)),
{
    lemma_pattern_bound(lens, i);
    lemma_small_pow2(code_pattern(lens, i), lens[i] as nat);
}

/// Entering a code of nine to twelve bits in the first level of its trie.
proof fn lemma_fill_data(
    lens: Seq<u8>,
    i: int,
    t0: Trie8bit,
    t1: Trie8bit,
    low: int,
    high: int,
    entry: u16,
)
    requires
        lengths_valid(lens, 15),
        0 <= i < lens.len(),
        9 <= lens[i] <= 12,
        code_pattern(lens, i) == low + 256 * high,
        0 <= low < 256,
        0 <= high < pow2((lens[i] - 8) as nat),
        trie_ok(lens, i, t0, low),
        entry % 4096 == i,
        entry / 4096 == lens[i],
        entry != 0xffff,
        t1.children == t0.children,
        t1.data@.len() == 16,
        forall|d: int|
            0 <= d < 16 ==> #[trigger] t1.data@[d] == if d % (pow2((lens[i] - 8) as nat) as int)
                == high {
                entry
            } else {
                t0.data@[d]
            },
    ensures
        trie_ok(lens, i + 1, t1, low),
{
    let k = (lens[i] - 8) as nat;
    lemma2_to64();
    assert(t1.shaped()) by {
        assert forall|c: int| 0 <= c < 16 implies (#[trigger] t1.children@[c])@.len() == 0
            || t1.children@[c]@.len() == 16 by {
            assert(t0.children@[c]@.len() == 0 || t0.children@[c]@.len() == 16);
        }
    }
    assert forall|q: int| 0 <= q < 256 implies trie_entry_ok(
        lens,
        i + 1,
        low + 256 * q,
        #[trigger] t1.lookup(q),
    ) by {
        let d = q % 16;
        lemma_long_match(lens, i, low, high, q);
        lemma_mod_of_low4(q, k);
        assert(trie_entry_ok(lens, i, low + 256 * q, t0.lookup(q)));
        if d % (pow2(k) as int) == high {
            // No child can be there: its code would begin with this one.
            assert(child_ok(lens, i, t0, low, d));
            if t0.children@[d]@.len() != 0 {
                let w = low + 256 * d;
                let s = choose|s: int| deep_with_prefix(lens, i, s, w);
                let v = code_pattern(lens, s);
                lemma_matches_own_pattern(lens, s);
                // v % 2^l == (v % 4096) % 2^l == w % 2^l == pattern of i
                assert(lens[i] as nat + (12 - lens[i]) as nat == 12);
                lemma_mod_pow2_twice(v, lens[i] as nat, (12 - lens[i]) as nat);
                lemma_long_match(lens, i, low, high, d);
                lemma_mod_of_low4(d, k);
                assert(sym_matches(lens, i, w as nat));
                assert(sym_matches(lens, i, v));
                lemma_match_unique(lens, 15, s, i, v);
            }
            assert(t1.lookup(q) == entry);
        } else {
            assert(t1.lookup(q) == t0.lookup(q));
            lemma_frame_trie_entry(lens, i, low + 256 * q, t0.lookup(q));
        }
    }
    assert forall|c: int| 0 <= c < 16 implies #[trigger] child_ok(lens, i + 1, t1, low, c) by {
        assert(child_ok(lens, i, t0, low, c));
        if t0.children@[c]@.len() != 0 {
            let w = low + 256 * c;
            let s = choose|s: int| deep_with_prefix(lens, i, s, w);
            assert(deep_with_prefix(lens, i + 1, s, w));
        }
    }
}

/// Where a code of more than twelve bits needs a child that is not there yet,
/// the first level holds nothing at that place.
proof fn lemma_data_free(lens: Seq<u8>, i: int, t0: Trie8bit, low: int, high: int)
    requires
        lengths_valid(lens, 15),
        0 <= i < lens.len(),
        13 <= lens[i] <= 15,
        code_pattern(lens, i) == low + 256 * high,
        0 <= low < 256,
        0 <= high < 128,
        trie_ok(lens, i, t0, low),
        t0.children@[high % 16]@.len() == 0,
    ensures
        t0.data@[high % 16] == 0xffff,
{
    let e = t0.lookup(high);
    assert(trie_entry_ok(lens, i, low + 256 * high, e));
    if e != 0xffff {
        let s = (e % 4096) as int;
        lemma_matches_own_pattern(lens, i);
        lemma_match_unique(lens, 15, s, i, code_pattern(lens, i));
    }
}

/// Entering a code of more than twelve bits in a child of its trie.
proof fn lemma_fill_child(
    lens: Seq<u8>,
    i: int,
    t0: Trie8bit,
    t1: Trie8bit,
    low: int,
    high: int,
    entry: u16,
)
    requires
        lengths_valid(lens, 15),
        0 <= i < lens.len(),
        13 <= lens[i] <= 15,
        code_pattern(lens, i) == low + 256 * high,
        0 <= low < 256,
        0 <= high < pow2((lens[i] - 8) as nat),
        trie_ok(lens, i, t0, low),
        entry % 4096 == i,
        entry / 4096 == lens[i],
        entry != 0xffff,
        t1.data == t0.data,
        t1.children@.len() == 16,
        forall|c: int| 0 <= c < 16 && c != high % 16 ==> #[trigger] t1.children@[c] == t0.children@[c],
        t1.children@[high % 16]@.len() == 16,
        forall|c: int|
            0 <= c < 16 ==> #[trigger] t1.children@[high % 16]@[c] == if c % (pow2(
                (lens[i] - 12) as nat,
            ) as int) == high / 16 {
                entry
            } else if t0.children@[high % 16]@.len() == 0 {
                0xffff
            } else {
                t0.children@[high % 16]@[c]
            },
    ensures
        trie_ok(lens, i + 1, t1, low),
{
    let k = (lens[i] - 8) as nat;
    let h4 = high % 16;
    lemma2_to64();
    lemma_mod_of_high4(0, k, high);
    assert(t1.shaped()) by {
        assert forall|c: int| 0 <= c < 16 implies (#[trigger] t1.children@[c])@.len() == 0
            || t1.children@[c]@.len() == 16 by {
            assert(t0.children@[c]@.len() == 0 || t0.children@[c]@.len() == 16);
        }
    }
    if t0.children@[h4]@.len() == 0 {
        lemma_data_free(lens, i, t0, low, high);
    }
    assert forall|q: int| 0 <= q < 256 implies trie_entry_ok(
        lens,
        i + 1,
        low + 256 * q,
        #[trigger] t1.lookup(q),
    ) by {
        lemma_long_match(lens, i, low, high, q);
        lemma_mod_of_high4(q, k, high);
        assert(trie_entry_ok(lens, i, low + 256 * q, t0.lookup(q)));
        if q % 16 == h4 {
            let c = q / 16;
            assert((k - 4) as nat == (lens[i] - 12) as nat);
            if c % (pow2((k - 4) as nat) as int) == high / 16 {
                assert(t1.lookup(q) == entry);
            } else {
                assert(t1.lookup(q) == t0.lookup(q));
                lemma_frame_trie_entry(lens, i, low + 256 * q, t0.lookup(q));
            }
        } else {
            assert(t1.children@[q % 16] == t0.children@[q % 16]);
            assert(t1.lookup(q) == t0.lookup(q));
            lemma_frame_trie_entry(lens, i, low + 256 * q, t0.lookup(q));
        }
    }
    assert forall|c: int| 0 <= c < 16 implies #[trigger] child_ok(lens, i + 1, t1, low, c) by {
        let w = low + 256 * c;
        if c == h4 {
            assert(deep_with_prefix(lens, i + 1, i, w));
        } else {
            assert(child_ok(lens, i, t0, low, c));
            assert(t1.children@[c] == t0.children@[c]);
            if t0.children@[c]@.len() != 0 {
                let s = choose|s: int| deep_with_prefix(lens, i, s, w);
                assert(deep_with_prefix(lens, i + 1, s, w));
            }
        }
    }
}

/// Enters the code of symbol `i`, of nine bits or more, in the trie for its
/// first eight bits. `high` holds the rest of its pattern.
fn trie_insert(
    t: &mut Trie8bit,
    i: usize,
    bits: u8,
    high: u8,
    entry: u16,
    Ghost(lens): Ghost<Seq<u8>>,
    Ghost(low): Ghost<int>,
)
    requires
        lengths_valid(lens, 15),
        i < lens.len(),
        lens[i as int] == bits,
        9 <= bits <= 15,
        code_pattern(lens, i as int) == low + 256 * high,
        0 <= low < 256,
        (high as nat) < pow2((bits - 8) as nat),
        trie_ok(lens, i as int, *old(t), low),
        entry % 4096 == i,
        entry / 4096 == bits,
        entry != 0xffff,
    ensures
        trie_ok(lens, i + 1, *final(t), low),
{
    proof {
        lemma2_to64();
        lemma_pow2_monotone((bits - 8) as nat, 7);
    }
    if bits <= 12 {
        let step = pow2_u32((bits - 8) as u32) as usize;
        fill_stride(&mut t.data, high as usize, step, entry);
        proof {
            lemma_fill_data(lens, i as int, *old(t), *t, low, high as int, entry);
        }
    } else {
        proof {
            lemma_mod_of_high4(0, (bits - 8) as nat, high as int);
        }
        let h4 = (high % 16) as usize;
        if t.children[h4].len() == 0 {
            t.children[h4] = vec![0xffffu16; 16];
        }
        let high_top = (high / 16) as usize;
        let step = pow2_u32((bits - 12) as u32) as usize;
        fill_stride(&mut t.children[h4], high_top, step, entry);
        proof {
            lemma_fill_child(lens, i as int, *old(t), *t, low, high as int, entry);
        }
    }
}


/// Where a long code begins with the index, the direct table holds no short
/// code there.
proof fn lemma_slot_not_direct(lens: Seq<u8>, i: int, low: int, e: u16, prefixes: Seq<int>)
    requires
        lengths_valid(lens, 15),
        0 <= i < lens.len(),
        0 <= low < 256,
        9 <= lens[i] <= 15,
        code_pattern(lens, i) % 256 == low as nat,
        pattern_ok(lens, i, low, e, prefixes),
    ensures
        e == 0xffff || e / 4096 > 8,
{
    lemma2_to64();
    if e != 0xffff && e / 4096 <= 8 {
        let s = (e % 4096) as int;
        let ls = lens[s] as nat;
        let v = code_pattern(lens, i);
        lemma_matches_own_pattern(lens, i);
        assert(ls + (8 - ls) as nat == 8);
        lemma_mod_pow2_twice(v, ls, (8 - ls) as nat);
        assert(sym_matches(lens, s, v));
        lemma_match_unique(lens, 15, s, i, v);
    }
}

/// A fresh trie is right for a beginning that no earlier code has.
proof fn lemma_fresh_trie(lens: Seq<u8>, i: int, t: Trie8bit, low: int, prefixes: Seq<int>)
    requires
        lengths_valid(lens, 15),
        0 <= i <= lens.len(),
        0 <= low < 256,
        pattern_ok(lens, i, low, 0xffffu16, prefixes),
        t.data@.len() == 16,
        t.children@.len() == 16,
        forall|d: int| 0 <= d < 16 ==> #[trigger] t.data@[d] == 0xffff,
        forall|c: int| 0 <= c < 16 ==> (#[trigger] t.children@[c])@.len() == 0,
    ensures
        trie_ok(lens, i, t, low),
{
    assert forall|q: int| 0 <= q < 256 implies trie_entry_ok(
        lens,
        i,
        low + 256 * q,
        #[trigger] t.lookup(q),
    ) by {
        assert(t.children@[q % 16]@.len() == 0);
        assert(t.lookup(q) == 0xffff);
        let wn = (low + 256 * q) as nat;
        assert forall|s: int| 0 <= s < i && lens[s] > 8 implies !sym_matches(lens, s, wn) by {
            lemma_match_prefix(lens, s, wn);
            assert(!starts_like(lens, s, low as nat));
        }
    }
    assert forall|c: int| 0 <= c < 16 implies #[trigger] child_ok(lens, i, t, low, c) by {
        assert(t.children@[c]@.len() == 0);
    }
}

/// Entries of the direct table stay right when a trie is added.
proof fn lemma_pattern_more_tries(lens: Seq<u8>, i: int, p: int, e: u16, prefixes: Seq<int>, low: int)
    requires
        pattern_ok(lens, i, p, e, prefixes),
    ensures
        pattern_ok(lens, i, p, e, prefixes.push(low)),
{
    if e != 0xffff && e / 4096 > 8 {
        let s = choose|s: int| long_with_prefix(lens, i, s, p);
        assert(long_with_prefix(lens, i, s, p));
    }
}

/// The pattern of a long code: its first eight bits, and the rest.
fn split_long(code: u16, bits: u8, Ghost(lens): Ghost<Seq<u8>>, Ghost(i): Ghost<int>) -> (r: (u8, u8))
    requires
        lengths_valid(lens, 15),
        0 <= i < lens.len(),
        lens[i] == bits,
        9 <= bits <= 15,
        code as nat == code_of(lens, i),
    ensures
        code_pattern(lens, i) == r.0 + 256 * r.1,
        code_pattern(lens, i) % 256 == r.0 as nat,
        (r.1 as nat) < pow2((bits - 8) as nat),
{
    proof {
        lemma_long_pattern(lens, i, code as nat, bits as nat);
        lemma2_to64();
    }
    let k: u32 = (bits - 8) as u32;
    let hi_code: u32 = (code as u32) / pow2_u32(k);
    let lo_code: u32 = (code as u32) % pow2_u32(k);
    let low = reverse8(hi_code as u8);
    let high = reverse8((lo_code * pow2_u32(8 - k)) as u8);
    (low, high)
}

/// A trie that holds nothing.
fn fresh_trie() -> (t: Trie8bit)
    ensures
        t.data@.len() == 16,
        t.children@.len() == 16,
        forall|d: int| 0 <= d < 16 ==> #[trigger] t.data@[d] == 0xffff,
        forall|c: int| 0 <= c < 16 ==> (#[trigger] t.children@[c])@.len() == 0,
{
    let mut children: Vec<Vec<u16>> = Vec::new();
    let mut c: usize = 0;
    while c < 16
        invariant
            c <= 16,
            children@.len() == c,
            forall|j: int| 0 <= j < c ==> (#[trigger] children@[j])@.len() == 0,
        decreases 16 - c,
    {
        children.push(Vec::new());
        c = c + 1;
    }
    Trie8bit { data: vec![0xffffu16; 16], children }
}

/// Enters the code of symbol `i`, of nine bits or more: the direct table
/// leads on to a trie, made here if it is the first for these eight bits.
fn insert_long(
    patterns: &mut Vec<u16>,
    rest: &mut Vec<Trie8bit>,
    i: usize,
    code: u16,
    bits: u8,
    Ghost(lens): Ghost<Seq<u8>>,
    Ghost(prefixes): Ghost<Seq<int>>,
) -> (r: Ghost<Seq<int>>)
    requires
        lengths_valid(lens, 15),
        i < lens.len() < 2048,
        lens[i as int] == bits,
        9 <= bits <= 15,
        code as nat == code_of(lens, i as int),
        tables_ok(lens, i as int, old(patterns)@, old(rest)@, prefixes),
    ensures
        tables_ok(lens, i + 1, final(patterns)@, final(rest)@, r@),
{
    let entry: u16 = i as u16 + (bits as u16) * 4096;
    let (low, high) = split_long(code, bits, Ghost(lens), Ghost(i as int));
    proof {
        lemma_long_slot(lens, i as int, patterns@, rest@, prefixes, low as int);
    }
    let e = patterns[low as usize];
    let min_bits: u8;
    let idx: usize;
    let ghost new_prefixes: Seq<int>;
    if e != 0xffff {
        let bits_prev = (e / 4096) as u8;
        min_bits = if bits_prev < bits {
            bits_prev
        } else {
            bits
        };
        idx = (e % 2048) as usize;
        proof {
            new_prefixes = prefixes;
        }
    } else {
        let t = fresh_trie();
        proof {
            lemma_fresh_trie(lens, i as int, t, low as int, prefixes);
            new_prefixes = prefixes.push(low as int);
        }
        rest.push(t);
        min_bits = bits;
        idx = rest.len() - 1;
    }
    let ghost rest1 = rest@;
    proof {
        assert(new_prefixes.len() == rest1.len());
        assert(idx < rest1.len());
        assert(new_prefixes[idx as int] == low);
        assert(trie_ok(lens, i as int, rest1[idx as int], low as int));
    }
    patterns[low as usize] = idx as u16 + 2048 + (min_bits as u16) * 4096;
    trie_insert(&mut rest[idx], i, bits, high, entry, Ghost(lens), Ghost(low as int));
    proof {
        let ptr = patterns@[low as int];
        assert(ptr % 4096 >= 2048 && ptr / 4096 == min_bits && ptr % 2048 == idx && ptr != 0xffff);
        assert(patterns@ =~= old(patterns)@.update(low as int, ptr));
        assert forall|t: int| 0 <= t < old(rest)@.len() && t != idx implies #[trigger] rest@[t]
            == old(rest)@[t] by {
            assert(rest1[t] == old(rest)@[t]);
        }
        lemma_long_done(
            lens,
            i as int,
            old(patterns)@,
            patterns@,
            old(rest)@,
            rest@,
            prefixes,
            new_prefixes,
            low as int,
            idx as int,
            e,
            ptr,
        );
    }
    Ghost(new_prefixes)
}

/// A decoder for one canonical Huffman code.
pub struct DynHuffman16 {
    patterns: Vec<u16>,
    rest: Vec<Trie8bit>,
    lens: Ghost<Seq<u8>>,
    prefixes: Ghost<Seq<int>>,
}

impl DynHuffman16 {
    /// The code lengths that the decoder was built from.
    pub closed spec fn lens(&self) -> Seq<u8> {
        self.lens@
    }

    /// The tables hold exactly the codes that the lengths stand for.
    pub closed spec fn wf(&self) -> bool {
        &&& lengths_valid(self.lens@, 15)
        &&& self.lens@.len() < 2048
        &&& tables_ok(self.lens@, self.lens@.len() as int, self.patterns@, self.rest@, self.prefixes@)
    }

    /// The lengths of a decoder are those of a prefix code.
    pub proof fn lemma_wf_valid(&self)
        requires
            self.wf(),
        ensures
            lengths_valid(self.lens(), 15),
            self.lens().len() < 2048,
    {
    }

    /// A short code that the direct table names is the code at the front of
    /// the bits, once all of it is there.
    proof fn lemma_lookup_direct(&self, bits: BitSeq, e: u16)
        requires
            self.wf(),
            e == self.patterns@[(bits.value % 256) as int],
            e / 4096 <= 8,
        ensures
            (e % 4096) < self.lens@.len(),
            1 <= e / 4096,
            (e / 4096) as nat <= bits.len ==> decode(self.lens@, bits) == (Decoded::Symbol {
                sym: (e % 4096) as int,
                len: (e / 4096) as nat,
            }),
            (e / 4096) as nat > bits.len ==> decode(self.lens@, bits) == Decoded::NeedMore,
    {
        reveal(tables_ok);
        lemma2_to64();
        let lens = self.lens@;
        let p = (bits.value % 256) as int;
        let s = (e % 4096) as int;
        let l = (e / 4096) as nat;
        assert(pattern_ok(lens, lens.len() as int, p, self.patterns@[p], self.prefixes@));
        assert(l + (8 - l) as nat == 8);
        lemma_mod_pow2_twice(bits.value, l, (8 - l) as nat);
        assert(sym_matches(lens, s, bits.value));
        assert forall|s2: int| matches_within(lens, s2, bits) implies s2 == s by {
            lemma_match_unique(lens, 15, s2, s, bits.value);
        }
        if l <= bits.len {
            assert(matches_within(lens, s, bits));
        }
    }

    /// Where the direct table holds nothing, no code begins with these bits.
    proof fn lemma_lookup_unassigned(&self, bits: BitSeq)
        requires
            self.wf(),
            self.patterns@[(bits.value % 256) as int] == 0xffff,
        ensures
            bits.len >= 8 ==> decode(self.lens@, bits) == Decoded::Invalid,
            bits.len < 8 ==> decode(self.lens@, bits) == Decoded::NeedMore,
    {
        reveal(tables_ok);
        lemma2_to64();
        let lens = self.lens@;
        let pn = bits.value % 256;
        let p = pn as int;
        assert(p as nat == pn);
        assert(pattern_ok(lens, lens.len() as int, p, self.patterns@[p], self.prefixes@));
        assert forall|s: int| 0 <= s < lens.len() implies !starts_like(lens, s, pn) by {}
        assert forall|s: int| sym_matches(lens, s, bits.value) implies false by {
            assert(!starts_like(lens, s, pn));
            let l = lens[s] as nat;
            if l <= 8 {
                assert(l + (8 - l) as nat == 8);
                lemma_mod_pow2_twice(bits.value, l, (8 - l) as nat);
            } else {
                lemma_match_prefix(lens, s, bits.value);
            }
        }
        assert forall|s: int| !starts_like(lens, s, pn) by {}
    }

    /// Where the direct table leads on to a trie, no short code stands at the
    /// front of the bits, and some long code begins like them.
    proof fn lemma_pointer_shape(&self, bits: BitSeq, e: u16)
        requires
            self.wf(),
            e == self.patterns@[(bits.value % 256) as int],
            e != 0xffff,
            e / 4096 > 8,
        ensures
            (e % 2048) < self.rest@.len(),
            self.rest@[(e % 2048) as int].shaped(),
            bits.len <= 8 ==> decode(self.lens@, bits) == Decoded::NeedMore,
    {
        self.lemma_lookup_pointer(bits, e);
    }

    proof fn lemma_lookup_pointer(&self, bits: BitSeq, e: u16)
        requires
            self.wf(),
            e == self.patterns@[(bits.value % 256) as int],
            e != 0xffff,
            e / 4096 > 8,
        ensures
            (e % 2048) < self.rest@.len(),
            trie_ok(
                self.lens@,
                self.lens@.len() as int,
                self.rest@[(e % 2048) as int],
                (bits.value % 256) as int,
            ),
            begins_code(self.lens@, bits.value % 256),
            forall|s: int| sym_matches(self.lens@, s, bits.value) ==> self.lens@[s] > 8,
            bits.len <= 8 ==> decode(self.lens@, bits) == Decoded::NeedMore,
    {
        reveal(tables_ok);
        lemma2_to64();
        let lens = self.lens@;
        let pn = bits.value % 256;
        let p = pn as int;
        assert(pattern_ok(lens, lens.len() as int, p, self.patterns@[p], self.prefixes@));
        let idx = (e % 2048) as int;
        assert(trie_ok(lens, lens.len() as int, self.rest@[idx], self.prefixes@[idx]));
        let j = choose|j: int| long_with_prefix(lens, lens.len() as int, j, p);
        assert(starts_like(lens, j, pn));
        let vj = code_pattern(lens, j);
        lemma_matches_own_pattern(lens, j);
        assert forall|s: int| sym_matches(lens, s, bits.value) implies lens[s] > 8 by {
            let l = lens[s] as nat;
            if l <= 8 {
                assert(l + (8 - l) as nat == 8);
                lemma_mod_pow2_twice(bits.value, l, (8 - l) as nat);
                lemma_mod_pow2_twice(vj, l, (8 - l) as nat);
                assert(sym_matches(lens, s, vj));
                lemma_match_unique(lens, 15, s, j, vj);
            }
        }
    }

    /// What the entry of the trie says of the code at the front of the bits.
    proof fn lemma_lookup_trie(&self, bits: BitSeq, e: u16, e2: u16)
        requires
            self.wf(),
            bits.wf(),
            bits.len >= 8,
            e == self.patterns@[(bits.value % 256) as int],
            e != 0xffff,
            e / 4096 > 8,
            (e % 2048) < self.rest@.len(),
            e2 == self.rest@[(e % 2048) as int].lookup(((bits.value / 256) % 256) as int),
        ensures
            e2 != 0xffff ==> (e2 % 4096) < self.lens@.len() && 9 <= e2 / 4096 <= 15,
            e2 != 0xffff && (e2 / 4096) as nat <= bits.len ==> decode(self.lens@, bits) == (
            Decoded::Symbol { sym: (e2 % 4096) as int, len: (e2 / 4096) as nat }),
            e2 != 0xffff && (e2 / 4096) as nat > bits.len ==> decode(self.lens@, bits)
                == Decoded::NeedMore,
            e2 == 0xffff && bits.len >= 15 ==> decode(self.lens@, bits) == Decoded::Invalid,
            e2 == 0xffff && bits.len < 15 ==> decode(self.lens@, bits) == Decoded::NeedMore,
    {
        self.lemma_lookup_pointer(bits, e);
        lemma2_to64();
        let lens = self.lens@;
        let n = lens.len() as int;
        let p = (bits.value % 256) as int;
        let q = ((bits.value / 256) % 256) as int;
        let w = (p + 256 * q) as nat;
        let t = self.rest@[(e % 2048) as int];
        assert(trie_entry_ok(lens, n, p + 256 * q, t.lookup(q)));
        crate::arith::lemma_mod_pow2_breakdown(bits.value, 8, 8);
        assert(w == bits.value % 65536);
        // A code matches the bits exactly if it matches their first sixteen.
        assert forall|s: int| 0 <= s < n && lens[s] > 0 implies sym_matches(lens, s, bits.value)
            == sym_matches(lens, s, w) by {
            let l = lens[s] as nat;
            assert(l + (16 - l) as nat == 16);
            lemma_mod_pow2_twice(bits.value, l, (16 - l) as nat);
        }
        if e2 != 0xffff {
            let s = (e2 % 4096) as int;
            assert(sym_matches(lens, s, bits.value));
            assert forall|s2: int| matches_within(lens, s2, bits) implies s2 == s by {
                lemma_match_unique(lens, 15, s2, s, bits.value);
            }
            if (e2 / 4096) as nat <= bits.len {
                assert(matches_within(lens, s, bits));
            }
        } else {
            assert forall|s: int| !matches_within(lens, s, bits) by {
                if sym_matches(lens, s, bits.value) {
                    assert(lens[s] > 8);
                    assert(!sym_matches(lens, s, w));
                }
            }
        }
    }

    /// The direct table has 256 entries.
    proof fn lemma_shape(&self)
        requires
            self.wf(),
        ensures
            self.patterns@.len() == 256,
    {
        reveal(tables_ok);
    }

    /// Reads the next symbol. Returns it with the pending bits as they were
    /// just before it was removed, or nothing if the input ends within its
    /// code; fails where the bits are the code of no symbol.
    pub fn read(&self, stream: &mut BitStream) -> (r: Result<Option<(BitState, u16)>, InflateError>)
        requires
            self.wf(),
            old(stream).wf(),
        ensures
            final(stream).wf(),
            final(stream).data@ == old(stream).data@,
            final(stream).used >= old(stream).used,
            read_result(self.lens(), *old(stream), *final(stream), r),
            read_pulls(self.lens(), *old(stream), *final(stream), r),
    {
        let has8 = stream.need(8);
        let v = stream.state.v;
        let ghost all = stream.bits();
        proof {
            stream.lemma_peek8();
            self.lemma_shape();
        }
        let entry = self.patterns[(v % 256) as usize];
        let bits = (entry / 4096) as u8;
        if entry == 0xffff {
            proof {
                self.lemma_lookup_unassigned(all);
            }
            if has8 {
                Err(InflateError::BadCode)
            } else {
                Ok(None)
            }
        } else if bits <= 8 {
            proof {
                self.lemma_lookup_direct(all, entry);
            }
            if has8 || bits <= stream.state.n {
                let save = stream.state;
                stream.consume(bits);
                Ok(Some((save, entry % 4096)))
            } else {
                Ok(None)
            }
        } else if !has8 {
            proof {
                self.lemma_pointer_shape(all, entry);
            }
            Ok(None)
        } else {
            let has16 = stream.need(16);
            self.read_long(stream, entry, has16)
        }
    }

    /// Goes on through the trie that `entry` of the direct table leads to.
    #[verifier::rlimit(40)]
    fn read_long(&self, stream: &mut BitStream, entry: u16, has16: bool) -> (r: Result<
        Option<(BitState, u16)>,
        InflateError,
    >)
        requires
            self.wf(),
            old(stream).wf(),
            old(stream).state.n >= 8,
            self.patterns@.len() == 256,
            entry == self.patterns@[(old(stream).bits().value % 256) as int],
            entry != 0xffff,
            entry / 4096 > 8,
            has16 == (16 <= old(stream).bits().len),
            has16 ==> old(stream).state.n >= 16,
            !has16 ==> old(stream).used == old(stream).data@.len(),
        ensures
            final(stream).wf(),
            final(stream).data@ == old(stream).data@,
            final(stream).used >= old(stream).used,
            read_result(self.lens(), *old(stream), *final(stream), r),
            final(stream).used == old(stream).used,
            r matches Ok(Some(_)) ==> decode(self.lens(), old(stream).bits())->Symbol_len > 8,
    {
        let ghost all = stream.bits();
        proof {
            self.lemma_pointer_shape(all, entry);
        }
        let trie = &self.rest[(entry % 2048) as usize];
        let idx = stream.state.v / 256;
        let d = (idx % 16) as usize;
        let trie_entry = if trie.children[d].len() != 0 {
            trie.children[d][((idx / 16) % 16) as usize]
        } else {
            trie.data[d]
        };
        let trie_bits = (trie_entry / 4096) as u8;
        proof {
            stream.lemma_peek();
            let q = ((all.value / 256) % 256) as int;
            assert(q == (idx % 256) as int);
            assert(q % 16 == d);
            assert(q / 16 == (idx / 16) % 16);
            assert(trie_entry == trie.lookup(q));
            self.lemma_lookup_trie(all, entry, trie_entry);
        }
        if trie_entry == 0xffff {
            if has16 || stream.state.n >= 15 {
                Err(InflateError::BadCode)
            } else {
                Ok(None)
            }
        } else if has16 || trie_bits <= stream.state.n {
            let save = stream.state;
            stream.consume(trie_bits);
            Ok(Some((save, trie_entry % 4096)))
        } else {
            Ok(None)
        }
    }

    /// Builds the decoder for the canonical code with the given lengths.
    /// Fails where no prefix code has these lengths.
    pub fn new(clens: &[u8]) -> (r: Result<DynHuffman16, InflateError>)
        requires
            clens@.len() < 2048,
        ensures
            match r {
                Ok(h) => h.wf() && h.lens() == clens@ && lengths_valid(clens@, 15),
                Err(e) => e == InflateError::BadCodeLengths && !lengths_valid(clens@, 15),
            },
    {
        let codes = match canonical_codes(clens, 15) {
            Some(codes) => codes,
            None => {
                return Err(InflateError::BadCodeLengths);
            },
        };
        let ghost lens = clens@;
        // Fill in the 8-bit patterns that match each code.
        // Longer patterns go into the trie.
        let mut patterns: Vec<u16> = vec![0xffffu16; 256];
        let mut rest: Vec<Trie8bit> = Vec::new();
        let mut prefixes: Ghost<Seq<int>> = Ghost(Seq::empty());
        proof {
            reveal(tables_ok);
        }
        let n = clens.len();
        let mut i: usize = 0;
        while i < n
            invariant
                i <= n,
                n == lens.len(),
                n < 2048,
                lens == clens@,
                lengths_valid(lens, 15),
                codes@.len() == n,
                forall|j: int|
                    0 <= j < n ==> codes@[j] as nat == if lens[j] == 0 {
                        0
                    } else {
                        code_of(lens, j)
                    },
                tables_ok(lens, i as int, patterns@, rest@, prefixes@),
            decreases n - i,
        {
            let bits = clens[i];
            if bits == 0 {
                proof {
                    lemma_skip_symbol(lens, i as int, patterns@, rest@, prefixes@);
                }
            } else if bits <= 8 {
                insert_short(&mut patterns, i, codes[i], bits, Ghost(lens), Ghost(rest@), prefixes);
            } else {
                prefixes = insert_long(&mut patterns, &mut rest, i, codes[i], bits, Ghost(lens), prefixes);
            }
            i = i + 1;
        }
        Ok(DynHuffman16 { patterns, rest, lens: Ghost(lens), prefixes })
    }
}

/// A symbol without a code changes nothing.
proof fn lemma_skip_symbol(
    lens: Seq<u8>,
    i: int,
    patterns: Seq<u16>,
    rest: Seq<Trie8bit>,
    prefixes: Seq<int>,
)
    requires
        lengths_valid(lens, 15),
        0 <= i < lens.len(),
        lens[i] == 0,
        tables_ok(lens, i, patterns, rest, prefixes),
    ensures
        tables_ok(lens, i + 1, patterns, rest, prefixes),
{
    reveal(tables_ok);
    assert forall|p: int| 0 <= p < 256 implies pattern_ok(
        lens,
        i + 1,
        p,
        #[trigger] patterns[p],
        prefixes,
    ) by {
        assert(pattern_ok(lens, i, p, patterns[p], prefixes));
        lemma_frame_pattern(lens, i, p, patterns[p], prefixes);
    }
    assert forall|t: int| 0 <= t < rest.len() implies trie_ok(
        lens,
        i + 1,
        #[trigger] rest[t],
        prefixes[t],
    ) by {
        lemma_frame_trie(lens, i, rest[t], prefixes[t]);
    }
}


/// Once the direct table leads to the trie of symbol `i` and that trie holds
/// its code, the tables are right for one symbol more.
proof fn lemma_long_slot(
    lens: Seq<u8>,
    i: int,
    patterns: Seq<u16>,
    rest: Seq<Trie8bit>,
    prefixes: Seq<int>,
    low: int,
)
    requires
        lengths_valid(lens, 15),
        0 <= i < lens.len(),
        0 <= low < 256,
        9 <= lens[i] <= 15,
        code_pattern(lens, i) % 256 == low as nat,
        tables_ok(lens, i, patterns, rest, prefixes),
    ensures
        patterns.len() == 256,
        prefixes.len() == rest.len(),
        rest.len() <= i,
        pattern_ok(lens, i, low, patterns[low], prefixes),
        patterns[low] != 0xffff ==> {
            let e = patterns[low];
            &&& 9 <= e / 4096 <= 15
            &&& e % 2048 < rest.len()
            &&& prefixes[(e % 2048) as int] == low
            &&& trie_ok(lens, i, rest[(e % 2048) as int], low)
        },
{
    reveal(tables_ok);
    let e = patterns[low];
    assert(pattern_ok(lens, i, low, e, prefixes));
    lemma_slot_not_direct(lens, i, low, e, prefixes);
    if e != 0xffff {
        let idx = (e % 2048) as int;
        assert(trie_ok(lens, i, rest[idx], prefixes[idx]));
    }
}

proof fn lemma_long_done(
    lens: Seq<u8>,
    i: int,
    old_p: Seq<u16>,
    new_p: Seq<u16>,
    old_rest: Seq<Trie8bit>,
    new_rest: Seq<Trie8bit>,
    prefixes: Seq<int>,
    new_prefixes: Seq<int>,
    low: int,
    idx: int,
    e: u16,
    ptr: u16,
)
    requires
        lengths_valid(lens, 15),
        0 <= i < lens.len(),
        9 <= lens[i] <= 15,
        0 <= low < 256,
        code_pattern(lens, i) % 256 == low as nat,
        tables_ok(lens, i, old_p, old_rest, prefixes),
        e == old_p[low],
        new_p == old_p.update(low, ptr),
        ptr % 4096 >= 2048,
        9 <= ptr / 4096 <= 15,
        ptr % 2048 == idx,
        ptr != 0xffff,
        e == 0xffff ==> idx == old_rest.len() && new_prefixes == prefixes.push(low) && new_rest.len()
            == old_rest.len() + 1,
        e != 0xffff ==> e / 4096 > 8 && idx == e % 2048 && new_prefixes == prefixes && new_rest.len()
            == old_rest.len(),
        forall|t: int| 0 <= t < old_rest.len() && t != idx ==> #[trigger] new_rest[t] == old_rest[t],
        0 <= idx < new_rest.len(),
        trie_ok(lens, i + 1, new_rest[idx], low),
    ensures
        tables_ok(lens, i + 1, new_p, new_rest, new_prefixes),
{
    reveal(tables_ok);
    assert(pattern_ok(lens, i, low, e, prefixes));
    assert(new_prefixes.len() == new_rest.len());
    assert(new_prefixes[idx] == low);
    assert(long_with_prefix(lens, i + 1, i, low));
    // No other trie belongs to these eight bits.
    assert forall|t: int| 0 <= t < old_rest.len() && t != idx implies #[trigger] prefixes[t]
        != low by {
        assert(trie_ok(lens, i, old_rest[t], prefixes[t]));
        let et = old_p[prefixes[t]];
        assert(et != 0xffff && et / 4096 > 8 && et % 2048 == t);
    }
    assert forall|p: int| 0 <= p < 256 implies pattern_ok(
        lens,
        i + 1,
        p,
        #[trigger] new_p[p],
        new_prefixes,
    ) by {
        if p == low {
            assert(pointer_ok(lens, i + 1, p, ptr, new_prefixes));
        } else {
            assert(pattern_ok(lens, i, p, old_p[p], prefixes));
            lemma_frame_pattern(lens, i, p, old_p[p], prefixes);
            if e == 0xffff {
                lemma_pattern_more_tries(lens, i + 1, p, old_p[p], prefixes, low);
            }
        }
    }
    assert forall|t: int| 0 <= t < new_rest.len() implies trie_ok(
        lens,
        i + 1,
        #[trigger] new_rest[t],
        new_prefixes[t],
    ) by {
        if t != idx {
            assert(new_rest[t] == old_rest[t]);
            assert(trie_ok(lens, i, old_rest[t], prefixes[t]));
            assert(prefixes[t] != low);
            lemma_frame_trie(lens, i, old_rest[t], prefixes[t]);
        }
    }
    assert forall|t: int| 0 <= t < new_rest.len() implies {
        let e2 = new_p[#[trigger] new_prefixes[t]];
        e2 != 0xffff && e2 / 4096 > 8 && e2 % 2048 == t
    } by {
        if t != idx {
            assert(trie_ok(lens, i, old_rest[t], prefixes[t]));
            assert(prefixes[t] != low);
            assert(new_prefixes[t] == prefixes[t]);
            let et = old_p[prefixes[t]];
            assert(et != 0xffff && et / 4096 > 8 && et % 2048 == t);
            assert(new_p[prefixes[t]] == et);
        } else {
            assert(new_p[low] == ptr);
        }
    }
}

} // verus!
