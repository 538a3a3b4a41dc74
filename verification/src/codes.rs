//! Canonical Huffman codes: the codes that a table of code lengths stands for.
//!
//! Among the symbols of one length the codes are consecutive, in the order of
//! the symbols; the first code of a length follows from the shorter lengths.

use vstd::prelude::*;
use vstd::arithmetic::power2::*;
use vstd::arithmetic::div_mod::*;
use vstd::arithmetic::mul::*;
use crate::arith::{lemma_pow2_split, lemma_pow2_monotone, lemma_low_part, lemma_small_pow2, lemma_mod_pow2_twice, lemma_div_pow2_bound};
use crate::reverse::{rev_bits, lemma_rev_bound, lemma_rev_split, lemma_rev_injective};

verus! {

/// How many of the first `upto` symbols have the length `l`.
pub open spec fn count_len(lens: Seq<u8>, upto: int, l: nat) -> nat
    decreases upto,
{
    if upto <= 0 {
        0
    } else {
        count_len(lens, upto - 1, l) + if lens[upto - 1] as nat == l {
            1nat
        } else {
            0nat
        }
    }
}

/// How many symbols have a code of `l` bits. Length zero means "no code".
pub open spec fn bl_count(lens: Seq<u8>, l: nat) -> nat {
    if l == 0 {
        0
    } else {
        count_len(lens, lens.len() as int, l)
    }
}

/// The first code of `l` bits.
pub open spec fn first_code(lens: Seq<u8>, l: nat) -> nat
    decreases l,
{
    if l == 0 {
        0
    } else {
        2 * (first_code(lens, (l - 1) as nat) + bl_count(lens, (l - 1) as nat))
    }
}

/// The code of symbol `i`: the first code of its length, plus the number of
/// earlier symbols of the same length.
pub open spec fn code_of(lens: Seq<u8>, i: int) -> nat {
    first_code(lens, lens[i] as nat) + count_len(lens, i, lens[i] as nat)
}

/// No length is above `max`, and for every length the codes fit in that many
/// bits (the table is not over-subscribed).
pub open spec fn lengths_valid(lens: Seq<u8>, max: nat) -> bool {
    &&& forall|i: int| 0 <= i < lens.len() ==> lens[i] as nat <= max
    &&& forall|l: nat| 1 <= l <= max ==> first_code(lens, l) + bl_count(lens, l) <= pow2(l)
}

/// The counts grow with the number of symbols looked at.
pub proof fn lemma_count_monotone(lens: Seq<u8>, i: int, j: int, l: nat)
    requires
        i <= j,
    ensures
        count_len(lens, i, l) <= count_len(lens, j, l),
    decreases j - i,
{
    if i < j {
        lemma_count_monotone(lens, i, j - 1, l);
    }
    if j <= 0 {
        assert(count_len(lens, i, l) == 0);
    }
}

/// A symbol of length `l` is counted from the position after it on.
pub proof fn lemma_count_includes(lens: Seq<u8>, i: int, j: int, l: nat)
    requires
        0 <= i < j,
        lens[i] as nat == l,
    ensures
        count_len(lens, i, l) < count_len(lens, j, l),
{
    assert(count_len(lens, i + 1, l) == count_len(lens, i, l) + 1);
    lemma_count_monotone(lens, i + 1, j, l);
}

/// Every code of a valid table fits in as many bits as its length.
pub proof fn lemma_code_fits(lens: Seq<u8>, max: nat, i: int)
    requires
        lengths_valid(lens, max),
        0 <= i < lens.len(),
        lens[i] > 0,
    ensures
        code_of(lens, i) < pow2(lens[i] as nat),
{
    let l = lens[i] as nat;
    lemma_count_includes(lens, i, lens.len() as int, l);
}

/// The first code of a longer length lies above every code of a shorter
/// length, extended by zeros.
pub proof fn lemma_first_code_above(lens: Seq<u8>, a: nat, b: nat)
    requires
        a < b,
    ensures
        first_code(lens, b) >= pow2((b - a) as nat) * (first_code(lens, a) + bl_count(lens, a)),
    decreases b - a,
{
    lemma2_to64();
    let x = first_code(lens, a) + bl_count(lens, a);
    if b == a + 1 {
        assert(first_code(lens, b) == 2 * x);
        assert(pow2(1) * x == 2 * x);
    } else {
        let b1 = (b - 1) as nat;
        lemma_first_code_above(lens, a, b1);
        let d1 = (b1 - a) as nat;
        lemma_pow2_split(d1, 1);
        assert(d1 + 1 == (b - a) as nat);
        assert(first_code(lens, b) >= 2 * first_code(lens, b1));
        assert(pow2((b - a) as nat) * x == 2 * (pow2(d1) * x)) by {
            lemma_mul_is_associative(pow2(d1) as int, 2, x as int);
            lemma_mul_is_commutative(pow2(d1) as int, 2);
            lemma_mul_is_associative(2, pow2(d1) as int, x as int);
        }
    }
}

/// No code of a valid table is the beginning of another: cut down to the
/// length of a shorter (or equally long) code, a code differs from it.
pub proof fn lemma_prefix_free(lens: Seq<u8>, max: nat, a: int, b: int)
    requires
        lengths_valid(lens, max),
        0 <= a < lens.len(),
        0 <= b < lens.len(),
        a != b,
        0 < lens[a] <= lens[b],
    ensures
        code_of(lens, b) / pow2((lens[b] - lens[a]) as nat) != code_of(lens, a),
{
    let la = lens[a] as nat;
    let lb = lens[b] as nat;
    lemma2_to64();
    if la == lb {
        assert(code_of(lens, b) / 1 == code_of(lens, b));
        if a < b {
            lemma_count_includes(lens, a, b, la);
        } else {
            lemma_count_includes(lens, b, a, la);
        }
    } else {
        let d = (lb - la) as nat;
        let x = first_code(lens, la) + bl_count(lens, la);
        lemma_first_code_above(lens, la, lb);
        lemma_count_includes(lens, a, lens.len() as int, la);
        assert(code_of(lens, a) < x);
        assert(code_of(lens, b) >= pow2(d) * x);
        lemma_pow2_split(d, 0);
        // code_b / 2^d >= x
        lemma_div_is_ordered((pow2(d) * x) as int, code_of(lens, b) as int, pow2(d) as int);
        lemma_div_multiples_vanish(x as int, pow2(d) as int);
        assert((pow2(d) * x) / pow2(d) == x) by {
            lemma_mul_is_commutative(pow2(d) as int, x as int);
        }
    }
}

/// Codes of equal length are consecutive in the order of the symbols.
pub proof fn lemma_codes_consecutive(lens: Seq<u8>, a: int, b: int)
    requires
        0 <= a < b < lens.len(),
        lens[a] == lens[b],
        forall|k: int| a < k < b ==> lens[k] != lens[a],
    ensures
        code_of(lens, b) == code_of(lens, a) + 1,
    decreases b - a,
{
    let l = lens[a] as nat;
    if b == a + 1 {
        assert(count_len(lens, b, l) == count_len(lens, a, l) + 1);
    } else {
        assert(count_len(lens, b, l) == count_len(lens, b - 1, l));
        lemma_same_count(lens, a, b - 1, l);
    }
}

proof fn lemma_same_count(lens: Seq<u8>, a: int, b: int, l: nat)
    requires
        0 <= a < b <= lens.len(),
        lens[a] as nat == l,
        forall|k: int| a < k < b ==> lens[k] as nat != l,
    ensures
        count_len(lens, b, l) == count_len(lens, a, l) + 1,
    decreases b - a,
{
    if b > a + 1 {
        lemma_same_count(lens, a, b - 1, l);
    }
}

/// Works out the canonical code of every symbol, or finds that the lengths
/// stand for no code. A symbol of length zero gets the entry 0.
pub fn canonical_codes(lens: &[u8], max_bits: u8) -> (r: Option<Vec<u16>>)
    requires
        1 <= max_bits <= 15,
        lens@.len() <= 0x1_0000,
    ensures
        match r {
            Some(codes) => {
                &&& lengths_valid(lens@, max_bits as nat)
                &&& codes@.len() == lens@.len()
                &&& forall|i: int|
                    0 <= i < lens@.len() ==> codes@[i] as nat == if lens@[i] == 0 {
                        0
                    } else {
                        code_of(lens@, i)
                    }
            },
            None => !lengths_valid(lens@, max_bits as nat),
        },
{
    let n = lens.len();
    let size = max_bits as usize + 1;
    // Count the number of codes for each bit length.
    let mut counts: Vec<u32> = vec![0u32; size];
    let mut i: usize = 0;
    while i < n
        invariant
            i <= n,
            n == lens@.len(),
            n <= 0x1_0000,
            size == max_bits + 1,
            counts@.len() == size,
            counts@[0] == 0,
            forall|j: int| 0 <= j < i ==> lens@[j] <= max_bits,
            forall|l: int| 1 <= l < size ==> counts@[l] as nat == count_len(lens@, i as int, l as nat),
            forall|l: int| 0 <= l < size ==> counts@[l] <= i,
        decreases n - i,
    {
        let bits = lens[i];
        if bits > max_bits {
            return None;
        }
        if bits != 0 {
            let c = counts[bits as usize];
            counts[bits as usize] = c + 1;
        }
        i = i + 1;
    }
    assert forall|l: nat| 0 <= l <= max_bits implies counts@[l as int] as nat == bl_count(lens@, l) by {}
    // Compute the first code value for each bit length.
    let mut next_code: Vec<u32> = vec![0u32; size];
    let mut bits: usize = 1;
    proof {
        lemma2_to64();
    }
    while bits < size
        invariant
            1 <= bits <= size,
            size == max_bits + 1,
            max_bits <= 15,
            n == lens@.len(),
            n <= 0x1_0000,
            counts@.len() == size,
            next_code@.len() == size,
            forall|l: nat| 0 <= l <= max_bits ==> counts@[l as int] as nat == bl_count(lens@, l),
            forall|l: int| 0 <= l < size ==> counts@[l] <= 0x1_0000,
            forall|l: int| 0 <= l < bits ==> next_code@[l] as nat == first_code(lens@, l as nat),
            forall|l: nat| 1 <= l < bits ==> first_code(lens@, l) + bl_count(lens@, l) <= pow2(l),
            forall|j: int| 0 <= j < n ==> lens@[j] <= max_bits,
        decreases size - bits,
    {
        proof {
            let p = (bits - 1) as nat;
            lemma_pow2_monotone(p, 14);
            lemma_pow2_monotone(bits as nat, 15);
            lemma_pow2_split(p, 1);
            assert(p + 1 == bits);
            lemma2_to64();
            assert(first_code(lens@, p) + bl_count(lens@, p) <= pow2(p));
        }
        let code = (next_code[bits - 1] + counts[bits - 1]) * 2;
        if code + counts[bits] > pow2_u32(bits as u32) {
            return None;
        }
        next_code[bits] = code;
        bits = bits + 1;
    }
    let mut codes: Vec<u16> = Vec::new();
    let mut i: usize = 0;
    while i < n
        invariant
            i <= n,
            n == lens@.len(),
            size == max_bits + 1,
            max_bits <= 15,
            next_code@.len() == size,
            codes@.len() == i,
            lengths_valid(lens@, max_bits as nat),
            forall|l: int|
                1 <= l < size ==> next_code@[l] as nat == first_code(lens@, l as nat) + count_len(
                    lens@,
                    i as int,
                    l as nat,
                ),
            forall|j: int|
                0 <= j < i ==> codes@[j] as nat == if lens@[j] == 0 {
                    0
                } else {
                    code_of(lens@, j)
                },
        decreases n - i,
    {
        let bits = lens[i];
        if bits != 0 {
            proof {
                lemma_code_fits(lens@, max_bits as nat, i as int);
                lemma_pow2_monotone(bits as nat, 15);
                lemma2_to64();
            }
            let code = next_code[bits as usize];
            next_code[bits as usize] = code + 1;
            codes.push(code as u16);
        } else {
            codes.push(0);
        }
        i = i + 1;
    }
    Some(codes)
}

/// `2^n` as a machine number.
pub fn pow2_u32(n: u32) -> (r: u32)
    requires
        n <= 24,
    ensures
        r == pow2(n as nat),
{
    proof {
        crate::bits::lemma_one_shl(n);
    }
    1u32 << n
}

} // verus!

verus! {

/// The code of symbol `s` as it stands in the input: its bits in the order in
/// which they are read, first bit least significant.
pub open spec fn code_pattern(lens: Seq<u8>, s: int) -> nat {
    rev_bits(code_of(lens, s), lens[s] as nat)
}

/// The code of symbol `s` stands at the front of the bits `value`.
pub open spec fn sym_matches(lens: Seq<u8>, s: int, value: nat) -> bool {
    &&& 0 <= s < lens.len()
    &&& lens[s] > 0
    &&& value % pow2(lens[s] as nat) == code_pattern(lens, s)
}

/// The pattern of a code has as many bits as the code.
pub proof fn lemma_pattern_bound(lens: Seq<u8>, s: int)
    ensures
        code_pattern(lens, s) < pow2(lens[s] as nat),
{
    lemma_rev_bound(code_of(lens, s), lens[s] as nat);
}

/// The front of the pattern of a code is the pattern of the front of the code.
pub proof fn lemma_pattern_front(c: nat, la: nat, lb: nat)
    requires
        la <= lb,
    ensures
        rev_bits(c, lb) % pow2(la) == rev_bits(c / pow2((lb - la) as nat), la),
{
    let d = (lb - la) as nat;
    assert(la + d == lb);
    lemma_rev_split(c, la, d);
    let hi = rev_bits(c / pow2(d), la);
    let lo = rev_bits(c % pow2(d), d);
    lemma_rev_bound(c / pow2(d), la);
    lemma_low_part(hi, lo, la, la);
    lemma_small_pow2(hi, la);
}

/// At most one symbol of a valid table matches given bits.
pub proof fn lemma_match_unique(lens: Seq<u8>, max: nat, a: int, b: int, value: nat)
    requires
        lengths_valid(lens, max),
        sym_matches(lens, a, value),
        sym_matches(lens, b, value),
    ensures
        a == b,
{
    if lens[a] <= lens[b] {
        lemma_match_unique_ordered(lens, max, a, b, value);
    } else {
        lemma_match_unique_ordered(lens, max, b, a, value);
    }
}

proof fn lemma_match_unique_ordered(lens: Seq<u8>, max: nat, a: int, b: int, value: nat)
    requires
        lengths_valid(lens, max),
        sym_matches(lens, a, value),
        sym_matches(lens, b, value),
        lens[a] <= lens[b],
    ensures
        a == b,
{
    if a != b {
        let la = lens[a] as nat;
        let lb = lens[b] as nat;
        let d = (lb - la) as nat;
        let ca = code_of(lens, a);
        let cb = code_of(lens, b);
        assert(la + d == lb);
        lemma_mod_pow2_twice(value, la, d);
        lemma_pattern_front(cb, la, lb);
        assert(rev_bits(cb / pow2(d), la) == rev_bits(ca, la));
        lemma_code_fits(lens, max, a);
        lemma_code_fits(lens, max, b);
        lemma_div_pow2_bound(cb, d, la);
        lemma_rev_injective(cb / pow2(d), ca, la);
        lemma_prefix_free(lens, max, a, b);
    }
}

} // verus!
