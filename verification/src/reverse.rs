//! Bit reversal. A Huffman code is sent most significant bit first, while the
//! cursor hands out bits least significant first, so a code of `n` bits is
//! compared with the input in reversed form.

use vstd::prelude::*;
use vstd::arithmetic::power2::*;
use vstd::arithmetic::div_mod::*;
use vstd::arithmetic::mul::*;
use crate::arith::{lemma_pow2_split, lemma_div_pow2_twice, lemma_div_pow2_bound, lemma_mod_pow2_breakdown, lemma_mod_pow2_twice, lemma_small_pow2, lemma_low_part};

verus! {

/// The low `n` bits of `x` in reverse order.
pub open spec fn rev_bits(x: nat, n: nat) -> nat
    decreases n,
{
    if n == 0 {
        0
    } else {
        (x % 2) * pow2((n - 1) as nat) + rev_bits(x / 2, (n - 1) as nat)
    }
}

/// A reversal of `n` bits has `n` bits.
pub proof fn lemma_rev_bound(x: nat, n: nat)
    ensures
        rev_bits(x, n) < pow2(n),
    decreases n,
{
    lemma2_to64();
    if n > 0 {
        let m = (n - 1) as nat;
        lemma_rev_bound(x / 2, m);
        lemma_pow2_split(m, 1);
        assert(m + 1 == n);
        assert((x % 2) * pow2(m) <= pow2(m)) by {
            lemma_mul_inequality((x % 2) as int, 1, pow2(m) as int);
        }
    }
}

/// Zero bits below the reversed ones come out on top and add nothing.
pub proof fn lemma_rev_shift(x: nat, n: nat, k: nat)
    ensures
        rev_bits(x * pow2(k), n + k) == rev_bits(x, n),
    decreases k,
{
    lemma2_to64();
    if k == 0 {
        assert(x * pow2(0) == x);
    } else {
        let k1 = (k - 1) as nat;
        lemma_pow2_split(k1, 1);
        assert(k1 + 1 == k);
        let y = x * pow2(k1);
        assert(x * pow2(k) == y * 2) by {
            lemma_mul_is_associative(x as int, pow2(k1) as int, 2);
        }
        assert((y * 2) % 2 == 0 && (y * 2) / 2 == y);
        lemma_rev_shift(x, n, k1);
        assert((n + k - 1) as nat == n + k1);
        assert(0 * pow2((n + k - 1) as nat) == 0);
    }
}

/// Reversing `a + b` bits puts the reversed top `a` bits in front of the
/// reversed low `b` bits.
pub proof fn lemma_rev_split(c: nat, a: nat, b: nat)
    ensures
        rev_bits(c, a + b) == rev_bits(c / pow2(b), a) + pow2(a) * rev_bits(c % pow2(b), b),
    decreases b,
{
    lemma2_to64();
    if b == 0 {
        assert(c / 1 == c);
        assert(rev_bits(c % pow2(0), 0) == 0);
        assert(pow2(a) * 0 == 0);
    } else {
        let b1 = (b - 1) as nat;
        assert(1 + b1 == b);
        assert((a + b - 1) as nat == a + b1);
        lemma_rev_split(c / 2, a, b1);
        // (c / 2) / 2^(b-1) == c / 2^b
        lemma_div_pow2_twice(c, 1, b1);
        // (c % 2^b) % 2 == c % 2, (c % 2^b) / 2 == (c / 2) % 2^(b-1)
        lemma_mod_pow2_twice(c, 1, b1);
        lemma_mod_pow2_breakdown(c, 1, b1);
        lemma_pow2_split(a, b1);
        let lo = c % pow2(b);
        let bit = c % 2;
        let r1 = rev_bits((c / 2) % pow2(b1), b1);
        assert(rev_bits(lo, b) == bit * pow2(b1) + r1);
        assert(pow2(a) * (bit * pow2(b1) + r1) == pow2(a) * (bit * pow2(b1)) + pow2(a) * r1) by {
            lemma_mul_is_distributive_add(pow2(a) as int, (bit * pow2(b1)) as int, r1 as int);
        }
        assert(pow2(a) * (bit * pow2(b1)) == bit * pow2(a + b1)) by {
            lemma_mul_is_associative(pow2(a) as int, bit as int, pow2(b1) as int);
            lemma_mul_is_commutative(pow2(a) as int, bit as int);
            lemma_mul_is_associative(bit as int, pow2(a) as int, pow2(b1) as int);
        }
    }
}

/// Reversing twice gives the number back.
pub proof fn lemma_rev_twice(x: nat, n: nat)
    requires
        x < pow2(n),
    ensures
        rev_bits(rev_bits(x, n), n) == x,
    decreases n,
{
    lemma2_to64();
    if n > 0 {
        let n1 = (n - 1) as nat;
        assert(1 + n1 == n);
        let bit = x % 2;
        let r1 = rev_bits(x / 2, n1);
        let y = rev_bits(x, n);
        lemma_rev_bound(x / 2, n1);
        // y == r1 + 2^(n-1) * bit
        assert(y == r1 + pow2(n1) * bit) by {
            lemma_mul_is_commutative(bit as int, pow2(n1) as int);
        }
        lemma_low_part(r1, bit, n1, n1);
        lemma_small_pow2(r1, n1);
        assert(pow2(0) * bit == bit);
        assert(y / pow2(n1) == bit);
        assert(y % pow2(n1) == r1);
        lemma_rev_split(y, 1, n1);
        assert(rev_bits(bit, 1) == bit) by {
            reveal_with_fuel(rev_bits, 2);
            assert(bit % 2 == bit);
            assert(bit * pow2(0) == bit);
        }
        lemma_pow2_split(1, n1);
        lemma_div_pow2_bound(x, 1, n1);
        lemma_rev_twice(x / 2, n1);
    }
}

/// Different numbers of `n` bits have different reversals.
pub proof fn lemma_rev_injective(x: nat, y: nat, n: nat)
    requires
        x < pow2(n),
        y < pow2(n),
        rev_bits(x, n) == rev_bits(y, n),
    ensures
        x == y,
{
    lemma_rev_twice(x, n);
    lemma_rev_twice(y, n);
}

proof fn lemma_reverse8_bits(b: u8, r: u8)
    by (bit_vector)
    requires
        ({
            let s1 = ((b & 0xF0) >> 4) | ((b & 0x0F) << 4);
            let s2 = ((s1 & 0xCC) >> 2) | ((s1 & 0x33) << 2);
            r == ((s2 & 0xAA) >> 1) | ((s2 & 0x55) << 1)
        }),
    ensures
        r == (b % 2) * 128 + ((b / 2) % 2) * 64 + ((b / 4) % 2) * 32 + ((b / 8) % 2) * 16 + ((b / 16)
            % 2) * 8 + ((b / 32) % 2) * 4 + ((b / 64) % 2) * 2 + ((b / 128) % 2),
{
}

/// The bits of a byte in reverse order.
pub fn reverse8(b: u8) -> (r: u8)
    ensures
        r == rev_bits(b as nat, 8),
{
    let s1 = ((b & 0xF0) >> 4) | ((b & 0x0F) << 4);
    let s2 = ((s1 & 0xCC) >> 2) | ((s1 & 0x33) << 2);
    let r = ((s2 & 0xAA) >> 1) | ((s2 & 0x55) << 1);
    proof {
        lemma_reverse8_bits(b, r);
        lemma2_to64();
        let x = b as nat;
        assert(rev_bits(x / 128 / 2, 0) == 0);
        assert(rev_bits(x / 128, 1) == (x / 128) % 2) by {
            assert(((x / 128) % 2) * pow2(0) == (x / 128) % 2);
        }
        assert(rev_bits(x / 64, 2) == ((x / 64) % 2) * 2 + rev_bits(x / 128, 1)) by {
            assert(x / 64 / 2 == x / 128);
            assert(((x / 64) % 2) * pow2(1) == ((x / 64) % 2) * 2);
        }
        assert(rev_bits(x / 32, 3) == ((x / 32) % 2) * 4 + rev_bits(x / 64, 2)) by {
            assert(x / 32 / 2 == x / 64);
            assert(((x / 32) % 2) * pow2(2) == ((x / 32) % 2) * 4);
        }
        assert(rev_bits(x / 16, 4) == ((x / 16) % 2) * 8 + rev_bits(x / 32, 3)) by {
            assert(x / 16 / 2 == x / 32);
            assert(((x / 16) % 2) * pow2(3) == ((x / 16) % 2) * 8);
        }
        assert(rev_bits(x / 8, 5) == ((x / 8) % 2) * 16 + rev_bits(x / 16, 4)) by {
            assert(x / 8 / 2 == x / 16);
            assert(((x / 8) % 2) * pow2(4) == ((x / 8) % 2) * 16);
        }
        assert(rev_bits(x / 4, 6) == ((x / 4) % 2) * 32 + rev_bits(x / 8, 5)) by {
            assert(x / 4 / 2 == x / 8);
            assert(((x / 4) % 2) * pow2(5) == ((x / 4) % 2) * 32);
        }
        assert(rev_bits(x / 2, 7) == ((x / 2) % 2) * 64 + rev_bits(x / 4, 6)) by {
            assert(x / 2 / 2 == x / 4);
            assert(((x / 2) % 2) * pow2(6) == ((x / 2) % 2) * 64);
        }
        assert(rev_bits(x, 8) == (x % 2) * 128 + rev_bits(x / 2, 7)) by {
            assert((x % 2) * pow2(7) == (x % 2) * 128);
        }
    }
    r
}

} // verus!
