//! Facts about powers of two, quotients and remainders that the bit-level
//! reasoning of the other modules rests on.

use vstd::prelude::*;
use vstd::arithmetic::power2::*;
use vstd::arithmetic::div_mod::*;
use vstd::arithmetic::mul::*;

verus! {

/// `2^(a+b) = 2^a * 2^b`, and both factors are positive.
pub proof fn lemma_pow2_split(a: nat, b: nat)
    ensures
        pow2(a + b) == pow2(a) * pow2(b),
        pow2(a) > 0,
        pow2(b) > 0,
        pow2(a + b) > 0,
{
    lemma_pow2_adds(a, b);
    lemma_pow2_pos(a);
    lemma_pow2_pos(b);
    lemma_pow2_pos(a + b);
}

/// Powers of two grow with the exponent.
pub proof fn lemma_pow2_monotone(a: nat, b: nat)
    requires
        a <= b,
    ensures
        pow2(a) <= pow2(b),
        pow2(a) > 0,
{
    lemma_pow2_pos(a);
    if a < b {
        lemma_pow2_strictly_increases(a, b);
    }
}

/// Adding a multiple of `2^n` changes neither the low `k` bits nor, beyond a
/// shift of the multiple, the bits above them, as long as `k <= n`.
pub proof fn lemma_low_part(x: nat, y: nat, n: nat, k: nat)
    requires
        k <= n,
    ensures
        (x + pow2(n) * y) % pow2(k) == x % pow2(k),
        (x + pow2(n) * y) / pow2(k) == x / pow2(k) + pow2((n - k) as nat) * y,
{
    let d = pow2(k) as int;
    let h = pow2((n - k) as nat) as int;
    lemma_pow2_split(k, (n - k) as nat);
    assert(pow2(n) == d * h);
    assert(pow2(n) * y == d * (h * y)) by {
        lemma_mul_is_associative(d, h, y as int);
    }
    let q = x as int / d;
    let r = x as int % d;
    lemma_fundamental_div_mod(x as int, d);
    assert(x as int == d * q + r);
    assert(0 <= r < d) by {
        lemma_mod_bound(x as int, d);
    }
    assert(x + pow2(n) * y == (q + h * y) * d + r) by {
        lemma_mul_is_distributive_add(d, q, h * y);
        lemma_mul_is_commutative(d, q + h * y);
    }
    lemma_fundamental_div_mod_converse((x + pow2(n) * y) as int, d, q + h * y, r);
}

/// Dropping `a` bits and then `b` bits drops `a + b` bits.
pub proof fn lemma_div_pow2_twice(x: nat, a: nat, b: nat)
    ensures
        (x / pow2(a)) / pow2(b) == x / pow2(a + b),
{
    lemma_pow2_split(a, b);
    lemma_div_denominator(x as int, pow2(a) as int, pow2(b) as int);
}

/// The low `a` bits of the low `a + b` bits are the low `a` bits.
pub proof fn lemma_mod_pow2_twice(x: nat, a: nat, b: nat)
    ensures
        (x % pow2(a + b)) % pow2(a) == x % pow2(a),
{
    lemma_pow2_split(a, b);
    lemma_mod_mod(x as int, pow2(a) as int, pow2(b) as int);
}

/// The low `a + b` bits are the low `a` bits followed by the next `b` bits.
pub proof fn lemma_mod_pow2_breakdown(x: nat, a: nat, b: nat)
    ensures
        x % pow2(a + b) == x % pow2(a) + pow2(a) * ((x / pow2(a)) % pow2(b)),
        (x % pow2(a + b)) / pow2(a) == (x / pow2(a)) % pow2(b),
{
    lemma_pow2_split(a, b);
    let d = pow2(a) as int;
    let e = pow2(b) as int;
    lemma_mod_breakdown(x as int, d, e);
    let lo = x as int % d;
    let hi = (x as int / d) % e;
    lemma_mod_bound(x as int, d);
    assert(x as int % (d * e) == hi * d + lo) by {
        lemma_mul_is_commutative(d, hi);
    }
    lemma_fundamental_div_mod_converse(x as int % (d * e), d, hi, lo);
}

/// A number below `2^(a+b)` has a quotient by `2^a` below `2^b`.
pub proof fn lemma_div_pow2_bound(x: nat, a: nat, b: nat)
    requires
        x < pow2(a + b),
    ensures
        x / pow2(a) < pow2(b),
{
    lemma_pow2_split(a, b);
    let d = pow2(a) as int;
    let e = pow2(b) as int;
    lemma_fundamental_div_mod(x as int, d);
    lemma_mod_bound(x as int, d);
    let q = x as int / d;
    if q >= e {
        lemma_mul_inequality(e, q, d);
        assert(e * d <= q * d);
        lemma_mul_is_commutative(e, d);
        lemma_mul_is_commutative(q, d);
    }
}

/// A number below `2^k` is its own remainder by `2^k` and has quotient zero.
pub proof fn lemma_small_pow2(x: nat, k: nat)
    requires
        x < pow2(k),
    ensures
        x % pow2(k) == x,
        x / pow2(k) == 0,
{
    lemma_small_mod(x, pow2(k));
    lemma_basic_div(x as int, pow2(k) as int);
}

/// Low bits plus shifted high bits stay below the combined power of two.
pub proof fn lemma_concat_bound(lo: nat, hi: nat, a: nat, b: nat)
    requires
        lo < pow2(a),
        hi < pow2(b),
    ensures
        lo + pow2(a) * hi < pow2(a + b),
{
    lemma_pow2_split(a, b);
    let d = pow2(a) as int;
    let e = pow2(b) as int;
    assert(d * hi <= d * (e - 1)) by {
        lemma_mul_inequality(hi as int, e - 1, d);
        lemma_mul_is_commutative(d, hi as int);
        lemma_mul_is_commutative(d, e - 1);
    }
    assert(d * (e - 1) == d * e - d) by {
        lemma_mul_is_distributive_sub(d, e, 1);
    }
}

} // verus!
