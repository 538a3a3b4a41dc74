//! The bit cursor: a small register of pending bits in front of a byte slice.
//!
//! Bits are numbered from the least significant bit of each byte. A run of
//! bits is modelled as a number: bit `i` of the run is bit `i` of the number.

use vstd::prelude::*;
use vstd::arithmetic::power2::*;
use vstd::bits::*;
use crate::arith::{lemma_pow2_split, lemma_pow2_monotone, lemma_low_part, lemma_div_pow2_twice, lemma_div_pow2_bound, lemma_concat_bound, lemma_mod_pow2_breakdown};

verus! {

/// A finite run of bits, first bit least significant.
pub struct BitSeq {
    pub value: nat,
    pub len: nat,
}

/// The number whose base-256 digits, least significant first, are `bytes`.
pub open spec fn le_value(bytes: Seq<u8>) -> nat
    decreases bytes.len(),
{
    if bytes.len() == 0 {
        0
    } else {
        bytes[0] as nat + 256 * le_value(bytes.skip(1))
    }
}

impl BitSeq {
    /// The value fits in `len` bits.
    pub open spec fn wf(self) -> bool {
        self.value < pow2(self.len)
    }

    pub open spec fn empty() -> BitSeq {
        BitSeq { value: 0, len: 0 }
    }

    /// The first `k` bits, as a number.
    pub open spec fn first(self, k: nat) -> nat {
        self.value % pow2(k)
    }

    /// What is left once the first `k` bits are removed.
    pub open spec fn skip(self, k: nat) -> BitSeq {
        BitSeq { value: self.value / pow2(k), len: (self.len - k) as nat }
    }

    /// The run followed by the bits of `bytes`.
    pub open spec fn append(self, bytes: Seq<u8>) -> BitSeq {
        BitSeq { value: self.value + pow2(self.len) * le_value(bytes), len: self.len + 8 * bytes.len() }
    }
}

/// `n` bytes hold a number below `2^(8n)`.
pub proof fn lemma_le_value_bound(bytes: Seq<u8>)
    ensures
        le_value(bytes) < pow2(8 * bytes.len()),
    decreases bytes.len(),
{
    lemma2_to64();
    if bytes.len() > 0 {
        let rest = bytes.skip(1);
        lemma_le_value_bound(rest);
        lemma_concat_bound(bytes[0] as nat, le_value(rest), 8, 8 * rest.len());
        assert(8 + 8 * rest.len() == 8 * bytes.len());
    }
}

/// The value of a concatenation.
pub proof fn lemma_le_value_concat(a: Seq<u8>, b: Seq<u8>)
    ensures
        le_value(a + b) == le_value(a) + pow2(8 * a.len()) * le_value(b),
    decreases a.len(),
{
    lemma2_to64();
    if a.len() == 0 {
        assert(a + b =~= b);
        assert(pow2(8 * a.len()) * le_value(b) == le_value(b)) by {
            vstd::arithmetic::mul::lemma_mul_basics(le_value(b) as int);
        }
    } else {
        let a1 = a.skip(1);
        assert((a + b).skip(1) =~= a1 + b);
        lemma_le_value_concat(a1, b);
        lemma_pow2_split(8, 8 * a1.len());
        assert(8 + 8 * a1.len() == 8 * a.len());
        let p = pow2(8 * a1.len()) as int;
        let vb = le_value(b) as int;
        assert(256 * (p * vb) == (256 * p) * vb) by {
            vstd::arithmetic::mul::lemma_mul_is_associative(256, p, vb);
        }
        assert(256 * (le_value(a1) + p * vb) == 256 * le_value(a1) + 256 * (p * vb)) by {
            vstd::arithmetic::mul::lemma_mul_is_distributive_add(256, le_value(a1) as int, p * vb);
        }
        assert((a + b)[0] == a[0]);
        assert(pow2(8 * a.len()) == 256 * p);
        assert(le_value(a + b) == a[0] as nat + 256 * le_value(a1 + b));
        assert(le_value(a) == a[0] as nat + 256 * le_value(a1));
        assert(pow2(8 * a.len()) * le_value(b) == (256 * p) * vb);
    }
}

/// Appending keeps a run well formed.
pub proof fn lemma_append_wf(s: BitSeq, bytes: Seq<u8>)
    requires
        s.wf(),
    ensures
        s.append(bytes).wf(),
{
    lemma_le_value_bound(bytes);
    lemma_concat_bound(s.value, le_value(bytes), s.len, 8 * bytes.len());
}

/// Appending nothing changes nothing.
pub proof fn lemma_append_empty(s: BitSeq)
    ensures
        s.append(Seq::<u8>::empty()) == s,
{
    assert(le_value(Seq::<u8>::empty()) == 0);
    assert(pow2(s.len) * 0 == 0) by {
        vstd::arithmetic::mul::lemma_mul_basics(pow2(s.len) as int);
    }
}

/// Appending in two parts is appending the concatenation.
pub proof fn lemma_append_append(s: BitSeq, a: Seq<u8>, b: Seq<u8>)
    ensures
        s.append(a).append(b) == s.append(a + b),
{
    lemma_le_value_concat(a, b);
    lemma_pow2_split(s.len, 8 * a.len());
    let p = pow2(s.len) as int;
    let q = pow2(8 * a.len()) as int;
    let va = le_value(a) as int;
    let vb = le_value(b) as int;
    assert((p * q) * vb == p * (q * vb)) by {
        vstd::arithmetic::mul::lemma_mul_is_associative(p, q, vb);
    }
    assert(p * (va + q * vb) == p * va + p * (q * vb)) by {
        vstd::arithmetic::mul::lemma_mul_is_distributive_add(p, va, q * vb);
    }
    assert(s.len + 8 * a.len() + 8 * b.len() == s.len + 8 * (a + b).len());
}

/// Bits that are present are not changed by what is appended behind them.
pub proof fn lemma_append_first(s: BitSeq, bytes: Seq<u8>, k: nat)
    requires
        k <= s.len,
    ensures
        s.append(bytes).first(k) == s.first(k),
        s.append(bytes).skip(k) == s.skip(k).append(bytes),
{
    lemma_low_part(s.value, le_value(bytes), s.len, k);
}

/// Skipping in two steps is skipping once.
pub proof fn lemma_skip_skip(s: BitSeq, a: nat, b: nat)
    requires
        a + b <= s.len,
    ensures
        s.skip(a).skip(b) == s.skip(a + b),
{
    lemma_div_pow2_twice(s.value, a, b);
}

/// Skipping keeps a run well formed.
pub proof fn lemma_skip_wf(s: BitSeq, k: nat)
    requires
        s.wf(),
        k <= s.len,
    ensures
        s.skip(k).wf(),
{
    assert(k + (s.len - k) as nat == s.len);
    lemma_div_pow2_bound(s.value, k, (s.len - k) as nat);
}

/// The empty run is a proper run of bits.
pub proof fn lemma_empty_wf()
    ensures
        BitSeq::empty().wf(),
{
    lemma2_to64();
}

/// The first eight bits of a run of bytes are its first byte.
pub proof fn lemma_first_byte(data: Seq<u8>)
    requires
        data.len() > 0,
    ensures
        BitSeq::empty().append(data).len >= 8,
        BitSeq::empty().append(data).first(8) == data[0] as nat,
        BitSeq::empty().append(data).skip(8) == BitSeq::empty().append(data.skip(1)),
{
    lemma2_to64();
    let rest = data.skip(1);
    let v = le_value(data);
    assert(v == data[0] as nat + 256 * le_value(rest));
    assert(pow2(0) * v == v);
    assert(pow2(0) * le_value(rest) == le_value(rest));
    vstd::arithmetic::div_mod::lemma_fundamental_div_mod_converse(
        v as int,
        256,
        le_value(rest) as int,
        data[0] as int,
    );
}

/// The pending bits of the cursor: `n` bits whose value is `v`.
#[derive(Clone, Copy, Debug, PartialEq, Eq, Structural)]
pub struct BitState {
    pub n: u8,
    pub v: u32,
}

impl BitState {
    /// At most 23 bits are pending and `v` holds nothing above them.
    pub open spec fn wf(self) -> bool {
        self.n <= 23 && (self.v as nat) < pow2(self.n as nat)
    }

    /// The pending bits as a run.
    pub open spec fn bits(self) -> BitSeq {
        BitSeq { value: self.v as nat, len: self.n as nat }
    }

    /// No pending bits.
    pub fn new() -> (s: BitState)
        ensures
            s.wf(),
            s.bits() == BitSeq::empty(),
            s.n == 0,
            s.v == 0,
    {
        proof {
            lemma2_to64();
        }
        BitState { n: 0, v: 0 }
    }
}

/// A cursor over `data`: `used` bytes have been moved into `state`.
pub struct BitStream<'a> {
    pub data: &'a [u8],
    pub used: usize,
    pub state: BitState,
}

proof fn lemma_or_is_add(v: u32, b: u32, n: u32)
    by (bit_vector)
    requires
        n <= 24,
        b < 256,
        v < (1u32 << n),
    ensures
        v | (b << n) == v + (b << n),
        (b << n) == b * (1u32 << n),
        b * (1u32 << n) <= 0xffff_ffff,
{
}

/// `1 << n` is `2^n` for the shifts the register uses.
pub proof fn lemma_one_shl(n: u32)
    requires
        n <= 24,
    ensures
        (1u32 << n) == pow2(n as nat),
        0 < pow2(n as nat) <= 0x100_0000,
{
    lemma_pow2_pos(n as nat);
    lemma2_to64();
    lemma_pow2_monotone(n as nat, 24);
    vstd::arithmetic::mul::lemma_mul_basics(pow2(n as nat) as int);
    lemma_u32_shl_is_mul(1u32, n);
}

/// Asking for `a` bits, taking them, and asking for `b` bits moves in as
/// many bytes as asking for `a + b` bits at once.
pub proof fn lemma_moved_in_parts(pending: nat, a: nat, b: nat, left: nat)
    requires
        a + b <= 16,
        a <= pending + 8 * left,
    ensures
        ({
            let first = bytes_moved(pending, a, left);
            first <= left && a <= pending + 8 * first && first + bytes_moved(
                (pending + 8 * first - a) as nat,
                b,
                (left - first) as nat,
            ) == bytes_moved(pending, a + b, left)
        }),
{
}

/// How many bytes of the input of a cursor are still outside its register.
pub open spec fn left_of(stream: BitStream) -> nat {
    (stream.data@.len() - stream.used) as nat
}

/// How many bytes a request for `n` pending bits moves in, with `pending`
/// bits there and `left` bytes of input: none if enough bits are pending,
/// else as many as it takes, as far as there are any.
pub open spec fn bytes_moved(pending: nat, n: nat, left: nat) -> nat {
    let wanted: nat = if pending >= n {
        0
    } else if pending + 8 >= n {
        1
    } else {
        2
    };
    if wanted <= left {
        wanted
    } else {
        left
    }
}

impl<'a> BitStream<'a> {
    pub open spec fn wf(&self) -> bool {
        &&& self.used <= self.data@.len()
        &&& self.state.wf()
    }

    /// The input bytes not yet moved into the register.
    pub open spec fn rest(&self) -> Seq<u8> {
        self.data@.skip(self.used as int)
    }

    /// Every bit still to be read: the pending bits, then the unread bytes.
    pub open spec fn bits(&self) -> BitSeq {
        self.state.bits().append(self.rest())
    }

    pub fn new(bytes: &'a [u8], state: BitState) -> (s: BitStream<'a>)
        requires
            state.wf(),
        ensures
            s.wf(),
            s.data@ == bytes@,
            s.used == 0,
            s.state == state,
            s.bits() == state.bits().append(bytes@),
    {
        assert(bytes@.skip(0) =~= bytes@);
        BitStream { data: bytes, used: 0, state }
    }

    /// Moves the next input byte, if there is one, behind the pending bits.
    /// The run of bits still to be read stays the same.
    pub fn use_byte(&mut self) -> (r: bool)
        requires
            old(self).wf(),
            old(self).state.n <= 15,
        ensures
            final(self).wf(),
            final(self).data@ == old(self).data@,
            final(self).bits() == old(self).bits(),
            r == (old(self).used < old(self).data@.len()),
            r ==> final(self).used == old(self).used + 1 && final(self).state.n == old(self).state.n + 8,
            !r ==> final(self).used == old(self).used && final(self).state == old(self).state,
    {
        if self.used < self.data.len() {
            let b = self.data[self.used];
            let n = self.state.n;
            let v = self.state.v;
            proof {
                let rest = self.rest();
                let rest1 = rest.skip(1);
                assert(rest1 =~= self.data@.skip(self.used + 1));
                assert(rest[0] == b);
                lemma_one_shl(n as u32);
                lemma_or_is_add(v, b as u32, n as u32);
                // v + b * 2^n < 2^(n+8)
                lemma2_to64();
                lemma_concat_bound(v as nat, b as nat, n as nat, 8);
                // (v + 2^n b) + 2^(n+8) r == v + 2^n (b + 256 r)
                lemma_pow2_split(n as nat, 8);
                let p = pow2(n as nat) as int;
                let r1 = le_value(rest1) as int;
                assert((p * 256) * r1 == p * (256 * r1)) by {
                    vstd::arithmetic::mul::lemma_mul_is_associative(p, 256, r1);
                }
                assert(p * (b as int + 256 * r1) == p * (b as int) + p * (256 * r1)) by {
                    vstd::arithmetic::mul::lemma_mul_is_distributive_add(p, b as int, 256 * r1);
                }
                assert(p * (b as int) == (b as int) * p) by {
                    vstd::arithmetic::mul::lemma_mul_is_commutative(p, b as int);
                }
            }
            self.state.v = v | ((b as u32) << (n as u32));
            self.state.n = n + 8;
            self.used = self.used + 1;
            true
        } else {
            false
        }
    }

    /// Makes sure that `n` bits are pending, moving in at most two bytes.
    /// Fails only when the input runs out first; every byte is then pending.
    pub fn need(&mut self, n: u8) -> (r: bool)
        requires
            old(self).wf(),
            n <= 16,
        ensures
            final(self).wf(),
            final(self).data@ == old(self).data@,
            final(self).bits() == old(self).bits(),
            final(self).used >= old(self).used,
            r == (n <= old(self).bits().len),
            r ==> final(self).state.n >= n,
            !r ==> final(self).used == final(self).data@.len(),
            final(self).used - old(self).used == bytes_moved(
                old(self).state.n as nat,
                n as nat,
                (old(self).data@.len() - old(self).used) as nat,
            ),
            final(self).state.n == old(self).state.n + 8 * (final(self).used - old(self).used),
    {
        if self.state.n < n {
            if !self.use_byte() {
                return false;
            }
            if n > 8 && self.state.n < n {
                if !self.use_byte() {
                    return false;
                }
            }
        }
        true
    }

    /// The register is fixed by the bits still to be read, the number of
    /// pending bits and the place in the input.
    pub proof fn lemma_same_register(&self, other: &BitStream)
        requires
            self.data@ == other.data@,
            self.used == other.used,
            self.state.n == other.state.n,
            self.bits() == other.bits(),
        ensures
            self.state == other.state,
    {
    }

    /// Once every byte is pending, the pending bits are all there is.
    pub proof fn lemma_bits_exhausted(&self)
        requires
            self.wf(),
            self.used == self.data@.len(),
        ensures
            self.bits() == self.state.bits(),
    {
        assert(self.rest() =~= Seq::<u8>::empty());
        lemma_append_empty(self.state.bits());
    }

    /// The pending bits are the front of the bits still to be read.
    pub proof fn lemma_bits_front(&self, k: nat)
        requires
            self.wf(),
            k <= self.state.n,
        ensures
            self.bits().first(k) == (self.state.v as nat) % pow2(k),
            self.bits().len >= self.state.n,
            self.bits().wf(),
    {
        lemma_append_first(self.state.bits(), self.rest(), k);
        lemma_append_wf(self.state.bits(), self.rest());
    }

    /// The first sixteen bits still to be read can be taken from the pending
    /// bits, once sixteen are pending or the input is used up.
    pub proof fn lemma_peek(&self)
        requires
            self.wf(),
            self.state.n >= 16 || self.used == self.data@.len(),
        ensures
            self.bits().value % 256 == self.state.v % 256,
            (self.bits().value / 256) % 256 == (self.state.v / 256) % 256,
            self.bits().wf(),
            self.used == self.data@.len() ==> self.bits().len == self.state.n,
            self.bits().len >= self.state.n,
    {
        lemma2_to64();
        if self.used == self.data@.len() {
            self.lemma_bits_exhausted();
        } else {
            self.lemma_bits_front(16);
            lemma_mod_pow2_breakdown(self.bits().value, 8, 8);
            lemma_mod_pow2_breakdown(self.state.v as nat, 8, 8);
        }
        lemma_append_wf(self.state.bits(), self.rest());
    }

    /// The first eight bits still to be read can be taken from the pending
    /// bits, once eight are pending or the input is used up.
    pub proof fn lemma_peek8(&self)
        requires
            self.wf(),
            self.state.n >= 8 || self.used == self.data@.len(),
        ensures
            self.bits().value % 256 == self.state.v % 256,
            self.bits().wf(),
            self.used == self.data@.len() ==> self.bits().len == self.state.n,
            self.bits().len >= self.state.n,
    {
        lemma2_to64();
        if self.used == self.data@.len() {
            self.lemma_bits_exhausted();
        } else {
            self.lemma_bits_front(8);
        }
        lemma_append_wf(self.state.bits(), self.rest());
    }

    /// Removes the first `n` of the pending bits.
    pub fn consume(&mut self, n: u8)
        requires
            old(self).wf(),
            n <= old(self).state.n,
        ensures
            final(self).wf(),
            final(self).data@ == old(self).data@,
            final(self).used == old(self).used,
            final(self).state.n == old(self).state.n - n,
            final(self).bits() == old(self).bits().skip(n as nat),
    {
        let v = self.state.v;
        let m = self.state.n;
        proof {
            lemma_u32_shr_is_div(v, n as u32);
            lemma_low_part(v as nat, le_value(self.rest()), m as nat, n as nat);
            assert(n as nat + (m - n) as nat == m as nat);
            lemma_div_pow2_bound(v as nat, n as nat, (m - n) as nat);
        }
        self.state.n = m - n;
        self.state.v = v >> (n as u32);
    }

    /// Removes the first `n` bits and returns them, if that many are there.
    pub fn take16(&mut self, n: u8) -> (r: Option<u16>)
        requires
            old(self).wf(),
            n <= 16,
        ensures
            final(self).wf(),
            final(self).data@ == old(self).data@,
            final(self).used >= old(self).used,
            match r {
                Some(x) => {
                    &&& n <= old(self).bits().len
                    &&& x == old(self).bits().first(n as nat)
                    &&& final(self).bits() == old(self).bits().skip(n as nat)
                    &&& final(self).state.n == old(self).state.n + 8 * (final(self).used - old(
                        self,
                    ).used) - n
                },
                None => {
                    &&& n > old(self).bits().len
                    &&& final(self).bits() == old(self).bits()
                    &&& final(self).used == final(self).data@.len()
                    &&& final(self).state.n == old(self).state.n + 8 * (final(self).used - old(
                        self,
                    ).used)
                },
            },
            final(self).used - old(self).used == bytes_moved(
                old(self).state.n as nat,
                n as nat,
                (old(self).data@.len() - old(self).used) as nat,
            ),
    {
        if self.need(n) {
            let v = self.state.v;
            let m = self.state.n;
            proof {
                lemma_one_shl(n as u32);
                lemma_u32_low_bits_mask_is_mod(v, n as nat);
                lemma_u32_shr_is_div(v, n as u32);
                lemma_low_part(v as nat, le_value(self.rest()), m as nat, n as nat);
                assert(n as nat + (m - n) as nat == m as nat);
                lemma_div_pow2_bound(v as nat, n as nat, (m - n) as nat);
                lemma2_to64();
                lemma_pow2_monotone(n as nat, 16);
                vstd::arithmetic::div_mod::lemma_mod_bound(v as int, pow2(n as nat) as int);
            }
            let x = v & ((1u32 << (n as u32)) - 1);
            self.state.n = m - n;
            self.state.v = v >> (n as u32);
            Some(x as u16)
        } else {
            None
        }
    }

    /// As `take16`, for at most eight bits.
    pub fn take(&mut self, n: u8) -> (r: Option<u8>)
        requires
            old(self).wf(),
            n <= 8,
        ensures
            final(self).wf(),
            final(self).data@ == old(self).data@,
            final(self).used >= old(self).used,
            match r {
                Some(x) => {
                    &&& n <= old(self).bits().len
                    &&& x == old(self).bits().first(n as nat)
                    &&& final(self).bits() == old(self).bits().skip(n as nat)
                    &&& final(self).state.n == old(self).state.n + 8 * (final(self).used - old(
                        self,
                    ).used) - n
                },
                None => {
                    &&& n > old(self).bits().len
                    &&& final(self).bits() == old(self).bits()
                    &&& final(self).used == final(self).data@.len()
                    &&& final(self).state.n == old(self).state.n + 8 * (final(self).used - old(
                        self,
                    ).used)
                },
            },
            final(self).used - old(self).used == bytes_moved(
                old(self).state.n as nat,
                n as nat,
                (old(self).data@.len() - old(self).used) as nat,
            ),
    {
        match self.take16(n) {
            Some(x) => {
                proof {
                    lemma2_to64();
                    lemma_pow2_monotone(n as nat, 8);
                    vstd::arithmetic::div_mod::lemma_mod_bound(old(self).bits().value as int, pow2(n as nat) as int);
                }
                Some(x as u8)
            },
            None => None,
        }
    }
}

} // verus!
