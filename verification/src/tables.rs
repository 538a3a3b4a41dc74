//! The lengths and distances that the symbols of a compressed block stand
//! for. A symbol gives a base value and says how many extra bits follow; the
//! extra bits, read as a number, are added to the base.

use vstd::prelude::*;
use vstd::arithmetic::power2::*;
use crate::codes::pow2_u32;

verus! {

/// The smallest length that each of the length symbols 257 to 285 stands for.
pub open spec fn length_bases() -> Seq<nat> {
    seq![
        3nat, 4, 5, 6, 7, 8, 9, 10, 11, 13, 15, 17, 19, 23, 27, 31, 35, 43, 51, 59, 67, 83, 99, 115,
        131, 163, 195, 227, 258,
    ]
}

/// The smallest distance that each of the distance symbols 0 to 29 stands
/// for.
pub open spec fn dist_bases() -> Seq<nat> {
    seq![
        1nat, 2, 3, 4, 5, 7, 9, 13, 17, 25, 33, 49, 65, 97, 129, 193, 257, 385, 513, 769, 1025, 1537,
        2049, 3073, 4097, 6145, 8193, 12289, 16385, 24577,
    ]
}

/// The smallest length that the symbol `sym`, from 257 to 285, stands for.
pub open spec fn length_base(sym: nat) -> nat {
    length_bases()[sym - 257]
}

/// How many extra bits follow the length symbol `sym`, from 257 to 285.
pub open spec fn length_extra_bits(sym: nat) -> nat {
    if sym < 265 || sym == 285 {
        0
    } else {
        ((sym - 261) / 4) as nat
    }
}

/// The smallest distance that the symbol `sym`, from 0 to 29, stands for.
pub open spec fn dist_base(sym: nat) -> nat {
    dist_bases()[sym as int]
}

/// How many extra bits follow the distance symbol `sym`, from 0 to 29.
pub open spec fn dist_extra_bits(sym: nat) -> nat {
    if sym < 4 {
        0
    } else {
        ((sym - 2) / 2) as nat
    }
}

/// The symbols of one number of extra bits share out a range of lengths
/// among them without gaps: each takes up where the one before it ends. The
/// last symbol alone stands for the length 258.
pub proof fn lemma_lengths_contiguous(sym: nat)
    requires
        257 <= sym < 284,
    ensures
        length_base(sym + 1) == length_base(sym) + pow2(length_extra_bits(sym)),
{
    lemma2_to64();
    lemma_length_bases();
}

/// The distance symbols share out the distances from 1 to 32768 among them
/// without gaps.
pub proof fn lemma_distances_contiguous(sym: nat)
    requires
        sym < 29,
    ensures
        dist_base(sym + 1) == dist_base(sym) + pow2(dist_extra_bits(sym)),
        dist_base(29) + pow2(dist_extra_bits(29)) == 32769,
        dist_base(0) == 1,
{
    lemma2_to64();
    lemma_dist_bases();
}

/// A length symbol with its extra bits stands for a length from 3 to 258.
pub proof fn lemma_length_range(sym: nat)
    requires
        257 <= sym <= 285,
    ensures
        3 <= length_base(sym),
        length_base(sym) + pow2(length_extra_bits(sym)) <= 259,
        length_extra_bits(sym) <= 5,
{
    lemma2_to64();
    lemma_length_bases();
}

/// A distance symbol with its extra bits stands for a distance from 1 to
/// 32768.
pub proof fn lemma_dist_range(sym: nat)
    requires
        sym <= 29,
    ensures
        1 <= dist_base(sym),
        dist_base(sym) + pow2(dist_extra_bits(sym)) <= 32769,
        dist_extra_bits(sym) <= 13,
{
    lemma2_to64();
    lemma_dist_bases();
}

/// The entries of the table of lengths, one by one.
pub proof fn lemma_length_bases()
    ensures
        length_bases().len() == 29,
        length_bases()[0] == 3,
        length_bases()[1] == 4,
        length_bases()[2] == 5,
        length_bases()[3] == 6,
        length_bases()[4] == 7,
        length_bases()[5] == 8,
        length_bases()[6] == 9,
        length_bases()[7] == 10,
        length_bases()[8] == 11,
        length_bases()[9] == 13,
        length_bases()[10] == 15,
        length_bases()[11] == 17,
        length_bases()[12] == 19,
        length_bases()[13] == 23,
        length_bases()[14] == 27,
        length_bases()[15] == 31,
        length_bases()[16] == 35,
        length_bases()[17] == 43,
        length_bases()[18] == 51,
        length_bases()[19] == 59,
        length_bases()[20] == 67,
        length_bases()[21] == 83,
        length_bases()[22] == 99,
        length_bases()[23] == 115,
        length_bases()[24] == 131,
        length_bases()[25] == 163,
        length_bases()[26] == 195,
        length_bases()[27] == 227,
        length_bases()[28] == 258,
{
}

/// The entries of the table of distances, one by one.
pub proof fn lemma_dist_bases()
    ensures
        dist_bases().len() == 30,
        dist_bases()[0] == 1,
        dist_bases()[1] == 2,
        dist_bases()[2] == 3,
        dist_bases()[3] == 4,
        dist_bases()[4] == 5,
        dist_bases()[5] == 7,
        dist_bases()[6] == 9,
        dist_bases()[7] == 13,
        dist_bases()[8] == 17,
        dist_bases()[9] == 25,
        dist_bases()[10] == 33,
        dist_bases()[11] == 49,
        dist_bases()[12] == 65,
        dist_bases()[13] == 97,
        dist_bases()[14] == 129,
        dist_bases()[15] == 193,
        dist_bases()[16] == 257,
        dist_bases()[17] == 385,
        dist_bases()[18] == 513,
        dist_bases()[19] == 769,
        dist_bases()[20] == 1025,
        dist_bases()[21] == 1537,
        dist_bases()[22] == 2049,
        dist_bases()[23] == 3073,
        dist_bases()[24] == 4097,
        dist_bases()[25] == 6145,
        dist_bases()[26] == 8193,
        dist_bases()[27] == 12289,
        dist_bases()[28] == 16385,
        dist_bases()[29] == 24577,
{
}

/// `x` times `2^bits`, written out for each exponent in use.
spec fn scaled(x: int, bits: nat) -> int {
    if bits == 0 {
        x
    } else if bits == 1 {
        2 * x
    } else if bits == 2 {
        4 * x
    } else if bits == 3 {
        8 * x
    } else if bits == 4 {
        16 * x
    } else if bits == 5 {
        32 * x
    } else if bits == 6 {
        64 * x
    } else if bits == 7 {
        128 * x
    } else if bits == 8 {
        256 * x
    } else if bits == 9 {
        512 * x
    } else if bits == 10 {
        1024 * x
    } else if bits == 11 {
        2048 * x
    } else if bits == 12 {
        4096 * x
    } else {
        8192 * x
    }
}

/// A product with a power of two, written out for each exponent in use.
proof fn lemma_scale(x: int, bits: nat)
    requires
        bits <= 13,
    ensures
        x * pow2(bits) == scaled(x, bits),
{
    lemma2_to64();
    if bits == 0 {
        assert(x * pow2(0) == 1 * x);
    }
    if bits == 1 {
        assert(x * pow2(1) == 2 * x);
    }
    if bits == 2 {
        assert(x * pow2(2) == 4 * x);
    }
    if bits == 3 {
        assert(x * pow2(3) == 8 * x);
    }
    if bits == 4 {
        assert(x * pow2(4) == 16 * x);
    }
    if bits == 5 {
        assert(x * pow2(5) == 32 * x);
    }
    if bits == 6 {
        assert(x * pow2(6) == 64 * x);
    }
    if bits == 7 {
        assert(x * pow2(7) == 128 * x);
    }
    if bits == 8 {
        assert(x * pow2(8) == 256 * x);
    }
    if bits == 9 {
        assert(x * pow2(9) == 512 * x);
    }
    if bits == 10 {
        assert(x * pow2(10) == 1024 * x);
    }
    if bits == 11 {
        assert(x * pow2(11) == 2048 * x);
    }
    if bits == 12 {
        assert(x * pow2(12) == 4096 * x);
    }
    if bits == 13 {
        assert(x * pow2(13) == 8192 * x);
    }
}

/// How many extra bits follow a length symbol. `code` is the symbol less 256.
pub fn length_bits(code: u8) -> (bits: u8)
    requires
        1 <= code <= 29,
    ensures
        bits == length_extra_bits(256 + code as nat),
        bits <= 5,
{
    if code <= 8 {
        0
    } else if code <= 12 {
        1
    } else if code <= 16 {
        2
    } else if code <= 20 {
        3
    } else if code <= 24 {
        4
    } else if code <= 28 {
        5
    } else {
        0
    }
}

/// The smallest length that a length symbol stands for. `code` is the symbol
/// less 256, `bits` the number of its extra bits.
pub fn length_start(code: u8, bits: u8) -> (len: u16)
    requires
        1 <= code <= 29,
        bits == length_extra_bits(256 + code as nat),
    ensures
        len == length_base(256 + code as nat),
        3 <= len <= 258,
        len + pow2(bits as nat) <= 259,
{
    proof {
        lemma2_to64();
        lemma_length_bases();
    }
    let p = pow2_u32(bits as u32);
    let new_base: u32 = if bits == 0 {
        0
    } else {
        4 * p
    };
    let old_base: u32 = if bits == 0 {
        0
    } else {
        bits as u32 * 4 + 4
    };
    let c: u32 = if code == 29 {
        256
    } else {
        code as u32
    };
    proof {
        lemma_scale(c - old_base - 1, bits as nat);
    }
    (3 + new_base + (c - old_base - 1) * p) as u16
}

/// How many extra bits follow a distance symbol.
pub fn dist_bits(code: u8) -> (bits: u8)
    requires
        code <= 29,
    ensures
        bits == dist_extra_bits(code as nat),
        bits <= 13,
{
    if code < 4 {
        0
    } else {
        (code - 2) / 2
    }
}

/// The smallest distance that a distance symbol stands for. `bits` is the
/// number of its extra bits.
pub fn dist_start(code: u8, bits: u8) -> (dist: u16)
    requires
        code <= 29,
        bits == dist_extra_bits(code as nat),
    ensures
        dist == dist_base(code as nat),
        1 <= dist <= 24577,
        dist + pow2(bits as nat) <= 32769,
{
    proof {
        lemma2_to64();
        lemma_dist_bases();
    }
    let p = pow2_u32(bits as u32);
    let new_base: u32 = if bits == 0 {
        0
    } else {
        2 * p
    };
    let old_base: u32 = if bits == 0 {
        0
    } else {
        bits as u32 * 2 + 2
    };
    proof {
        lemma_scale(code as u32 - old_base, bits as nat);
    }
    (1 + new_base + (code as u32 - old_base) * p) as u16
}

} // verus!
