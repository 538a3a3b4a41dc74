//! The fixed codes: the codes that a block uses which sends no code lengths
//! of its own.

use vstd::prelude::*;
use vstd::arithmetic::power2::*;
use crate::codes::{count_len, bl_count, first_code, code_of, lengths_valid};
use crate::model::{Model, Phase, fixed_lit_lengths, fixed_dist_lengths};

verus! {

/// Over a stretch of symbols that all have the length `v`, the count of the
/// length `l` grows by the size of the stretch if `l` is `v`, and not at all
/// if it is not.
pub proof fn lemma_count_stretch(lens: Seq<u8>, a: int, b: int, v: u8, l: nat)
    requires
        0 <= a <= b <= lens.len(),
        forall|i: int| a <= i < b ==> lens[i] == v,
    ensures
        count_len(lens, b, l) == count_len(lens, a, l) + if v as nat == l {
            (b - a) as nat
        } else {
            0nat
        },
    decreases b - a,
{
    if a < b {
        lemma_count_stretch(lens, a, b - 1, v, l);
    }
}

/// How many symbols of the fixed literal/length code come before symbol `s`
/// with a code of seven, eight and nine bits, and that none has another
/// length.
pub proof fn lemma_fixed_lit_counts(s: int, l: nat)
    requires
        0 <= s <= 288,
    ensures
        count_len(fixed_lit_lengths(), s, l) == if l == 8 {
            if s <= 144 {
                s as nat
            } else if s <= 280 {
                144nat
            } else {
                (s - 136) as nat
            }
        } else if l == 9 {
            if s <= 144 {
                0nat
            } else if s <= 256 {
                (s - 144) as nat
            } else {
                112nat
            }
        } else if l == 7 {
            if s <= 256 {
                0nat
            } else if s <= 280 {
                (s - 256) as nat
            } else {
                24nat
            }
        } else {
            0nat
        },
{
    let lens = fixed_lit_lengths();
    assert(count_len(lens, 0, l) == 0);
    let a = if s <= 144 {
        s
    } else {
        144
    };
    lemma_count_stretch(lens, 0, a, 8, l);
    if s > 144 {
        let b = if s <= 256 {
            s
        } else {
            256
        };
        lemma_count_stretch(lens, 144, b, 9, l);
        if s > 256 {
            let c = if s <= 280 {
                s
            } else {
                280
            };
            lemma_count_stretch(lens, 256, c, 7, l);
            if s > 280 {
                lemma_count_stretch(lens, 280, s, 8, l);
            }
        }
    }
}

/// The first codes of the fixed literal/length code.
pub proof fn lemma_fixed_lit_first_codes()
    ensures
        forall|l: nat| l <= 7 ==> #[trigger] first_code(fixed_lit_lengths(), l) == 0,
        first_code(fixed_lit_lengths(), 8) == 48,
        first_code(fixed_lit_lengths(), 9) == 400,
        forall|l: nat| 10 <= l <= 15 ==> #[trigger] first_code(fixed_lit_lengths(), l) == pow2(l),
        forall|l: nat| 1 <= l <= 15 ==> #[trigger] bl_count(fixed_lit_lengths(), l) == if l == 7 {
            24nat
        } else if l == 8 {
            152nat
        } else if l == 9 {
            112nat
        } else {
            0nat
        },
{
    let lens = fixed_lit_lengths();
    lemma2_to64();
    assert forall|l: nat| 1 <= l <= 15 implies #[trigger] bl_count(lens, l) == if l == 7 {
        24nat
    } else if l == 8 {
        152nat
    } else if l == 9 {
        112nat
    } else {
        0nat
    } by {
        lemma_fixed_lit_counts(288, l);
    }
    assert(first_code(lens, 0) == 0);
    assert(first_code(lens, 1) == 0);
    assert(first_code(lens, 2) == 0);
    assert(first_code(lens, 3) == 0);
    assert(first_code(lens, 4) == 0);
    assert(first_code(lens, 5) == 0);
    assert(first_code(lens, 6) == 0);
    assert(first_code(lens, 7) == 0);
    assert(first_code(lens, 8) == 48);
    assert(first_code(lens, 9) == 400);
    assert(first_code(lens, 10) == 1024);
    assert(first_code(lens, 11) == 2048);
    assert(first_code(lens, 12) == 4096);
    assert(first_code(lens, 13) == 8192);
    assert(first_code(lens, 14) == 16384);
    assert(first_code(lens, 15) == 32768);
}

/// The lengths of the fixed codes are those of codes, so that a block with
/// the fixed codes never fails for its code lengths.
pub proof fn lemma_fixed_lengths_valid()
    ensures
        lengths_valid(fixed_lit_lengths(), 15),
        lengths_valid(fixed_dist_lengths(), 15),
{
    lemma2_to64();
    lemma_fixed_lit_first_codes();
    let dist = fixed_dist_lengths();
    assert forall|l: nat| 1 <= l <= 15 implies #[trigger] bl_count(dist, l) == if l == 5 {
        32nat
    } else {
        0nat
    } by {
        assert(count_len(dist, 0, l) == 0);
        lemma_count_stretch(dist, 0, 32, 5, l);
    }
    assert(first_code(dist, 0) == 0);
    assert(first_code(dist, 1) == 0);
    assert(first_code(dist, 2) == 0);
    assert(first_code(dist, 3) == 0);
    assert(first_code(dist, 4) == 0);
    assert(first_code(dist, 5) == 0);
    assert(first_code(dist, 6) == 64);
    assert(first_code(dist, 7) == 128);
    assert(first_code(dist, 8) == 256);
    assert(first_code(dist, 9) == 512);
    assert(first_code(dist, 10) == 1024);
    assert(first_code(dist, 11) == 2048);
    assert(first_code(dist, 12) == 4096);
    assert(first_code(dist, 13) == 8192);
    assert(first_code(dist, 14) == 16384);
    assert(first_code(dist, 15) == 32768);
}

/// The codes of the fixed literal/length code: eight bits from 00110000 for
/// the symbols up to 143, nine bits from 110010000 for those up to 255, seven
/// bits from 0000000 for those up to 279, eight bits from 11000000 for the
/// rest.
pub proof fn lemma_fixed_lit_codes(s: int)
    requires
        0 <= s < 288,
    ensures
        code_of(fixed_lit_lengths(), s) == if s < 144 {
            (48 + s) as nat
        } else if s < 256 {
            (400 + (s - 144)) as nat
        } else if s < 280 {
            (s - 256) as nat
        } else {
            (192 + (s - 280)) as nat
        },
{
    lemma_fixed_lit_first_codes();
    lemma_fixed_lit_counts(s, fixed_lit_lengths()[s] as nat);
}

/// The codes of the fixed distance code are the numbers of the symbols, in
/// five bits.
pub proof fn lemma_fixed_dist_codes(s: int)
    requires
        0 <= s < 32,
    ensures
        code_of(fixed_dist_lengths(), s) == s as nat,
{
    let dist = fixed_dist_lengths();
    assert forall|l: nat| 1 <= l <= 4 implies #[trigger] bl_count(dist, l) == 0 by {
        assert(count_len(dist, 0, l) == 0);
        lemma_count_stretch(dist, 0, 32, 5, l);
    }
    assert(first_code(dist, 0) == 0);
    assert(first_code(dist, 1) == 0);
    assert(first_code(dist, 2) == 0);
    assert(first_code(dist, 3) == 0);
    assert(first_code(dist, 4) == 0);
    assert(first_code(dist, 5) == 0);
    assert(count_len(dist, 0, 5) == 0);
    lemma_count_stretch(dist, 0, s, 5, 5);
}

/// At the start of a block with the fixed codes the machine goes on to its
/// symbols.
pub proof fn lemma_fixed_block_starts(m: Model)
    requires
        m.phase is BlockFixed,
    ensures
        m.step() == Some(
            m.go(Phase::BlockDyn { lit: fixed_lit_lengths(), dist: fixed_dist_lengths() }, m.bits),
        ),
{
    lemma_fixed_lengths_valid();
}

} // verus!
