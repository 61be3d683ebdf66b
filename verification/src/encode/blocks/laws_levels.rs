//! What the levels, weights and normalised numbers of block formats are.

use vstd::prelude::*;

use crate::encode::bc6h::{half_of_level, level10};
use crate::encode::blocks::alpha::{alpha_levels, from_snorm, to_snorm};
use crate::encode::blocks::bc7::{weights2, weights3, weights4};

verus! {

/// The place of a level among a pair's eight: `k` sevenths of the way from the
/// second endpoint to the first.
pub open spec fn seventh(k: int) -> int {
    if k == 7 {
        0
    } else if k == 0 {
        1
    } else {
        8 - k
    }
}

/// The place of a level among a pair's first six: `k` fifths of the way.
pub open spec fn fifth(k: int) -> int {
    if k == 5 {
        0
    } else if k == 0 {
        1
    } else {
        6 - k
    }
}

proof fn lemma_step7(w: int, d: int, k: int)
    requires
        (w == 56173 && k == 6) || (w == 46812 && k == 5) || (w == 37450 && k == 4) || (w == 28086 && k == 3) || (w == 18724
            && k == 2) || (w == 9363 && k == 1),
        -255 <= d <= 255,
    ensures
        -3 <= 7 * ((w * d + 32768) / 65536) - k * d <= 3,
{
}

proof fn lemma_step5(w: int, d: int, k: int)
    requires
        (w == 52429 && k == 4) || (w == 39321 && k == 3) || (w == 26215 && k == 2) || (w == 13107 && k == 1),
        -255 <= d <= 255,
    ensures
        -2 <= 5 * ((w * d + 32768) / 65536) - k * d <= 2,
{
}

/// Where the first endpoint is the larger, the levels are even steps of a seventh
/// between the two, each rounded to nearest.
pub proof fn law_levels_are_sevenths(a0: int, a1: int, signed: bool, k: int)
    requires
        a0 > a1,
        a0 - a1 <= 255,
        0 <= k <= 7,
    ensures
        -3 <= 7 * (alpha_levels(a0, a1, signed)[seventh(k)] - a1) - k * (a0 - a1) <= 3,
{
    let d = a0 - a1;
    if k == 0 {
        assert(0 * d == 0);
    } else if k == 6 {
        lemma_step7(56173, d, 6);
    } else if k == 5 {
        lemma_step7(46812, d, 5);
    } else if k == 4 {
        lemma_step7(37450, d, 4);
    } else if k == 3 {
        lemma_step7(28086, d, 3);
    } else if k == 2 {
        lemma_step7(18724, d, 2);
    } else if k == 1 {
        lemma_step7(9363, d, 1);
    }
}

/// Where it is not, they are even steps of a fifth, each rounded to nearest, and the
/// lowest and the highest level of all.
pub proof fn law_levels_are_fifths(a0: int, a1: int, signed: bool, k: int)
    requires
        a0 <= a1,
        a1 - a0 <= 255,
        0 <= k <= 5,
    ensures
        -2 <= 5 * (alpha_levels(a0, a1, signed)[fifth(k)] - a1) - k * (a0 - a1) <= 2,
        alpha_levels(a0, a1, false)[6] == 0 && alpha_levels(a0, a1, false)[7] == 255,
        alpha_levels(a0, a1, true)[6] == -127 && alpha_levels(a0, a1, true)[7] == 127,
{
    let d = a0 - a1;
    if k == 0 {
        assert(0 * d == 0);
    } else if k == 4 {
        lemma_step5(52429, d, 4);
    } else if k == 3 {
        lemma_step5(39321, d, 3);
    } else if k == 2 {
        lemma_step5(26215, d, 2);
    } else if k == 1 {
        lemma_step5(13107, d, 1);
    }
}

/// The signed level of an unsigned byte, and the byte of a signed level, are the
/// nearest: 255 steps of the one are 254 of the other.
pub proof fn law_signed_levels_are_nearest(u: int, s: int)
    requires
        0 <= u <= 255,
        -127 <= s <= 127,
    ensures
        -127 <= to_snorm(u) <= 127,
        0 <= from_snorm(s) <= 255,
        -127 <= 255 * (to_snorm(u) + 127) - 254 * u <= 127,
        -127 <= 254 * from_snorm(s) - 255 * (s + 127) <= 127,
{
}

/// The weights of indices are even steps up to 64, each rounded to nearest.
pub proof fn law_weights_are_even(k: int)
    ensures
        0 <= k < 4 ==> -1 <= 3 * weights2()[k] - 64 * k <= 1,
        0 <= k < 8 ==> -3 <= 7 * weights3()[k] - 64 * k <= 3,
        0 <= k < 16 ==> -7 <= 15 * weights4()[k] - 64 * k <= 7,
{
}

/// The 10-bit endpoints stand for the middles of 1024 stretches of the 16-bit levels,
/// but the first and the last for the ends, and a level for 31 64ths of it as a half.
pub proof fn law_endpoint_levels(q: int, v: int)
    requires
        0 <= q <= 1023,
        0 <= v <= 65535,
    ensures
        0 < q < 1023 ==> level10(q) == 64 * q + 32,
        q == 0 ==> level10(q) == 0,
        q == 1023 ==> level10(q) == 65535,
        64 * half_of_level(v) <= 31 * v < 64 * half_of_level(v) + 64,
{
}

/// Of the levels of a pair of which the first is the larger, one lies within a
/// fourteenth of their distance of any level between them.
pub proof fn law_some_level_is_near(a0: int, a1: int, signed: bool, s: int) -> (j: int)
    requires
        a0 > a1,
        a0 - a1 <= 255,
        a1 <= s <= a0,
    ensures
        0 <= j < 8,
        -(a0 - a1 + 6) <= 14 * (alpha_levels(a0, a1, signed)[j] - s) <= a0 - a1 + 6,
{
    let d = a0 - a1;
    let x = s - a1;
    let k = (14 * x + d) / (2 * d);
    assert(2 * d * k <= 14 * x + d < 2 * d * k + 2 * d) by (nonlinear_arith)
        requires
            k == (14 * x + d) / (2 * d),
            d > 0,
    ;
    assert(0 <= k <= 7) by (nonlinear_arith)
        requires
            2 * d * k <= 14 * x + d,
            14 * x + d < 2 * d * k + 2 * d,
            0 <= x <= d,
            d > 0,
    ;
    assert(2 * d * k == 2 * (k * d)) by (nonlinear_arith);
    law_levels_are_sevenths(a0, a1, signed, k);
    seventh(k)
}

} // verus!
