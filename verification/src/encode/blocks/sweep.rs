//! The wide endpoint sweep of BC4 and BC5.
//!
//! Every pair of levels within four of the block in hand is considered. A pair
//! whose palette cannot reach the extreme samples closely enough is passed over
//! without being fitted: it could not have won.

use vstd::prelude::*;

use crate::encode::blocks::alpha::{alpha_block, alpha_levels, alpha_palette, consider_alpha, has_levels, is_level, lemma_sample_fit, level_stored, moved_level, sample_costs, snorm_i32_to_unorm_u8, stored_level, unorm_of, window, window_row};
use crate::encode::blocks::bc1::Scored;
use crate::encode::blocks::max_int;
use crate::model::{best_of, fit_costs, lemma_first_min_in, lemma_sq, lemma_sq_monotone, lemma_total_grows, sq, total};

verus! {

/// How far the sweep goes.
pub const REACH: i32 = 4;

/// The sweep around the block in hand.
pub open spec fn swept(s: Seq<u8>, st: Scored, signed: bool) -> Scored {
    window(
        s,
        st,
        level_stored(st.0[0], signed),
        level_stored(st.0[1], signed),
        REACH as int,
        (2 * REACH + 1) as nat,
        signed,
    )
}

/// What a palette from `lo` up to `hi` leaves of the extreme samples at least.
pub open spec fn reach_error(smin: int, smax: int, lo: int, hi: int) -> int {
    sq(max_int(smax - hi, 0)) + sq(max_int(lo - smin, 0))
}

proof fn lemma_total_two(c: Seq<int>, i: int, j: int, n: nat)
    requires
        0 <= i < n,
        0 <= j < n,
        i != j,
        forall|k: int| 0 <= k < n ==> 0 <= #[trigger] c[k],
    ensures
        total(c, n) >= c[i] + c[j],
    decreases n,
{
    if i == n - 1 {
        lemma_total_one(c, j, (n - 1) as nat);
    } else if j == n - 1 {
        lemma_total_one(c, i, (n - 1) as nat);
    } else {
        lemma_total_two(c, i, j, (n - 1) as nat);
    }
}

proof fn lemma_total_one(c: Seq<int>, i: int, n: nat)
    requires
        0 <= i < n,
        forall|k: int| 0 <= k < n ==> 0 <= #[trigger] c[k],
    ensures
        total(c, n) >= c[i],
    decreases n,
{
    lemma_total_grows(c, 0, (n - 1) as nat);
    if i < n - 1 {
        lemma_total_one(c, i, (n - 1) as nat);
    }
}

proof fn lemma_levels_between(a0: int, a1: int, signed: bool, j: int)
    requires
        is_level(a0, signed),
        is_level(a1, signed),
        a0 > a1,
        0 <= j < 8,
    ensures
        a1 <= alpha_levels(a0, a1, signed)[j] <= a0,
{
}

proof fn lemma_unorm_monotone(v: int, w: int, signed: bool)
    requires
        is_level(v, signed),
        is_level(w, signed),
        v <= w,
    ensures
        unorm_of(v, signed) <= unorm_of(w, signed),
{
}

/// The palette of an ordered pair lies between the pair's own bytes.
proof fn lemma_palette_between(a0: int, a1: int, signed: bool, j: int)
    requires
        is_level(a0, signed),
        is_level(a1, signed),
        a0 > a1,
        0 <= j < 8,
    ensures
        unorm_of(a1, signed) <= alpha_palette(a0, a1, signed)[j] <= unorm_of(a0, signed),
{
    lemma_levels_between(a0, a1, signed, j);
    let v = alpha_levels(a0, a1, signed)[j];
    lemma_unorm_monotone(a1, v, signed);
    lemma_unorm_monotone(v, a0, signed);
}

/// A pair's block leaves at least what its palette cannot reach.
proof fn lemma_reach_error(s: Seq<u8>, a0: int, a1: int, signed: bool, lo: int, hi: int)
    requires
        s.len() == 16,
        is_level(a0, signed),
        is_level(a1, signed),
        a0 > a1,
        0 <= lo < 16,
        0 <= hi < 16,
        s[lo] <= s[hi],
    ensures
        alpha_block(s, a0, a1, signed).1 >= reach_error(
            s[lo] as int,
            s[hi] as int,
            unorm_of(a1, signed) as int,
            unorm_of(a0, signed) as int,
        ),
{
    reveal(alpha_block);
    let pal = alpha_palette(a0, a1, signed);
    let costs = sample_costs(s, pal);
    let c = fit_costs(costs);
    lemma_sample_fit(s, pal);
    let (plo, phi) = (unorm_of(a1, signed) as int, unorm_of(a0, signed) as int);
    let over = max_int(s[hi] - phi, 0);
    let under = max_int(plo - s[lo], 0);
    lemma_first_min_in(costs[hi], 8);
    lemma_first_min_in(costs[lo], 8);
    let (j, k) = (best_of(costs[hi]), best_of(costs[lo]));
    lemma_palette_between(a0, a1, signed, j);
    lemma_palette_between(a0, a1, signed, k);
    assert(c[hi] >= sq(over)) by {
        let d = pal[j] - s[hi];
        assert(c[hi] == sq(d));
        lemma_sq(d);
        lemma_sq(0);
        if over > 0 {
            assert(-d >= over);
            lemma_sq_monotone(over, -d);
        }
    }
    assert(c[lo] >= sq(under)) by {
        let d = pal[k] - s[lo];
        assert(c[lo] == sq(d));
        lemma_sq(d);
        lemma_sq(0);
        if under > 0 {
            assert(d >= under);
            lemma_sq_monotone(under, d);
        }
    }
    lemma_sq(0);
    if lo != hi {
        lemma_total_two(c, lo, hi, 16);
    } else {
        lemma_total_one(c, lo, 16);
        lemma_unorm_monotone(a1, a0, signed);
    }
}

/// The places of the least and of the greatest sample.
fn extreme_samples(samples: &[u8; 16]) -> (r: (usize, usize))
    ensures
        r.0 < 16,
        r.1 < 16,
        samples@[r.0 as int] <= samples@[r.1 as int],
        forall|i: int| 0 <= i < 16 ==> samples@[r.0 as int] <= #[trigger] samples@[i] <= samples@[r.1 as int],
{
    let mut lo: usize = 0;
    let mut hi: usize = 0;
    let mut i: usize = 1;
    while i < 16
        invariant
            1 <= i <= 16,
            lo < 16,
            hi < 16,
            forall|k: int| 0 <= k < i ==> samples@[lo as int] <= #[trigger] samples@[k] <= samples@[hi as int],
        decreases 16 - i,
    {
        if samples[i] < samples[lo] {
            lo = i;
        }
        if samples[i] > samples[hi] {
            hi = i;
        }
        i = i + 1;
    }
    (lo, hi)
}

fn shown_byte(v: i32, signed: bool) -> (u: u8)
    requires
        is_level(v as int, signed),
    ensures
        u == unorm_of(v as int, signed),
{
    if signed {
        snorm_i32_to_unorm_u8(v)
    } else {
        v as u8
    }
}

/// Whether a pair could still leave less than `err` of the extreme samples.
fn within_reach(smin: u8, smax: u8, a0: i32, a1: i32, signed: bool, err: i32) -> (r: bool)
    requires
        is_level(a0 as int, signed),
        is_level(a1 as int, signed),
        0 <= err <= 1040400,
    ensures
        r == (a0 <= a1 || reach_error(
            smin as int,
            smax as int,
            unorm_of(a1 as int, signed) as int,
            unorm_of(a0 as int, signed) as int,
        ) < err),
{
    if a0 <= a1 {
        return true;
    }
    let phi: i32 = shown_byte(a0, signed) as i32;
    let plo: i32 = shown_byte(a1, signed) as i32;
    let over: i32 = if smax as i32 > phi {
        smax as i32 - phi
    } else {
        0
    };
    let under: i32 = if plo > smin as i32 {
        plo - smin as i32
    } else {
        0
    };
    proof {
        lemma_sq(over as int);
        lemma_sq(under as int);
        reveal(sq);
    }
    over * over + under * under < err
}

/// Considers every pair of levels within four of the block in hand.
pub fn window_sweep(samples: &[u8; 16], signed: bool, best: &mut [u8; 8], best_err: &mut i32)
    requires
        0 <= *old(best_err) <= 1040400,
        has_levels(old(best)@, signed),
    ensures
        (final(best)@, *final(best_err) as int) == swept(samples@, (old(best)@, *old(best_err) as int), signed),
        0 <= *final(best_err) <= *old(best_err),
{
    let ghost start = (best@, *best_err as int);
    let b0: i32 = stored_level(best[0], signed);
    let b1: i32 = stored_level(best[1], signed);
    let (at_min, at_max) = extreme_samples(samples);
    let (smin, smax): (u8, u8) = (samples[at_min], samples[at_max]);
    let mut off: i32 = -REACH;
    while off <= REACH
        invariant
            -4 <= off <= 5,
            REACH == 4,
            is_level(b0 as int, signed),
            is_level(b1 as int, signed),
            at_min < 16,
            at_max < 16,
            smin == samples@[at_min as int],
            smax == samples@[at_max as int],
            smin <= smax,
            0 <= *best_err <= *old(best_err) <= 1040400,
            (best@, *best_err as int) == window(
                samples@,
                start,
                b0 as int,
                b1 as int,
                4,
                (off + 4) as nat,
                signed,
            ),
        decreases 5 - off,
    {
        let ghost row = (best@, *best_err as int);
        let mut off1: i32 = -REACH;
        while off1 <= REACH
            invariant
                -4 <= off <= 4,
                -4 <= off1 <= 5,
                REACH == 4,
                is_level(b0 as int, signed),
                is_level(b1 as int, signed),
                at_min < 16,
                at_max < 16,
                smin == samples@[at_min as int],
                smax == samples@[at_max as int],
                smin <= smax,
                0 <= *best_err <= *old(best_err) <= 1040400,
                (best@, *best_err as int) == window_row(
                    samples@,
                    row,
                    b0 as int,
                    b1 as int,
                    4,
                    off as int,
                    (off1 + 4) as nat,
                    signed,
                ),
            decreases 5 - off1,
        {
            if off != 0 || off1 != 0 {
                let a0: i32 = moved_level(b0, off, signed);
                let a1: i32 = moved_level(b1, off1, signed);
                proof {
                    if a0 > a1 {
                        lemma_reach_error(
                            samples@,
                            a0 as int,
                            a1 as int,
                            signed,
                            at_min as int,
                            at_max as int,
                        );
                    }
                }
                if within_reach(smin, smax, a0, a1, signed, *best_err) {
                    consider_alpha(a0, a1, signed, samples, best, best_err);
                }
            }
            off1 = off1 + 1;
        }
        off = off + 1;
    }
}

/// Whether the residual and the span promise that the sweep repays its cost.
pub open spec fn worth_sweeping(span: int, err: int, signed: bool) -> bool {
    err > 4 && (if signed {
        8 <= span <= 32
    } else {
        16 <= span <= 64
    })
}

/// Whether the residual and the span promise that the sweep repays its cost.
pub fn sweep_gate(span: i32, best_err: i32, signed: bool) -> (r: bool)
    ensures
        r == worth_sweeping(span as int, best_err as int, signed),
{
    best_err > 4 && (if signed {
        span >= 8 && span <= 32
    } else {
        span >= 16 && span <= 64
    })
}

} // verus!
