//! What the block searches are never worse than.

use vstd::prelude::*;

use crate::encode::blocks::alpha::{all_pairs, alpha_block, alpha_encoded, consider, distinct, high_level, law_alpha_score, lemma_all_pairs_sound, lemma_consider_sound, lemma_levels_in_range, lemma_refined_sound, low_level, sample_levels};
use crate::encode::blocks::bc1::{axis_extremes, bc1_encoded, better, channel_high, channel_highs, channel_low, channel_lows, endpoint_block, lemma_bc1_encoded, lemma_endpoint_block, lemma_lattice_rounds, lemma_ls_rounds, ls_rounds, seeded, span_sum, BC1_LATTICE_ROUNDS};
use crate::encode::blocks::bc7::{bc7_encoded, best_fit6, brightest, darkest, fit6_bytes, luminances, mode4_block, mode5_block, negated, rotated, stands_out};
use crate::encode::blocks::laws::lemma_mode1_search_improves;
use crate::encode::blocks::{is_block, min_int, EncodeQuality};
use crate::encode::tuning::law_no_block_is_swept;
use crate::model::lemma_first_min;

verus! {

proof fn lemma_channel_bounds(px: Seq<Seq<u8>>, c: int, n: nat, i: int)
    requires
        0 <= i < n,
    ensures
        channel_low(px, c, n) <= px[i][c] <= channel_high(px, c, n),
    decreases n,
{
    if i < n - 1 {
        lemma_channel_bounds(px, c, (n - 1) as nat, i);
    }
}

/// Where two texels are more than two apart in alpha, a BC7 block errs no more than
/// with alpha decoupled, by either mode that does so.
pub proof fn law_bc7_decouples_alpha(px: Seq<Seq<u8>>, i: int, j: int)
    requires
        is_block(px),
        0 <= i < 16,
        0 <= j < 16,
        px[i][3] > px[j][3] + 2,
        best_fit6(px).5 > 0,
    ensures
        bc7_encoded(px).1 <= mode5_block(px, 0).1,
        bc7_encoded(px).1 <= mode4_block(px).1,
{
    lemma_channel_bounds(px, 3, 16, i);
    lemma_channel_bounds(px, 3, 16, j);
    let st0 = (fit6_bytes(best_fit6(px)), best_fit6(px).5);
    let st1 = better(better(st0, mode5_block(px, 0)), mode4_block(px));
    lemma_mode1_search_improves(px, st1, 8);
}

/// Where a colour channel varies more than each of the others, a BC7 block that errs
/// errs no more than with that channel decoupled.
pub proof fn law_bc7_decouples_what_stands_out(px: Seq<Seq<u8>>, c: int)
    requires
        is_block(px),
        0 <= c < 3,
        stands_out(px, c),
        bc7_encoded(px).1 > 0,
    ensures
        bc7_encoded(px).1 <= mode5_block(rotated(px, c), c + 1).1,
{
}

/// A BC1 block of more than slight spread errs no more than with its channels'
/// extremes as endpoints; and with more effort, where more than a slight error is
/// left, no more than with the extremes along its principal axis.
pub proof fn law_bc1_tries_its_seeds(px: Seq<Seq<u8>>, q: EncodeQuality)
    requires
        is_block(px),
        span_sum(px) >= 24,
    ensures
        bc1_encoded(px, q).1 <= endpoint_block(px, channel_highs(px, 3), channel_lows(px, 3)).1,
        q != EncodeQuality::Fast && bc1_encoded(px, q).1 > 16 ==> (axis_extremes(px) matches Some((a, b)) ==> bc1_encoded(
            px,
            q,
        ).1 <= endpoint_block(px, a, b).1),
{
    lemma_bc1_encoded(px, q);
    let with_axis = match axis_extremes(px) {
        Some((a, b)) => better(seeded(px), endpoint_block(px, a, b)),
        None => seeded(px),
    };
    lemma_endpoint_block(px, channel_highs(px, 3), channel_lows(px, 3));
    lemma_endpoint_block(px, brightest(px), darkest(px));
    if let Some((a, b)) = axis_extremes(px) {
        lemma_endpoint_block(px, a, b);
    }
    lemma_ls_rounds(px, with_axis, 4);
    lemma_lattice_rounds(px, ls_rounds(px, with_axis, 4), BC1_LATTICE_ROUNDS as nat);
}

/// Samples err no more than with their extremes as endpoints, in either order: with
/// seven even steps between them, or with five and the two limits.
pub proof fn law_samples_try_both_orders(s: Seq<u8>, q: EncodeQuality, signed: bool)
    requires
        s.len() == 16,
        low_level(s, signed) < high_level(s, signed),
    ensures
        alpha_encoded(s, q, signed).1 <= alpha_block(s, high_level(s, signed), low_level(s, signed), signed).1,
        alpha_encoded(s, q, signed).1 <= alpha_block(s, low_level(s, signed), high_level(s, signed), signed).1,
{
    law_no_block_is_swept(signed);
    lemma_levels_in_range(s, signed, 16);
    let (lo, hi) = (low_level(s, signed), high_level(s, signed));
    let first = alpha_block(s, hi, lo, signed);
    law_alpha_score(s, hi, lo, signed);
    lemma_consider_sound(s, first, lo, hi, signed);
    let st = consider(s, first, lo, hi, signed);
    let u = distinct(sample_levels(s, signed), 16);
    let n = min_int(u.len() as int, 6);
    let span = hi - lo;
    lemma_all_pairs_sound(s, st, u, u.len(), signed);
    lemma_refined_sound(s, st, n, span, q, signed);
    lemma_refined_sound(s, all_pairs(s, st, u, u.len(), signed), n, span, q, signed);
    if span > 4 {
        lemma_consider_sound(s, st, hi - 1, lo + 1, signed);
        let second = consider(s, st, hi - 1, lo + 1, signed);
        lemma_consider_sound(s, second, lo + 1, hi - 1, signed);
        lemma_refined_sound(s, consider(s, second, lo + 1, hi - 1, signed), n, span, q, signed);
    }
}

/// How bright a colour is: twice its red, three times its green and its blue.
pub open spec fn brightness(c: Seq<u8>) -> int {
    2 * c[0] + 3 * c[1] + c[2]
}

/// No texel is darker than the darkest or brighter than the brightest colour of a
/// block, and both are colours of texels.
pub proof fn law_extremes_are_by_brightness(px: Seq<Seq<u8>>, i: int)
    requires
        is_block(px),
        0 <= i < 16,
    ensures
        brightness(darkest(px)) <= brightness(px[i]) <= brightness(brightest(px)),
        exists|k: int| 0 <= k < 16 && darkest(px) == seq![#[trigger] px[k][0], px[k][1], px[k][2]],
        exists|k: int| 0 <= k < 16 && brightest(px) == seq![#[trigger] px[k][0], px[k][1], px[k][2]],
{
    let l = luminances(px);
    lemma_first_min(l, 16);
    lemma_first_min(negated(l), 16);
    assert(l[i] == brightness(px[i]) && negated(l)[i] == -brightness(px[i]));
    let (a, b) = (crate::model::first_min(l, 16), crate::model::first_min(negated(l), 16));
    assert(darkest(px) =~= seq![px[a][0], px[a][1], px[a][2]]);
    assert(brightest(px) =~= seq![px[b][0], px[b][1], px[b][2]]);
    assert(l[a] == brightness(px[a]) && negated(l)[b] == -brightness(px[b]));
}

/// The channels' extremes bound every texel.
pub proof fn law_channel_extremes_bound(px: Seq<Seq<u8>>, i: int, c: int)
    requires
        is_block(px),
        0 <= i < 16,
        0 <= c < 3,
    ensures
        channel_lows(px, 3)[c] <= px[i][c] <= channel_highs(px, 3)[c],
{
    lemma_channel_bounds(px, c, 16, i);
    lemma_channel_range(px, c, 16);
}

proof fn lemma_channel_range(px: Seq<Seq<u8>>, c: int, n: nat)
    ensures
        0 <= channel_low(px, c, n) <= 255,
        0 <= channel_high(px, c, n) <= 255,
    decreases n,
{
    if n > 0 {
        lemma_channel_range(px, c, (n - 1) as nat);
    }
}

} // verus!
