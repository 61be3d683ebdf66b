//! How far what a block decodes to can lie from the texels it was made of.
//!
//! Everything here is told of the texels, of the bytes that encoding gives and
//! of the texels that decoding gives: not of how a block is found.

use vstd::prelude::*;

use crate::binary32::less;
use crate::content::DecodeContent;
use crate::decode::bcdec::{bc1_texels, bc2_texels, bc3_texels, bc4_bytes, colour_texels, decoded_colour};
use crate::decode::bcn::block_rgba;
use crate::decode::slice_pixels;
use crate::encode::blocks::alpha::{alpha_block, alpha_decoded_costs, alpha_decoded_error, alpha_encoded, alpha_flat, alpha_index_word, alpha_indices, alpha_levels, alpha_palette, column, high_level, lemma_alpha_encoded, lemma_consider_sound, lemma_levels_in_range, law_alpha_score, level_of_sample, level_stored, low_level, sample_costs, sample_levels, seq_high, seq_low, unorm_of};
use crate::encode::blocks::bc1::{bc1_encoded, bc2_alpha, block_costs, block_error, block_palette, channel_high, channel_highs, channel_low, channel_lows, endpoint_block, four_colour, lemma_bc1_encoded, lemma_three_colour, palette_four, palette_three, punch_indices, span_sum, three_colour};
use crate::encode::blocks::bc7::{bc7_encoded, best_fit6, best_low_bit, brightest, bytes7, darkest, fit6, interp_rows, largest_texel, level7, level_costs, levels7, lemma_rgba_fit, luminances, rgba_costs, rgba_distance, smallest_texel, weights4};
use crate::encode::blocks::laws::{law_bc1_decodes_within_one_of_the_model, law_bc2_alpha_decodes, law_bc2_and_bc3_colours_are_bc1_colours, law_bc3_alpha_decodes_within_one_of_the_model, law_bc4_flat_score, law_bc4_score, law_bc5_channels_decode, law_bc7_never_worse_than_mode6, lemma_alpha_levels, lemma_digit_below, samples_error, shown};
use crate::encode::blocks::laws_levels::law_some_level_is_near;
use crate::encode::blocks::laws_mode45::{law_bc7_score_is_decoded_error, law_bc7_writes_known_modes};
use crate::encode::blocks::rdo::block_at;
use crate::encode::blocks::rdo7::{decoded_costs7, decoded_error7};
use crate::encode::blocks::{block_count, color565, is_block, max_int, min_int, rgb_costs, rgb_distance, word565, EncodeQuality};
use crate::encode::laws::{block_of, law_texels_decode_from_their_blocks};
use crate::encode::slice::{encoded_block, is_flat, optimised, slice_payload};
use crate::model::{best_of, digits_of, fit_costs, fit_error, le16, le32, lemma_first_min, lemma_first_min_in, lemma_sq, lemma_total_bound, lemma_total_eq, sq, total};
use crate::swizzle::{law_swap_is_self_inverse, swapped};

verus! {

/// Channel `c` of every texel lies between `lo[c]` and `hi[c]`.
pub open spec fn between(px: Seq<Seq<u8>>, lo: Seq<int>, hi: Seq<int>) -> bool {
    forall|i: int, c: int| 0 <= i < 16 && 0 <= c < 4 ==> lo[c] <= #[trigger] px[i][c] <= hi[c]
}

/// The square of a channel's spread and `slack` more.
#[verifier::opaque]
pub open spec fn spread2(lo: Seq<int>, hi: Seq<int>, c: int, slack: int) -> int {
    (hi[c] - lo[c] + slack) * (hi[c] - lo[c] + slack)
}

/// The square of a fourteenth of a channel's spread, rounded: what the nearest of
/// eight even levels can be off by.
#[verifier::opaque]
pub open spec fn step2(lo: Seq<int>, hi: Seq<int>, c: int) -> int {
    ((hi[c] - lo[c] + 6) / 14) * ((hi[c] - lo[c] + 6) / 14)
}

/// The squared distance of texel `i` from sixteen decoded RGBA texels, over the
/// first `n` channels.
pub open spec fn distance_over(px: Seq<Seq<u8>>, out: Seq<u8>, i: int, n: int) -> int {
    (if n > 0 {
        (out[4 * i] - px[i][0]) * (out[4 * i] - px[i][0])
    } else {
        0
    }) + (if n > 1 {
        (out[4 * i + 1] - px[i][1]) * (out[4 * i + 1] - px[i][1])
    } else {
        0
    }) + (if n > 2 {
        (out[4 * i + 2] - px[i][2]) * (out[4 * i + 2] - px[i][2])
    } else {
        0
    }) + (if n > 3 {
        (out[4 * i + 3] - px[i][3]) * (out[4 * i + 3] - px[i][3])
    } else {
        0
    })
}

proof fn lemma_square_within(x: int, m: int)
    requires
        -m <= x <= m,
    ensures
        0 <= sq(x) <= m * m,
{
    reveal(sq);
    assert(0 <= x * x <= m * m) by (nonlinear_arith)
        requires
            -m <= x <= m,
    ;
}

proof fn lemma_one_more(d: int, m: int)
    requires
        -1 <= d - m <= 1,
    ensures
        d * d <= 2 * sq(m) + 2,
{
    reveal(sq);
    let e = d - m;
    assert(d * d <= 2 * (m * m) + 2) by (nonlinear_arith)
        requires
            d == m + e,
            -1 <= e <= 1,
    ;
}

proof fn lemma_word_fields(r: int, g: int, b: int)
    requires
        0 <= r < 32,
        0 <= g < 64,
        0 <= b < 32,
    ensures
        ({
            let w = r * 2048 + g * 32 + b;
            0 <= w < 65536 && w / 2048 % 32 == r && w / 32 % 64 == g && w % 32 == b
        }),
{
}

proof fn lemma_stretch_near(v: int)
    requires
        0 <= v < 256,
    ensures
        -7 <= v / 8 * 8 + v / 8 / 4 - v <= 7,
        -7 <= v / 4 * 4 + v / 4 / 16 - v <= 7,
        0 <= v / 8 * 8 + v / 8 / 4 < 256,
        0 <= v / 4 * 4 + v / 4 / 16 < 256,
{
}

/// A colour and the colour of its 5:6:5 word differ by seven at most.
proof fn lemma_word_near(v: Seq<u8>)
    ensures
        0 <= word565(v) < 65536,
        -7 <= color565(word565(v))[0] - v[0] <= 7,
        -7 <= color565(word565(v))[1] - v[1] <= 7,
        -7 <= color565(word565(v))[2] - v[2] <= 7,
{
    lemma_word_fields(v[0] as int / 8, v[1] as int / 4, v[2] as int / 8);
    lemma_stretch_near(v[0] as int);
    lemma_stretch_near(v[1] as int);
    lemma_stretch_near(v[2] as int);
}

/// Painting a block in one colour near its texels bounds what a fit errs by.
proof fn lemma_fit_near(px: Seq<Seq<u8>>, lo: Seq<int>, hi: Seq<int>, pal: Seq<Seq<u8>>, j: int, near: Seq<u8>)
    requires
        is_block(px),
        between(px, lo, hi),
        0 <= j < pal.len() <= 16,
        forall|c: int| 0 <= c < 3 ==> lo[c] <= #[trigger] near[c] <= hi[c],
        forall|c: int| 0 <= c < 3 ==> -7 <= #[trigger] pal[j][c] - near[c] <= 7,
    ensures
        fit_error(rgb_costs(px, pal)) <= 16 * (spread2(lo, hi, 0, 7) + spread2(lo, hi, 1, 7) + spread2(lo, hi, 2, 7)),
{
    reveal(spread2);
    let costs = rgb_costs(px, pal);
    let b = spread2(lo, hi, 0, 7) + spread2(lo, hi, 1, 7) + spread2(lo, hi, 2, 7);
    assert forall|i: int| 0 <= i < 16 implies 0 <= #[trigger] fit_costs(costs)[i] <= b by {
        lemma_first_min(costs[i], pal.len());
        assert(costs[i][j] == rgb_distance(px[i], pal[j]));
        let k = best_of(costs[i]);
        assert(costs[i][k] <= costs[i][j]);
        crate::encode::blocks::lemma_rgb_distance(px[i], pal[k]);
        assert(lo[0] <= near[0] <= hi[0] && lo[1] <= near[1] <= hi[1] && lo[2] <= near[2] <= hi[2]);
        assert(-7 <= pal[j][0] - near[0] <= 7 && -7 <= pal[j][1] - near[1] <= 7 && -7 <= pal[j][2] - near[2] <= 7);
        assert(lo[0] <= px[i][0] <= hi[0] && lo[1] <= px[i][1] <= hi[1] && lo[2] <= px[i][2] <= hi[2]);
        lemma_square_within(px[i][0] - pal[j][0], hi[0] - lo[0] + 7);
        lemma_square_within(px[i][1] - pal[j][1], hi[1] - lo[1] + 7);
        lemma_square_within(px[i][2] - pal[j][2], hi[2] - lo[2] + 7);
    }
    lemma_total_bound(fit_costs(costs), 16, b);
}

/// The block of two words is bounded by the second word's distance.
proof fn lemma_four_near(px: Seq<Seq<u8>>, lo: Seq<int>, hi: Seq<int>, a: int, b: int, near: Seq<u8>)
    requires
        is_block(px),
        between(px, lo, hi),
        a != b,
        forall|c: int| 0 <= c < 3 ==> lo[c] <= #[trigger] near[c] <= hi[c],
        -7 <= color565(b)[0] - near[0] <= 7,
        -7 <= color565(b)[1] - near[1] <= 7,
        -7 <= color565(b)[2] - near[2] <= 7,
    ensures
        four_colour(px, max_int(a, b), min_int(a, b)).1 <= 16 * (spread2(lo, hi, 0, 7) + spread2(lo, hi, 1, 7) + spread2(
            lo,
            hi,
            2,
            7,
        )),
{
    let (x, y) = (max_int(a, b), min_int(a, b));
    reveal(four_colour);
    let pal = palette_four(x, y);
    let j: int = if x == b {
        0
    } else {
        1
    };
    let v = color565(b);
    assert(pal[j] == v);
    assert forall|c: int| 0 <= c < 3 implies -7 <= #[trigger] pal[j][c] - near[c] <= 7 by {
        assert(c == 0 || c == 1 || c == 2);
    }
    lemma_fit_near(px, lo, hi, pal, j, near);
}

/// What a pair of colours that quantise to two words, or to one that is not
/// white, leads to is bounded by the second colour's distance.
proof fn lemma_endpoints_near(px: Seq<Seq<u8>>, lo: Seq<int>, hi: Seq<int>, first: Seq<u8>, second: Seq<u8>)
    requires
        is_block(px),
        between(px, lo, hi),
        forall|c: int| 0 <= c < 3 ==> lo[c] <= #[trigger] second[c] <= hi[c],
        word565(first) != 65535 || word565(second) != 65535,
    ensures
        endpoint_block(px, first, second).1 <= 16 * (spread2(lo, hi, 0, 7) + spread2(lo, hi, 1, 7) + spread2(
            lo,
            hi,
            2,
            7,
        )),
{
    lemma_word_near(first);
    lemma_word_near(second);
    let b = word565(second);
    let a = if word565(first) != b {
        word565(first)
    } else {
        b + 1
    };
    assert(a != b);
    assert(endpoint_block(px, first, second) == four_colour(px, max_int(a, b), min_int(a, b)));
    lemma_four_near(px, lo, hi, a, b, second);
}

proof fn lemma_channel_extremes(px: Seq<Seq<u8>>, lo: Seq<int>, hi: Seq<int>, c: int, n: nat)
    requires
        between(px, lo, hi),
        0 <= c < 4,
        n <= 16,
    ensures
        n > 0 ==> lo[c] <= channel_low(px, c, n) <= hi[c] && lo[c] <= channel_high(px, c, n) <= hi[c],
        0 <= channel_low(px, c, n) <= 255,
        0 <= channel_high(px, c, n) <= 255,
    decreases n,
{
    if n > 0 {
        lemma_channel_extremes(px, lo, hi, c, (n - 1) as nat);
        assert(lo[c] <= px[n - 1][c] <= hi[c]);
        if n == 1 {
            assert(channel_low(px, c, 0) == 255 && channel_high(px, c, 0) == 0);
        }
    }
}

/// Where the darkest colour quantises to white, every texel is near white.
proof fn lemma_all_near_white(px: Seq<Seq<u8>>, i: int)
    requires
        is_block(px),
        word565(darkest(px)) == 65535,
        0 <= i < 16,
    ensures
        px[i][0] >= 240,
        px[i][1] >= 245,
        px[i][2] >= 225,
        darkest(px)[0] >= 248,
        darkest(px)[1] >= 252,
        darkest(px)[2] >= 248,
{
    let v = darkest(px);
    let (r, g, b) = (v[0] as int / 8, v[1] as int / 4, v[2] as int / 8);
    assert(r * 2048 + g * 32 + b == 65535 && r <= 31 && g <= 63 && b <= 31);
    let ls = luminances(px);
    lemma_first_min(ls, 16);
    let k = crate::model::first_min(ls, 16);
    assert(ls[k] <= ls[i]);
    assert(ls[k] == px[k][0] * 2 + px[k][1] * 3 + px[k][2]);
    assert(ls[i] == px[i][0] * 2 + px[i][1] * 3 + px[i][2]);
}

/// The squared colour distance of texel `i`, but none where a transparent texel
/// decodes as transparent.
pub open spec fn visible_distance(px: Seq<Seq<u8>>, out: Seq<u8>, i: int) -> int {
    if out[4 * i + 3] == 0 && px[i][3] < 128 {
        0
    } else {
        distance_over(px, out, i, 3)
    }
}

/// The sum of those distances.
pub open spec fn visible_error(px: Seq<Seq<u8>>, out: Seq<u8>) -> int {
    total(Seq::new(16, |i: int| visible_distance(px, out, i)), 16)
}

/// The squared distance over the first `n` channels, summed over the texels.
pub open spec fn error_over(px: Seq<Seq<u8>>, out: Seq<u8>, n: int) -> int {
    total(Seq::new(16, |i: int| distance_over(px, out, i, n)), 16)
}

/// What colours are allowed to err by: twice the spread, with the slack of a
/// 5:6:5 word and of a decoder's rounding.
pub open spec fn colour_allowance(lo: Seq<int>, hi: Seq<int>) -> int {
    32 * (spread2(lo, hi, 0, 7) + spread2(lo, hi, 1, 7) + spread2(lo, hi, 2, 7)) + 96
}

/// The decoder's colours lie within one of the model's.
proof fn lemma_decoded_cost(px: Seq<Seq<u8>>, block: Seq<u8>, i: int)
    requires
        block.len() == 8,
        0 <= i < 16,
    ensures
        0 <= visible_distance(px, bc1_texels(block), i) <= 2 * block_costs(px, block)[i] + 6,
        0 <= distance_over(px, bc1_texels(block), i, 3) <= 2 * block_costs(px, block)[i] + 6,
        block_costs(px, block)[i] >= 0,
{
    law_bc1_decodes_within_one_of_the_model(block, i, 0);
    law_bc1_decodes_within_one_of_the_model(block, i, 1);
    law_bc1_decodes_within_one_of_the_model(block, i, 2);
    let out = bc1_texels(block);
    let m = block_palette(le16(block, 0), le16(block, 2))[digits_of(le32(block, 4), 4, 16)[i] as int];
    lemma_one_more(out[4 * i] - px[i][0], m[0] - px[i][0]);
    lemma_one_more(out[4 * i + 1] - px[i][1], m[1] - px[i][1]);
    lemma_one_more(out[4 * i + 2] - px[i][2], m[2] - px[i][2]);
    lemma_sq(m[0] - px[i][0]);
    lemma_sq(m[1] - px[i][1]);
    lemma_sq(m[2] - px[i][2]);
    assert(px[i][0] - m[0] == -(m[0] - px[i][0]));
    assert(px[i][1] - m[1] == -(m[1] - px[i][1]));
    assert(px[i][2] - m[2] == -(m[2] - px[i][2]));
    let (x, y, z) = (out[4 * i] - px[i][0], out[4 * i + 1] - px[i][1], out[4 * i + 2] - px[i][2]);
    assert(x * x >= 0 && y * y >= 0 && z * z >= 0) by (nonlinear_arith);
}

proof fn lemma_twice(s: Seq<int>, t: Seq<int>, n: nat)
    requires
        forall|i: int| 0 <= i < n ==> #[trigger] s[i] <= 2 * t[i] + 6,
    ensures
        total(s, n) <= 2 * total(t, n) + 6 * n,
    decreases n,
{
    if n > 0 {
        lemma_twice(s, t, (n - 1) as nat);
        assert(s[n - 1] <= 2 * t[n - 1] + 6);
    }
}

/// The words of a block are not both white, or its texels spread widely: then
/// the model's error is bounded.
proof fn lemma_bc1_model_bound(px: Seq<Seq<u8>>, q: EncodeQuality, lo: Seq<int>, hi: Seq<int>)
    requires
        is_block(px),
        between(px, lo, hi),
        span_sum(px) >= 24 || word565(brightest(px)) != 65535 || word565(darkest(px)) != 65535,
    ensures
        block_error(px, bc1_encoded(px, q).0) <= 16 * (spread2(lo, hi, 0, 7) + spread2(lo, hi, 1, 7) + spread2(
            lo,
            hi,
            2,
            7,
        )),
{
    lemma_bc1_encoded(px, q);
    if span_sum(px) >= 24 {
        let (h, l) = (channel_highs(px, 3), channel_lows(px, 3));
        lemma_channel_extremes(px, lo, hi, 0, 16);
        lemma_channel_extremes(px, lo, hi, 1, 16);
        lemma_channel_extremes(px, lo, hi, 2, 16);
        assert forall|c: int| 0 <= c < 3 implies lo[c] <= #[trigger] l[c] <= hi[c] by {
            assert(l[c] == channel_low(px, c, 16) as u8);
        }
        let (r, g, b) = (l[0] as int / 8, l[1] as int / 4, l[2] as int / 8);
        if word565(l) == 65535 {
            assert(r * 2048 + g * 32 + b == 65535 && r <= 31 && g <= 63 && b <= 31);
            assert(l[0] >= 248 && l[1] >= 252 && l[2] >= 248);
            assert(h[0] <= 255 && h[1] <= 255 && h[2] <= 255);
            assert(false);
        }
        lemma_endpoints_near(px, lo, hi, h, l);
    } else {
        let d = darkest(px);
        let k = crate::model::first_min(luminances(px), 16);
        lemma_first_min_in(luminances(px), 16);
        assert forall|c: int| 0 <= c < 3 implies lo[c] <= #[trigger] d[c] <= hi[c] by {
            assert(d[c] == px[k][c]);
        }
        lemma_endpoints_near(px, lo, hi, brightest(px), d);
    }
}

/// A block whose colours all quantise to white: opaque texels decode as white.
proof fn lemma_white_block(px: Seq<Seq<u8>>, q: EncodeQuality, lo: Seq<int>, hi: Seq<int>, i: int)
    requires
        is_block(px),
        between(px, lo, hi),
        span_sum(px) < 24,
        word565(brightest(px)) == 65535,
        word565(darkest(px)) == 65535,
        0 <= i < 16,
    ensures
        ({
            let out = bc1_texels(bc1_encoded(px, q).0);
            let b = spread2(lo, hi, 0, 7) + spread2(lo, hi, 1, 7) + spread2(lo, hi, 2, 7);
            &&& 0 <= visible_distance(px, out, i) <= b
            &&& px[i][3] >= 128 ==> out[4 * i + 3] == 255
            &&& colour_texels(bc1_encoded(px, q).0, true)[4 * i] == 255
            &&& colour_texels(bc1_encoded(px, q).0, true)[4 * i + 1] == 255
            &&& colour_texels(bc1_encoded(px, q).0, true)[4 * i + 2] == 255
            &&& 0 <= (255 - px[i][0]) * (255 - px[i][0]) + (255 - px[i][1]) * (255 - px[i][1]) + (255 - px[i][2]) * (255
                - px[i][2]) <= b
        }),
{
    let block = bc1_encoded(px, q).0;
    assert(bc1_encoded(px, q) == three_colour(px, 65535));
    lemma_three_colour(px, 65535);
    lemma_all_near_white(px, i);
    let pal = palette_three(65535, 65535);
    let costs = rgb_costs(px, pal)[i];
    lemma_first_min(costs, 4);
    reveal(sq);
    reveal(spread2);
    assert(pal[0] == seq![255u8, 255u8, 255u8]) by {
        assert(pal[0] =~= seq![255u8, 255u8, 255u8]);
    }
    assert(pal[3] == seq![0u8, 0u8, 0u8]);
    let (r, g, b) = (px[i][0] as int, px[i][1] as int, px[i][2] as int);
    assert(costs[0] == rgb_distance(px[i], pal[0]) && costs[3] == rgb_distance(px[i], pal[3]));
    let (x, y, z) = (255 - r, 255 - g, 255 - b);
    assert(0 <= x * x <= 225 && 0 <= y * y <= 100 && 0 <= z * z <= 900 && r * r >= 57600) by (nonlinear_arith)
        requires
            x == 255 - r,
            y == 255 - g,
            z == 255 - b,
            240 <= r <= 255,
            245 <= g <= 255,
            225 <= b <= 255,
    ;
    assert((r - 255) * (r - 255) == x * x && (g - 255) * (g - 255) == y * y && (b - 255) * (b - 255) == z * z)
        by (nonlinear_arith)
        requires
            x == 255 - r,
            y == 255 - g,
            z == 255 - b,
    ;
    assert(g * g >= 0 && b * b >= 0) by (nonlinear_arith);
    assert(best_of(costs) != 3);
    let k = digits_of(le32(block, 4), 4, 16)[i] as int;
    assert(k == punch_indices(px, pal)[i]);
    assert((4 * i) / 4 == i && (4 * i + 1) / 4 == i && (4 * i + 2) / 4 == i && (4 * i + 3) / 4 == i);
    assert(decoded_colour(65535, 65535, false, 0) =~= seq![255u8, 255u8, 255u8, 255u8]);
    assert(decoded_colour(65535, 65535, false, 1) =~= seq![255u8, 255u8, 255u8, 255u8]);
    assert(decoded_colour(65535, 65535, false, 2) =~= seq![255u8, 255u8, 255u8, 255u8]);
    assert(decoded_colour(65535, 65535, true, 2) =~= seq![255u8, 255u8, 255u8, 255u8]);
    assert(decoded_colour(65535, 65535, true, 3) =~= seq![255u8, 255u8, 255u8, 255u8]);
    let d = darkest(px);
    let j = crate::model::first_min(luminances(px), 16);
    lemma_first_min_in(luminances(px), 16);
    assert(d[0] == px[j][0] && d[1] == px[j][1] && d[2] == px[j][2]);
    assert(lo[0] <= px[j][0] <= hi[0] && lo[1] <= px[j][1] <= hi[1] && lo[2] <= px[j][2] <= hi[2]);
    assert(lo[0] <= px[i][0] <= hi[0] && lo[1] <= px[i][1] <= hi[1] && lo[2] <= px[i][2] <= hi[2]);
    lemma_square_within(x, hi[0] - lo[0] + 7);
    lemma_square_within(y, hi[1] - lo[1] + 7);
    lemma_square_within(z, hi[2] - lo[2] + 7);
}

/// The colours of a BC1 block, read as BC1, lie near its texels.
proof fn lemma_bc1_bound(px: Seq<Seq<u8>>, q: EncodeQuality, lo: Seq<int>, hi: Seq<int>)
    requires
        is_block(px),
        between(px, lo, hi),
    ensures
        bc1_encoded(px, q).0.len() == 8,
        visible_error(px, bc1_texels(bc1_encoded(px, q).0)) <= colour_allowance(lo, hi),
{
    lemma_bc1_encoded(px, q);
    let block = bc1_encoded(px, q).0;
    let out = bc1_texels(block);
    let got = Seq::new(16, |i: int| visible_distance(px, out, i));
    if span_sum(px) >= 24 || word565(brightest(px)) != 65535 || word565(darkest(px)) != 65535 {
        lemma_bc1_model_bound(px, q, lo, hi);
        reveal(block_error);
        assert forall|i: int| 0 <= i < 16 implies #[trigger] got[i] <= 2 * block_costs(px, block)[i] + 6 by {
            lemma_decoded_cost(px, block, i);
        }
        lemma_twice(got, block_costs(px, block), 16);
    } else {
        let b = spread2(lo, hi, 0, 7) + spread2(lo, hi, 1, 7) + spread2(lo, hi, 2, 7);
        assert forall|i: int| 0 <= i < 16 implies 0 <= #[trigger] got[i] <= b by {
            lemma_white_block(px, q, lo, hi, i);
        }
        lemma_total_bound(got, 16, b);
    }
}

/// A sample and the byte that its level stands for differ by one at most.
proof fn lemma_level_near(u: u8, signed: bool)
    ensures
        -1 <= unorm_of(level_of_sample(u, signed), signed) - u <= 1,
        !signed ==> unorm_of(level_of_sample(u, signed), signed) == u,
{
    if signed {
        let t = (u * 253 + 127) / 254;
        assert(0 <= t <= 254);
        let f = (t * 255 + 127) / 254;
        assert(0 <= f <= 255);
    }
}

/// The greatest level is a sample's.
proof fn lemma_high_is_a_sample(s: Seq<u8>, signed: bool, n: nat) -> (k: int)
    requires
        s.len() == 16,
        0 < n <= 16,
    ensures
        0 <= k < n,
        seq_high(sample_levels(s, signed), crate::encode::blocks::alpha::lowest(signed), n) == level_of_sample(
            s[k],
            signed,
        ),
    decreases n,
{
    let lv = sample_levels(s, signed);
    let init = crate::encode::blocks::alpha::lowest(signed);
    assert(lv[n - 1] == level_of_sample(s[n - 1], signed));
    if n == 1 {
        assert(seq_high(lv, init, 0) == init);
        0
    } else {
        let k = lemma_high_is_a_sample(s, signed, (n - 1) as nat);
        if seq_high(lv, init, (n - 1) as nat) >= lv[n - 1] {
            k
        } else {
            n - 1
        }
    }
}

/// What the extreme levels as endpoints err by.
proof fn lemma_alpha_seed(s: Seq<u8>, lo: int, hi: int, signed: bool)
    requires
        s.len() == 16,
        forall|i: int| 0 <= i < 16 ==> lo <= #[trigger] s[i] <= hi,
    ensures
        alpha_block(s, high_level(s, signed), low_level(s, signed), signed).1 <= 16 * ((hi - lo + 1) * (hi - lo + 1)),
        !signed ==> alpha_block(s, high_level(s, signed), low_level(s, signed), signed).1 <= 16 * (((hi - lo + 6) / 14) * ((hi
            - lo + 6) / 14)),
{
    if !signed {
        lemma_even_seed(s, lo, hi);
    }
    reveal(alpha_block);
    let (a, b) = (high_level(s, signed), low_level(s, signed));
    let k = lemma_high_is_a_sample(s, signed, 16);
    lemma_level_near(s[k], signed);
    let pal = alpha_palette(a, b, signed);
    assert(pal[0] == unorm_of(a, signed));
    let costs = sample_costs(s, pal);
    let m = hi - lo + 1;
    assert forall|i: int| 0 <= i < 16 implies 0 <= #[trigger] fit_costs(costs)[i] <= m * m by {
        lemma_first_min(costs[i], 8);
        assert(costs[i].len() == 8);
        assert(lo <= s[i] <= hi && lo <= s[k] <= hi);
        lemma_square_within(pal[0] - s[i], m);
        assert(costs[i][0] == sq(pal[0] - s[i]));
        lemma_sq(pal[best_of(costs[i])] - s[i]);
    }
    lemma_total_bound(fit_costs(costs), 16, m * m);
}

proof fn lemma_extremes(s: Seq<u8>, lo: int, hi: int, n: nat)
    requires
        s.len() == 16,
        n <= 16,
        forall|i: int| 0 <= i < 16 ==> lo <= #[trigger] s[i] <= hi,
    ensures
        ({
            let lv = sample_levels(s, false);
            let (a, b) = (
                seq_high(lv, crate::encode::blocks::alpha::lowest(false), n),
                seq_low(lv, crate::encode::blocks::alpha::highest(false), n),
            );
            &&& forall|i: int| 0 <= i < n ==> b <= #[trigger] s[i] <= a
            &&& n > 0 ==> lo <= b && a <= hi
            &&& n == 0 ==> a == 0 && b == 255
        }),
    decreases n,
{
    let lv = sample_levels(s, false);
    if n > 0 {
        lemma_extremes(s, lo, hi, (n - 1) as nat);
        assert(lv[n - 1] == s[n - 1]);
        assert(lo <= s[n - 1] <= hi);
    }
}

/// Eight even levels between the extreme samples are near every sample.
proof fn lemma_even_seed(s: Seq<u8>, lo: int, hi: int)
    requires
        s.len() == 16,
        forall|i: int| 0 <= i < 16 ==> lo <= #[trigger] s[i] <= hi,
    ensures
        alpha_block(s, high_level(s, false), low_level(s, false), false).1 <= 16 * (((hi - lo + 6) / 14) * ((hi - lo + 6) / 14)),
{
    reveal(alpha_block);
    let (a, b) = (high_level(s, false), low_level(s, false));
    lemma_extremes(s, lo, hi, 16);
    lemma_levels_in_range(s, false, 16);
    let pal = alpha_palette(a, b, false);
    let costs = sample_costs(s, pal);
    let m = (hi - lo + 6) / 14;
    assert forall|i: int| 0 <= i < 16 implies 0 <= #[trigger] fit_costs(costs)[i] <= m * m by {
        lemma_first_min(costs[i], 8);
        assert(costs[i].len() == 8);
        assert(b <= s[i] <= a);
        lemma_sq(pal[best_of(costs[i])] - s[i]);
        let j: int = if a > b {
            law_some_level_is_near(a, b, false, s[i] as int)
        } else {
            0
        };
        lemma_alpha_levels(a, b, false, j);
        assert(pal[j] == alpha_levels(a, b, false)[j]);
        assert(-m <= pal[j] - s[i] <= m);
        lemma_square_within(pal[j] - s[i], m);
        assert(costs[i][j] == sq(pal[j] - s[i]));
    }
    lemma_total_bound(fit_costs(costs), 16, m * m);
}

/// The eight bytes that samples are stored as, either way.
pub open spec fn stored_samples(s: Seq<u8>, q: EncodeQuality, flat: bool, signed: bool) -> Seq<u8> {
    if flat {
        alpha_flat(s, signed).0
    } else {
        alpha_encoded(s, q, signed).0
    }
}

proof fn lemma_samples_bound(s: Seq<u8>, q: EncodeQuality, flat: bool, lo: int, hi: int, signed: bool)
    requires
        s.len() == 16,
        forall|i: int| 0 <= i < 16 ==> lo <= #[trigger] s[i] <= hi,
    ensures
        stored_samples(s, q, flat, signed).len() == 8,
        samples_error(s, bc4_bytes(stored_samples(s, q, flat, signed), signed), signed) <= 16 * ((hi - lo + 1) * (hi - lo
            + 1)),
        !signed ==> samples_error(s, bc4_bytes(stored_samples(s, q, flat, signed), signed), signed) <= 16 * (((hi - lo + 6)
            / 14) * ((hi - lo + 6) / 14)),
{
    lemma_alpha_seed(s, lo, hi, signed);
    lemma_alpha_encoded(s, q, signed);
    law_bc4_score(s, q, signed);
    law_bc4_flat_score(s, signed);
    lemma_levels_in_range(s, signed, 16);
    let (a, b) = (high_level(s, signed), low_level(s, signed));
    law_alpha_score(s, a, b, signed);
    lemma_consider_sound(s, alpha_block(s, a, b, signed), b, a, signed);
}

/// A signed byte's level, from -127 to 127, lies off a sample by this much: both
/// on a scale of 64770 steps, where a level is 255 and a sample 254.
pub open spec fn signed_offset(b: u8, s: u8) -> int {
    255 * ((if b >= 128 {
        b - 256
    } else {
        b as int
    }) + 127) - 254 * s
}

proof fn lemma_signed_offset(b: u8, s: u8)
    requires
        level_stored(b, true) >= -127,
    ensures
        signed_offset(b, s) * signed_offset(b, s) <= 129032 * sq(shown(b, true) - s) + 32258,
{
    reveal(sq);
    let l = level_stored(b, true);
    let f = ((l + 127) * 255 + 127) / 254;
    assert(0 <= f <= 255);
    assert(shown(b, true) == f);
    let d = f - s;
    let o = signed_offset(b, s);
    let r = o - 254 * d;
    assert(-127 <= r <= 127);
    assert(o * o <= 129032 * (d * d) + 32258) by (nonlinear_arith)
        requires
            o == 254 * d + r,
            -127 <= r <= 127,
    ;
}

proof fn lemma_signed_total(s: Seq<u8>, bytes: Seq<u8>, n: nat)
    requires
        n <= 16,
        forall|i: int| 0 <= i < 16 ==> level_stored(#[trigger] bytes[i], true) >= -127,
    ensures
        total(Seq::new(16, |i: int| signed_offset(bytes[i], s[i]) * signed_offset(bytes[i], s[i])), n) <= 129032 * total(
            Seq::new(16, |i: int| sq(shown(bytes[i], true) - s[i])),
            n,
        ) + 32258 * n,
    decreases n,
{
    if n > 0 {
        lemma_signed_total(s, bytes, (n - 1) as nat);
        assert(level_stored(bytes[n - 1], true) >= -127);
        lemma_signed_offset(bytes[n - 1], s[n - 1]);
    }
}

/// No BC4 block decodes to the signed byte -128.
proof fn lemma_signed_bytes(block: Seq<u8>, i: int)
    requires
        0 <= i < 16,
    ensures
        level_stored(bc4_bytes(block, true)[i], true) >= -127,
{
    lemma_digit_below(alpha_index_word(block), 8, i as nat);
    let (a, b) = (
        crate::decode::bcdec::endpoint_level(block[0], true),
        crate::decode::bcdec::endpoint_level(block[1], true),
    );
    let k = alpha_indices(block)[i] as int;
    assert(-127 <= a <= 127 && -127 <= b <= 127);
    crate::encode::blocks::laws::lemma_alpha_levels(a, b, true, k);
}

/// Seven bits and a low bit hold a byte to within one.
proof fn lemma_level7_near(c: u8, p: int)
    requires
        0 <= p < 2,
    ensures
        -1 <= 2 * level7(c, p) + p - c <= 1,
        level7(c, p) < 128,
{
    let costs = level_costs(c as int, p);
    lemma_first_min(costs, 128);
    let k = best_of(costs);
    let q = if c == 0 {
        0int
    } else {
        (c - p) / 2
    };
    assert(0 <= q < 128);
    lemma_square_within(2 * q + p - c, 1);
    assert(costs[q] == sq(2 * q + p - c));
    assert(costs[k] == sq(2 * k + p - c));
    reveal(sq);
    let d = 2 * k + p - c;
    assert(-1 <= d <= 1) by (nonlinear_arith)
        requires
            d * d <= 1,
    ;
}

proof fn lemma_mode6_bound(px: Seq<Seq<u8>>, lo: Seq<int>, hi: Seq<int>)
    requires
        is_block(px),
        between(px, lo, hi),
    ensures
        best_fit6(px).5 <= 16 * (spread2(lo, hi, 0, 1) + spread2(lo, hi, 1, 1) + spread2(lo, hi, 2, 1) + spread2(
            lo,
            hi,
            3,
            1,
        )),
{
    let (e0, e1) = (largest_texel(px), smallest_texel(px));
    let k = crate::model::first_min(crate::encode::blocks::bc7::negated(crate::encode::blocks::bc7::channel_sums(px)), 16);
    lemma_first_min_in(crate::encode::blocks::bc7::negated(crate::encode::blocks::bc7::channel_sums(px)), 16);
    assert(e0 == px[k]);
    reveal(fit6);
    reveal(spread2);
    reveal(step2);
    let (p0, p1) = (best_low_bit(e0), best_low_bit(e1));
    let (a, b) = (bytes7(levels7(e0, p0), p0), bytes7(levels7(e1, p1), p1));
    let pal = interp_rows(a, b, weights4());
    let costs = rgba_costs(px, pal);
    let m = spread2(lo, hi, 0, 1) + spread2(lo, hi, 1, 1) + spread2(lo, hi, 2, 1) + spread2(lo, hi, 3, 1);
    assert forall|c: int| 0 <= c < 4 implies #[trigger] pal[0][c] == a[c] && -1 <= a[c] - px[k][c] <= 1 by {
        lemma_level7_near(e0[c], p0);
        assert(weights4()[0] == 0);
        assert((64 - 0) * (a[c] as int) + 0 * (b[c] as int) + 32 == 64 * a[c] + 32);
    }
    lemma_rgba_fit(px, pal);
    assert forall|i: int| 0 <= i < 16 implies 0 <= #[trigger] fit_costs(costs)[i] <= m by {
        lemma_first_min(costs[i], 16);
        assert(costs[i].len() == 16);
        assert(costs[i][0] == rgba_distance(px[i], pal[0]));
        assert(lo[0] <= px[i][0] <= hi[0] && lo[1] <= px[i][1] <= hi[1] && lo[2] <= px[i][2] <= hi[2] && lo[3]
            <= px[i][3] <= hi[3]);
        assert(lo[0] <= px[k][0] <= hi[0] && lo[1] <= px[k][1] <= hi[1] && lo[2] <= px[k][2] <= hi[2] && lo[3]
            <= px[k][3] <= hi[3]);
        assert(pal[0][0] == a[0] && pal[0][1] == a[1] && pal[0][2] == a[2] && pal[0][3] == a[3]);
        lemma_square_within(a[0] - px[i][0], hi[0] - lo[0] + 1);
        lemma_square_within(a[1] - px[i][1], hi[1] - lo[1] + 1);
        lemma_square_within(a[2] - px[i][2], hi[2] - lo[2] + 1);
        lemma_square_within(a[3] - px[i][3], hi[3] - lo[3] + 1);
    }
    lemma_total_bound(fit_costs(costs), 16, m);
}

/// A BC1 block decodes near its texels: over the texels that are not both
/// transparent and decoded as transparent, the squared colour error is bounded
/// by the spread of the channels. A texel decodes as opaque, or as all zeros in
/// a block whose words are white.
#[verifier::rlimit(40)]
pub proof fn law_bc1_block_comes_back(q: EncodeQuality, flat: bool, px: Seq<Seq<u8>>, lo: Seq<int>, hi: Seq<int>, i: int)
    requires
        is_block(px),
        between(px, lo, hi),
        0 <= i < 16,
    ensures
        ({
            let block = encoded_block(DecodeContent::Bc1, q, flat, px);
            let out = block_rgba(DecodeContent::Bc1, block);
            &&& block.len() == 8
            &&& visible_error(px, out) <= 32 * (spread2(lo, hi, 0, 7) + spread2(lo, hi, 1, 7) + spread2(lo, hi, 2, 7)) + 96
            &&& out[4 * i + 3] == 255 || (out[4 * i + 3] == 0 && out[4 * i] == 0 && out[4 * i + 1] == 0 && out[4 * i + 2]
                == 0 && block[0] == 255 && block[1] == 255 && block[2] == 255 && block[3] == 255)
        }),
{
    lemma_bc1_bound(px, q, lo, hi);
    lemma_bc1_encoded(px, q);
    let block = bc1_encoded(px, q).0;
    let k = digits_of(le32(block, 4), 4, 16)[i] as int;
    assert((4 * i) / 4 == i && (4 * i + 1) / 4 == i && (4 * i + 2) / 4 == i && (4 * i + 3) / 4 == i);
    if le16(block, 0) <= le16(block, 2) {
        lemma_three_colour(px, 65535);
        assert(block[0] + 256 * block[1] == 65535 && block[2] + 256 * block[3] == 65535);
    }
}

/// The colours of the last eight bytes of a BC2 or BC3 block.
proof fn lemma_second_half(px: Seq<Seq<u8>>, q: EncodeQuality, lo: Seq<int>, hi: Seq<int>, first: Seq<u8>, out: Seq<u8>)
    requires
        is_block(px),
        between(px, lo, hi),
        first.len() == 8,
        out == bc2_texels(first + bc1_encoded(px, q).0) || out == bc3_texels(first + bc1_encoded(px, q).0),
    ensures
        ({
            let block = first + bc1_encoded(px, q).0;
            let white = block[8] == 255 && block[9] == 255 && block[10] == 255 && block[11] == 255;
            &&& block.len() == 16
            &&& block.skip(8) == bc1_encoded(px, q).0
            &&& visible_error(px, bc1_texels(block.skip(8))) <= colour_allowance(lo, hi)
            &&& !white ==> error_over(px, out, 3) <= colour_allowance(lo, hi)
        }),
{
    lemma_bc1_bound(px, q, lo, hi);
    lemma_bc1_encoded(px, q);
    let half = bc1_encoded(px, q).0;
    let block = first + half;
    assert(block.skip(8) =~= half);
    let white = block[8] == 255 && block[9] == 255 && block[10] == 255 && block[11] == 255;
    if !white {
        if le16(half, 0) <= le16(half, 2) {
            lemma_three_colour(px, 65535);
            assert(half[0] + 256 * half[1] == 65535 && half[2] + 256 * half[3] == 65535);
            assert(false);
        }
        if span_sum(px) < 24 && word565(brightest(px)) == 65535 && word565(darkest(px)) == 65535 {
            lemma_three_colour(px, 65535);
            assert(false);
        }
        lemma_bc1_model_bound(px, q, lo, hi);
        reveal(block_error);
        let got = Seq::new(16, |i: int| distance_over(px, out, i, 3));
        assert forall|i: int| 0 <= i < 16 implies #[trigger] got[i] <= 2 * block_costs(px, half)[i] + 6 by {
            lemma_decoded_cost(px, half, i);
            law_bc2_and_bc3_colours_are_bc1_colours(block, i, 0);
            law_bc2_and_bc3_colours_are_bc1_colours(block, i, 1);
            law_bc2_and_bc3_colours_are_bc1_colours(block, i, 2);
        }
        lemma_twice(got, block_costs(px, half), 16);
    }
}

/// A BC2 block decodes to each texel's alpha with its low four bits a copy of
/// the high four, and to colours near the texels': in a block whose words are
/// not both white as decoded, and in any block as BC1 reads its second half.
pub proof fn law_bc2_block_comes_back(q: EncodeQuality, flat: bool, px: Seq<Seq<u8>>, lo: Seq<int>, hi: Seq<int>, i: int)
    requires
        is_block(px),
        between(px, lo, hi),
        0 <= i < 16,
    ensures
        ({
            let block = encoded_block(DecodeContent::Bc2, q, flat, px);
            let out = block_rgba(DecodeContent::Bc2, block);
            let bound = 32 * (spread2(lo, hi, 0, 7) + spread2(lo, hi, 1, 7) + spread2(lo, hi, 2, 7)) + 96;
            &&& block.len() == 16
            &&& out[4 * i + 3] == 17 * (px[i][3] / 16)
            &&& visible_error(px, bc1_texels(block.skip(8))) <= bound
            &&& block[8] < 255 || block[9] < 255 || block[10] < 255 || block[11] < 255 ==> error_over(px, out, 3) <= bound
        }),
{
    let first = bc2_alpha(px);
    let block = first + bc1_encoded(px, q).0;
    lemma_second_half(px, q, lo, hi, first, bc2_texels(block));
    law_bc2_alpha_decodes(px, bc1_encoded(px, q).0, i);
}

/// A BC3 block decodes to alphas whose squared error is bounded by their
/// spread, and to colours near the texels' as a BC2 block does.
pub proof fn law_bc3_block_comes_back(q: EncodeQuality, flat: bool, px: Seq<Seq<u8>>, lo: Seq<int>, hi: Seq<int>)
    requires
        is_block(px),
        between(px, lo, hi),
    ensures
        ({
            let block = encoded_block(DecodeContent::Bc3, q, flat, px);
            let out = block_rgba(DecodeContent::Bc3, block);
            let bound = 32 * (spread2(lo, hi, 0, 7) + spread2(lo, hi, 1, 7) + spread2(lo, hi, 2, 7)) + 96;
            &&& block.len() == 16
            &&& total(Seq::new(16, |i: int| (out[4 * i + 3] - px[i][3]) * (out[4 * i + 3] - px[i][3])), 16) <= 32 * step2(lo, hi, 3) + 32
            &&& visible_error(px, bc1_texels(block.skip(8))) <= bound
            &&& block[8] < 255 || block[9] < 255 || block[10] < 255 || block[11] < 255 ==> error_over(px, out, 3) <= bound
        }),
{
    let s = column(px, 3);
    let first = alpha_encoded(s, q, false).0;
    let block = first + bc1_encoded(px, q).0;
    let out = bc3_texels(block);
    lemma_alpha_encoded(s, q, false);
    lemma_second_half(px, q, lo, hi, first, out);
    assert forall|i: int| 0 <= i < 16 implies lo[3] <= #[trigger] s[i] <= hi[3] by {
        assert(s[i] == px[i][3]);
    }
    lemma_alpha_seed(s, lo[3], hi[3], false);
    reveal(alpha_decoded_error);
    reveal(spread2);
    reveal(step2);
    let got = Seq::new(16, |i: int| (out[4 * i + 3] - px[i][3]) * (out[4 * i + 3] - px[i][3]));
    let model = alpha_decoded_costs(s, first, false);
    assert forall|i: int| 0 <= i < 16 implies #[trigger] got[i] <= 2 * model[i] + 2 by {
        law_bc3_alpha_decodes_within_one_of_the_model(block, i);
        assert(alpha_index_word(block) == alpha_index_word(first)) by {
            lemma_same_index_word(first, bc1_encoded(px, q).0);
        }
        let m = alpha_palette(block[0] as int, block[1] as int, false)[alpha_indices(block)[i] as int];
        lemma_one_more(out[4 * i + 3] - px[i][3], m - px[i][3]);
    }
    lemma_twice_two(got, model, 16);
}

proof fn lemma_twice_two(s: Seq<int>, t: Seq<int>, n: nat)
    requires
        forall|i: int| 0 <= i < n ==> #[trigger] s[i] <= 2 * t[i] + 2,
    ensures
        total(s, n) <= 2 * total(t, n) + 2 * n,
    decreases n,
{
    if n > 0 {
        lemma_twice_two(s, t, (n - 1) as nat);
        assert(s[n - 1] <= 2 * t[n - 1] + 2);
    }
}

/// The index word of an alpha block is its own bytes'.
proof fn lemma_same_index_word(first: Seq<u8>, rest: Seq<u8>)
    requires
        first.len() == 8,
    ensures
        alpha_index_word(first + rest) == alpha_index_word(first),
{
}

/// A BC4 block decodes to reds whose squared error is bounded by their spread;
/// green and blue are zero, and every texel is opaque.
pub proof fn law_bc4_block_comes_back(q: EncodeQuality, flat: bool, px: Seq<Seq<u8>>, lo: Seq<int>, hi: Seq<int>, i: int)
    requires
        is_block(px),
        between(px, lo, hi),
        0 <= i < 16,
    ensures
        ({
            let block = encoded_block(DecodeContent::Bc4UNorm, q, flat, px);
            let out = block_rgba(DecodeContent::Bc4UNorm, block);
            &&& block.len() == 8
            &&& error_over(px, out, 1) <= 16 * step2(lo, hi, 0)
            &&& out[4 * i + 1] == 0 && out[4 * i + 2] == 0 && out[4 * i + 3] == 255
        }),
        ({
            let block = encoded_block(DecodeContent::Bc4SNorm, q, flat, px);
            let out = block_rgba(DecodeContent::Bc4SNorm, block);
            &&& block.len() == 8
            &&& signed_error(px, out, 0) <= 2064512 * spread2(lo, hi, 0, 1) + 516128
            &&& out[4 * i + 1] == 0 && out[4 * i + 2] == 0 && out[4 * i + 3] == 255
        }),
{
    let s = column(px, 0);
    assert forall|j: int| 0 <= j < 16 implies lo[0] <= #[trigger] s[j] <= hi[0] by {
        assert(s[j] == px[j][0]);
    }
    lemma_samples_bound(s, q, flat, lo[0], hi[0], false);
    lemma_samples_bound(s, q, flat, lo[0], hi[0], true);
    reveal(spread2);
    reveal(step2);
    assert((4 * i + 1) / 4 == i && (4 * i + 2) / 4 == i && (4 * i + 3) / 4 == i);
    let u = stored_samples(s, q, flat, false);
    let v = stored_samples(s, q, flat, true);
    let uo = block_rgba(DecodeContent::Bc4UNorm, u);
    lemma_unsigned_channel(px, bc4_bytes(u, false), uo, 0);
    let vo = block_rgba(DecodeContent::Bc4SNorm, v);
    lemma_signed_channel(px, v, vo, 0);
    let a = Seq::new(16, |i: int| distance_over(px, uo, i, 1));
    let b = Seq::new(16, |i: int| (uo[4 * i + 0] - px[i][0]) * (uo[4 * i + 0] - px[i][0]));
    lemma_total_eq(a, b, 16);
}

/// The squared offsets of a signed channel's decoded levels from its samples.
pub open spec fn signed_error(px: Seq<Seq<u8>>, out: Seq<u8>, c: int) -> int {
    total(
        Seq::new(16, |i: int| signed_offset(out[4 * i + c], px[i][c]) * signed_offset(out[4 * i + c], px[i][c])),
        16,
    )
}

proof fn lemma_unsigned_channel(px: Seq<Seq<u8>>, bytes: Seq<u8>, out: Seq<u8>, c: int)
    requires
        0 <= c < 2,
        forall|i: int| 0 <= i < 16 ==> #[trigger] out[4 * i + c] == bytes[i],
    ensures
        total(Seq::new(16, |i: int| (out[4 * i + c] - px[i][c]) * (out[4 * i + c] - px[i][c])), 16) == samples_error(
            column(px, c),
            bytes,
            false,
        ),
{
    reveal(sq);
    let s = column(px, c);
    let a = Seq::new(16, |i: int| (out[4 * i + c] - px[i][c]) * (out[4 * i + c] - px[i][c]));
    let b = Seq::new(16, |i: int| sq(shown(bytes[i], false) - s[i]));
    assert forall|i: int| 0 <= i < 16 implies #[trigger] a[i] == b[i] by {
        assert(out[4 * i + c] == bytes[i]);
        assert(shown(bytes[i], false) == bytes[i]);
    }
    lemma_total_eq(a, b, 16);
}

proof fn lemma_signed_channel(px: Seq<Seq<u8>>, block: Seq<u8>, out: Seq<u8>, c: int)
    requires
        0 <= c < 2,
        forall|i: int| 0 <= i < 16 ==> #[trigger] out[4 * i + c] == bc4_bytes(block, true)[i],
    ensures
        signed_error(px, out, c) <= 129032 * samples_error(column(px, c), bc4_bytes(block, true), true) + 516128,
{
    let s = column(px, c);
    let bytes = bc4_bytes(block, true);
    assert forall|i: int| 0 <= i < 16 implies level_stored(#[trigger] bytes[i], true) >= -127 by {
        lemma_signed_bytes(block, i);
    }
    lemma_signed_total(s, bytes, 16);
    let a = Seq::new(16, |i: int| signed_offset(out[4 * i + c], px[i][c]) * signed_offset(out[4 * i + c], px[i][c]));
    let b = Seq::new(16, |i: int| signed_offset(bytes[i], s[i]) * signed_offset(bytes[i], s[i]));
    assert forall|i: int| 0 <= i < 16 implies #[trigger] a[i] == b[i] by {
        assert(out[4 * i + c] == bytes[i]);
    }
    lemma_total_eq(a, b, 16);
}

/// A BC5 block decodes to reds and greens whose squared errors are bounded by
/// their spreads; blue is zero, and every texel is opaque.
pub proof fn law_bc5_block_comes_back(q: EncodeQuality, flat: bool, px: Seq<Seq<u8>>, lo: Seq<int>, hi: Seq<int>, i: int)
    requires
        is_block(px),
        between(px, lo, hi),
        0 <= i < 16,
    ensures
        ({
            let block = encoded_block(DecodeContent::Bc5UNorm, q, flat, px);
            let out = block_rgba(DecodeContent::Bc5UNorm, block);
            &&& block.len() == 16
            &&& total(Seq::new(16, |i: int| (out[4 * i + 0] - px[i][0]) * (out[4 * i + 0] - px[i][0])), 16) <= 16 * step2(lo, hi, 0)
            &&& total(Seq::new(16, |i: int| (out[4 * i + 1] - px[i][1]) * (out[4 * i + 1] - px[i][1])), 16) <= 16 * step2(lo, hi, 1)
            &&& out[4 * i + 2] == 0 && out[4 * i + 3] == 255
        }),
        ({
            let block = encoded_block(DecodeContent::Bc5SNorm, q, flat, px);
            let out = block_rgba(DecodeContent::Bc5SNorm, block);
            &&& block.len() == 16
            &&& signed_error(px, out, 0) <= 2064512 * spread2(lo, hi, 0, 1) + 516128
            &&& signed_error(px, out, 1) <= 2064512 * spread2(lo, hi, 1, 1) + 516128
            &&& out[4 * i + 2] == 0 && out[4 * i + 3] == 255
        }),
{
    lemma_bc5_bound(q, flat, px, lo, hi, false);
    lemma_bc5_bound(q, flat, px, lo, hi, true);
    let (r, g) = (column(px, 0), column(px, 1));
    let (ur, ug) = (stored_samples(r, q, flat, false), stored_samples(g, q, flat, false));
    let (vr, vg) = (stored_samples(r, q, flat, true), stored_samples(g, q, flat, true));
    law_bc5_channels_decode(ur, ug, false, i);
    law_bc5_channels_decode(vr, vg, true, i);
}

proof fn lemma_bc5_bound(q: EncodeQuality, flat: bool, px: Seq<Seq<u8>>, lo: Seq<int>, hi: Seq<int>, signed: bool)
    requires
        is_block(px),
        between(px, lo, hi),
    ensures
        ({
            let (r, g) = (column(px, 0), column(px, 1));
            let (a, b) = (stored_samples(r, q, flat, signed), stored_samples(g, q, flat, signed));
            let out = block_rgba(crate::decode::bcn::bc5_of(signed), a + b);
            &&& a.len() == 8
            &&& b.len() == 8
            &&& !signed ==> total(Seq::new(16, |i: int| (out[4 * i + 0] - px[i][0]) * (out[4 * i + 0] - px[i][0])), 16) <= 16
                * step2(lo, hi, 0)
            &&& !signed ==> total(Seq::new(16, |i: int| (out[4 * i + 1] - px[i][1]) * (out[4 * i + 1] - px[i][1])), 16) <= 16
                * step2(lo, hi, 1)
            &&& signed ==> signed_error(px, out, 0) <= 2064512 * spread2(lo, hi, 0, 1) + 516128
            &&& signed ==> signed_error(px, out, 1) <= 2064512 * spread2(lo, hi, 1, 1) + 516128
        }),
{
    let (r, g) = (column(px, 0), column(px, 1));
    let (a, b) = (stored_samples(r, q, flat, signed), stored_samples(g, q, flat, signed));
    let out = block_rgba(crate::decode::bcn::bc5_of(signed), a + b);
    assert forall|j: int| 0 <= j < 16 implies lo[0] <= #[trigger] r[j] <= hi[0] by {
        assert(r[j] == px[j][0]);
    }
    assert forall|j: int| 0 <= j < 16 implies lo[1] <= #[trigger] g[j] <= hi[1] by {
        assert(g[j] == px[j][1]);
    }
    lemma_samples_bound(r, q, flat, lo[0], hi[0], signed);
    lemma_samples_bound(g, q, flat, lo[1], hi[1], signed);
    reveal(spread2);
    reveal(step2);
    assert forall|i: int| 0 <= i < 16 implies #[trigger] out[4 * i + 0] == bc4_bytes(a, signed)[i] by {
        law_bc5_channels_decode(a, b, signed, i);
    }
    assert forall|i: int| 0 <= i < 16 implies #[trigger] out[4 * i + 1] == bc4_bytes(b, signed)[i] by {
        law_bc5_channels_decode(a, b, signed, i);
    }
    if signed {
        lemma_signed_channel(px, a, out, 0);
        lemma_signed_channel(px, b, out, 1);
    } else {
        lemma_unsigned_channel(px, bc4_bytes(a, false), out, 0);
        lemma_unsigned_channel(px, bc4_bytes(b, false), out, 1);
    }
}

/// A BC7 block decodes near its texels: the squared error over all four
/// channels is bounded by their spreads.
pub proof fn law_bc7_block_comes_back(q: EncodeQuality, flat: bool, px: Seq<Seq<u8>>, lo: Seq<int>, hi: Seq<int>)
    requires
        is_block(px),
        between(px, lo, hi),
    ensures
        ({
            let block = encoded_block(DecodeContent::Bc7, q, flat, px);
            let out = block_rgba(DecodeContent::Bc7, block);
            &&& block.len() == 16
            &&& error_over(px, out, 4) <= 16 * (spread2(lo, hi, 0, 1) + spread2(lo, hi, 1, 1) + spread2(lo, hi, 2, 1)
                + spread2(lo, hi, 3, 1))
        }),
{
    let block = bc7_encoded(px).0;
    let out = block_rgba(DecodeContent::Bc7, block);
    crate::encode::blocks::laws_rdo::law_bc7_blocks_are_legal(px);
    law_bc7_writes_known_modes(px);
    law_bc7_score_is_decoded_error(px);
    law_bc7_never_worse_than_mode6(px);
    lemma_mode6_bound(px, lo, hi);
    reveal(decoded_error7);
    reveal(sq);
    let got = Seq::new(16, |i: int| distance_over(px, out, i, 4));
    assert forall|i: int| 0 <= i < 16 implies #[trigger] got[i] == decoded_costs7(px, block)[i] by {
        let t = out.subrange(4 * i, 4 * i + 4);
        assert(t[0] == out[4 * i] && t[1] == out[4 * i + 1] && t[2] == out[4 * i + 2] && t[3] == out[4 * i + 3]);
    }
    lemma_total_eq(got, decoded_costs7(px, block), 16);
}

pub proof fn lemma_term(s: Seq<int>, i: int, n: nat)
    requires
        0 <= i < n,
        forall|k: int| 0 <= k < n ==> #[trigger] s[k] >= 0,
    ensures
        s[i] <= total(s, n),
        0 <= total(s, n),
    decreases n,
{
    if n > 1 {
        if i < n - 1 {
            lemma_term(s, i, (n - 1) as nat);
        } else {
            lemma_term(s, 0, (n - 1) as nat);
        }
        assert(s[n - 1] >= 0);
    } else {
        assert(total(s, 0) == 0);
        assert(s[0] >= 0);
    }
}

/// Channel `c` of pixel `(x, y)` of an image `w` pixels wide.
pub open spec fn pixel_channel(rgba: Seq<u8>, w: int, x: int, y: int, c: int) -> int {
    rgba[(y * w + x) * 4 + c] as int
}

/// Every channel of the pixels in the 4x4 square of pixel `(x, y)` lies between
/// `lo` and `hi`.
pub open spec fn tile_between(rgba: Seq<u8>, w: int, h: int, x: int, y: int, lo: Seq<int>, hi: Seq<int>) -> bool {
    forall|u: int, v: int, c: int|
        0 <= u < w && 0 <= v < h && u / 4 == x / 4 && v / 4 == y / 4 && 0 <= c < 4 ==> lo[c] <= #[trigger] pixel_channel(
            rgba,
            w,
            u,
            v,
            c,
        ) <= hi[c]
}

/// The block of a pixel holds the pixels of its square.
proof fn lemma_tile_block(rgba: Seq<u8>, w: int, h: int, x: int, y: int, lo: Seq<int>, hi: Seq<int>)
    requires
        0 <= x < w,
        0 <= y < h,
        tile_between(rgba, w, h, x, y, lo, hi),
    ensures
        ({
            let px = block_at(rgba, w, h, block_of(w, x, y));
            let t = (y % 4) * 4 + x % 4;
            &&& is_block(px)
            &&& between(px, lo, hi)
            &&& 0 <= t < 16
            &&& px[t][0] == pixel_channel(rgba, w, x, y, 0)
            &&& px[t][1] == pixel_channel(rgba, w, x, y, 1)
            &&& px[t][2] == pixel_channel(rgba, w, x, y, 2)
            &&& px[t][3] == pixel_channel(rgba, w, x, y, 3)
        }),
{
    let bw = block_count(w);
    let b = block_of(w, x, y);
    let (bx, by) = (x / 4, y / 4);
    vstd::arithmetic::div_mod::lemma_fundamental_div_mod_converse(b, bw, by, bx);
    let px = block_at(rgba, w, h, b);
    let t = (y % 4) * 4 + x % 4;
    assert forall|i: int, c: int| 0 <= i < 16 && 0 <= c < 4 implies lo[c] <= #[trigger] px[i][c] <= hi[c] by {
        let u = min_int(4 * bx + i % 4, w - 1);
        let v = min_int(4 * by + i / 4, h - 1);
        assert(u / 4 == bx && v / 4 == by);
        assert(px[i][c] == pixel_channel(rgba, w, u, v, c));
    }
    assert(t % 4 == x % 4 && t / 4 == y % 4);
    assert(min_int(4 * bx + t % 4, w - 1) == x && min_int(4 * by + t / 4, h - 1) == y);
}

/// What the pixels of an encoded and decoded slice owe the pixels of the slice.
#[verifier::opaque]
pub open spec fn owed(kind: DecodeContent, src: Seq<int>, out: Seq<u8>, lo: Seq<int>, hi: Seq<int>) -> bool {
    let d = |c: int| (out[c] - src[c]) * (out[c] - src[c]);
    let o = |c: int| signed_offset(out[c], src[c] as u8) * signed_offset(out[c], src[c] as u8);
    match kind {
        DecodeContent::Rgba8 | DecodeContent::Bgra8 => out[0] == src[0] && out[1] == src[1] && out[2] == src[2] && out[3]
            == src[3],
        DecodeContent::Bc1 => {
            &&& out[3] == 255 || out[3] == 0
            &&& (out[3] == 0 && src[3] < 128) || d(0) + d(1) + d(2) <= 32 * (spread2(lo, hi, 0, 7) + spread2(lo, hi, 1, 7)
                + spread2(lo, hi, 2, 7)) + 96
        },
        DecodeContent::Bc2 => {
            &&& out[3] == 17 * (src[3] / 16)
            &&& (out[0] == 255 && out[1] == 255 && out[2] == 255) || d(0) + d(1) + d(2) <= 32 * (spread2(lo, hi, 0, 7)
                + spread2(lo, hi, 1, 7) + spread2(lo, hi, 2, 7)) + 96
        },
        DecodeContent::Bc3 => {
            &&& d(3) <= 32 * step2(lo, hi, 3) + 32
            &&& (out[0] == 255 && out[1] == 255 && out[2] == 255) || d(0) + d(1) + d(2) <= 32 * (spread2(lo, hi, 0, 7)
                + spread2(lo, hi, 1, 7) + spread2(lo, hi, 2, 7)) + 96
        },
        DecodeContent::Bc4UNorm => d(0) <= 16 * step2(lo, hi, 0) && out[1] == 0 && out[2] == 0 && out[3] == 255,
        DecodeContent::Bc4SNorm => o(0) <= 2064512 * spread2(lo, hi, 0, 1) + 516128 && out[1] == 0 && out[2] == 0
            && out[3] == 255,
        DecodeContent::Bc5UNorm => d(0) <= 16 * step2(lo, hi, 0) && d(1) <= 16 * step2(lo, hi, 1) && out[2] == 0
            && out[3] == 255,
        DecodeContent::Bc5SNorm => o(0) <= 2064512 * spread2(lo, hi, 0, 1) + 516128 && o(1) <= 2064512 * spread2(
            lo,
            hi,
            1,
            1,
        ) + 516128 && out[2] == 0 && out[3] == 255,
        DecodeContent::Bc7 => d(0) + d(1) + d(2) + d(3) <= 16 * (spread2(lo, hi, 0, 1) + spread2(lo, hi, 1, 1) + spread2(
            lo,
            hi,
            2,
            1,
        ) + spread2(lo, hi, 3, 1)),
    }
}

proof fn lemma_squares(a: int, b: int, c: int, d: int)
    ensures
        a * a >= 0,
        b * b >= 0,
        c * c >= 0,
        d * d >= 0,
{
    assert(a * a >= 0 && b * b >= 0 && c * c >= 0 && d * d >= 0) by (nonlinear_arith);
}

/// A colour block whose words are both white decodes to white where it always has
/// four colours.
proof fn lemma_white(block: Seq<u8>, i: int, c: int)
    requires
        block.len() == 16,
        block[8] == 255 && block[9] == 255 && block[10] == 255 && block[11] == 255,
        0 <= i < 16,
        0 <= c < 3,
    ensures
        bc2_texels(block)[4 * i + c] == 255,
        bc3_texels(block)[4 * i + c] == 255,
{
    let half = block.skip(8);
    assert((4 * i + c) / 4 == i && (4 * i + c) % 4 == c);
    assert(le16(half, 0) == 65535 && le16(half, 2) == 65535);
    assert(65535int / 2048 % 32 == 31 && 65535int / 32 % 64 == 63 && 65535int % 32 == 31);
    lemma_digit_below(le32(half, 4), 4, i as nat);
}

proof fn lemma_colour_term(px: Seq<Seq<u8>>, out: Seq<u8>, t: int)
    requires
        0 <= t < 16,
    ensures
        distance_over(px, out, t, 3) <= error_over(px, out, 3),
{
    let s = Seq::new(16, |i: int| distance_over(px, out, i, 3));
    assert forall|k: int| 0 <= k < 16 implies #[trigger] s[k] >= 0 by {
        lemma_squares(out[4 * k] - px[k][0], out[4 * k + 1] - px[k][1], out[4 * k + 2] - px[k][2], 0);
    }
    lemma_term(s, t, 16);
}

/// A decoded texel of an encoded block owes the block's texel what [`owed`] says.
spec fn texel_owes(kind: DecodeContent, q: EncodeQuality, flat: bool, px: Seq<Seq<u8>>, lo: Seq<int>, hi: Seq<int>, t: int) -> bool {
    let out = block_rgba(kind, encoded_block(kind, q, flat, px));
    owed(
        kind,
        seq![px[t][0] as int, px[t][1] as int, px[t][2] as int, px[t][3] as int],
        seq![out[4 * t], out[4 * t + 1], out[4 * t + 2], out[4 * t + 3]],
        lo,
        hi,
    )
}

#[verifier::rlimit(40)]
proof fn lemma_bc1_owes(q: EncodeQuality, flat: bool, px: Seq<Seq<u8>>, lo: Seq<int>, hi: Seq<int>, t: int)
    requires
        is_block(px),
        between(px, lo, hi),
        0 <= t < 16,
    ensures
        texel_owes(DecodeContent::Bc1, q, flat, px, lo, hi, t),
{
    let block = encoded_block(DecodeContent::Bc1, q, flat, px);
    let out = block_rgba(DecodeContent::Bc1, block);
    reveal(owed);
    law_bc1_block_comes_back(q, flat, px, lo, hi, t);
    let s = Seq::new(16, |i: int| visible_distance(px, out, i));
    assert forall|k: int| 0 <= k < 16 implies #[trigger] s[k] >= 0 by {
        lemma_squares(
            out[4 * k] - px[k][0],
            out[4 * k + 1] - px[k][1],
            out[4 * k + 2] - px[k][2],
            out[4 * k + 3] - px[k][3],
        );
    }
    lemma_term(s, t, 16);
}

#[verifier::rlimit(40)]
proof fn lemma_bc2_owes(q: EncodeQuality, flat: bool, px: Seq<Seq<u8>>, lo: Seq<int>, hi: Seq<int>, t: int)
    requires
        is_block(px),
        between(px, lo, hi),
        0 <= t < 16,
    ensures
        texel_owes(DecodeContent::Bc2, q, flat, px, lo, hi, t),
{
    let block = encoded_block(DecodeContent::Bc2, q, flat, px);
    let out = block_rgba(DecodeContent::Bc2, block);
    reveal(owed);
    law_bc2_block_comes_back(q, flat, px, lo, hi, t);
    if block[8] == 255 && block[9] == 255 && block[10] == 255 && block[11] == 255 {
        lemma_white(block, t, 0);
        lemma_white(block, t, 1);
        lemma_white(block, t, 2);
    } else {
        lemma_colour_term(px, out, t);
    }
}

#[verifier::rlimit(40)]
proof fn lemma_bc3_owes(q: EncodeQuality, flat: bool, px: Seq<Seq<u8>>, lo: Seq<int>, hi: Seq<int>, t: int)
    requires
        is_block(px),
        between(px, lo, hi),
        0 <= t < 16,
    ensures
        texel_owes(DecodeContent::Bc3, q, flat, px, lo, hi, t),
{
    let block = encoded_block(DecodeContent::Bc3, q, flat, px);
    let out = block_rgba(DecodeContent::Bc3, block);
    reveal(owed);
    law_bc3_block_comes_back(q, flat, px, lo, hi);
    let s = Seq::new(16, |i: int| (out[4 * i + 3] - px[i][3]) * (out[4 * i + 3] - px[i][3]));
    assert forall|k: int| 0 <= k < 16 implies #[trigger] s[k] >= 0 by {
        lemma_squares(0, 0, 0, out[4 * k + 3] - px[k][3]);
    }
    lemma_term(s, t, 16);
    if block[8] == 255 && block[9] == 255 && block[10] == 255 && block[11] == 255 {
        lemma_white(block, t, 0);
        lemma_white(block, t, 1);
        lemma_white(block, t, 2);
    } else {
        lemma_colour_term(px, out, t);
    }
}

proof fn lemma_bc4unorm_owes(q: EncodeQuality, flat: bool, px: Seq<Seq<u8>>, lo: Seq<int>, hi: Seq<int>, t: int)
    requires
        is_block(px),
        between(px, lo, hi),
        0 <= t < 16,
    ensures
        texel_owes(DecodeContent::Bc4UNorm, q, flat, px, lo, hi, t),
{
    let block = encoded_block(DecodeContent::Bc4UNorm, q, flat, px);
    let out = block_rgba(DecodeContent::Bc4UNorm, block);
    reveal(owed);
    law_bc4_block_comes_back(q, flat, px, lo, hi, t);
    let s = Seq::new(16, |i: int| distance_over(px, out, i, 1));
    assert forall|k: int| 0 <= k < 16 implies #[trigger] s[k] >= 0 by {
        lemma_squares(out[4 * k] - px[k][0], 0, 0, 0);
    }
    lemma_term(s, t, 16);
}

proof fn lemma_bc4snorm_owes(q: EncodeQuality, flat: bool, px: Seq<Seq<u8>>, lo: Seq<int>, hi: Seq<int>, t: int)
    requires
        is_block(px),
        between(px, lo, hi),
        0 <= t < 16,
    ensures
        texel_owes(DecodeContent::Bc4SNorm, q, flat, px, lo, hi, t),
{
    let block = encoded_block(DecodeContent::Bc4SNorm, q, flat, px);
    let out = block_rgba(DecodeContent::Bc4SNorm, block);
    reveal(owed);
    law_bc4_block_comes_back(q, flat, px, lo, hi, t);
    lemma_signed_term(px, out, 0, t);
}

#[verifier::rlimit(40)]
proof fn lemma_bc5unorm_owes(q: EncodeQuality, flat: bool, px: Seq<Seq<u8>>, lo: Seq<int>, hi: Seq<int>, t: int)
    requires
        is_block(px),
        between(px, lo, hi),
        0 <= t < 16,
    ensures
        texel_owes(DecodeContent::Bc5UNorm, q, flat, px, lo, hi, t),
{
    let block = encoded_block(DecodeContent::Bc5UNorm, q, flat, px);
    let out = block_rgba(DecodeContent::Bc5UNorm, block);
    reveal(owed);
    law_bc5_block_comes_back(q, flat, px, lo, hi, t);
    let r = Seq::new(16, |i: int| (out[4 * i + 0] - px[i][0]) * (out[4 * i + 0] - px[i][0]));
    let g = Seq::new(16, |i: int| (out[4 * i + 1] - px[i][1]) * (out[4 * i + 1] - px[i][1]));
    assert forall|k: int| 0 <= k < 16 implies #[trigger] r[k] >= 0 by {
        lemma_squares(out[4 * k + 0] - px[k][0], 0, 0, 0);
    }
    assert forall|k: int| 0 <= k < 16 implies #[trigger] g[k] >= 0 by {
        lemma_squares(0, out[4 * k + 1] - px[k][1], 0, 0);
    }
    lemma_term(r, t, 16);
    lemma_term(g, t, 16);
}

#[verifier::rlimit(40)]
proof fn lemma_bc5snorm_owes(q: EncodeQuality, flat: bool, px: Seq<Seq<u8>>, lo: Seq<int>, hi: Seq<int>, t: int)
    requires
        is_block(px),
        between(px, lo, hi),
        0 <= t < 16,
    ensures
        texel_owes(DecodeContent::Bc5SNorm, q, flat, px, lo, hi, t),
{
    let block = encoded_block(DecodeContent::Bc5SNorm, q, flat, px);
    let out = block_rgba(DecodeContent::Bc5SNorm, block);
    reveal(owed);
    law_bc5_block_comes_back(q, flat, px, lo, hi, t);
    lemma_signed_term(px, out, 0, t);
    lemma_signed_term(px, out, 1, t);
}

proof fn lemma_bc7_owes(q: EncodeQuality, flat: bool, px: Seq<Seq<u8>>, lo: Seq<int>, hi: Seq<int>, t: int)
    requires
        is_block(px),
        between(px, lo, hi),
        0 <= t < 16,
    ensures
        texel_owes(DecodeContent::Bc7, q, flat, px, lo, hi, t),
{
    let block = encoded_block(DecodeContent::Bc7, q, flat, px);
    let out = block_rgba(DecodeContent::Bc7, block);
    reveal(owed);
    law_bc7_block_comes_back(q, flat, px, lo, hi);
    let s = Seq::new(16, |i: int| distance_over(px, out, i, 4));
    assert forall|k: int| 0 <= k < 16 implies #[trigger] s[k] >= 0 by {
        lemma_squares(
            out[4 * k] - px[k][0],
            out[4 * k + 1] - px[k][1],
            out[4 * k + 2] - px[k][2],
            out[4 * k + 3] - px[k][3],
        );
    }
    lemma_term(s, t, 16);
}

/// Each block's decoded texels owe the block's texels what [`owed`] says.
proof fn lemma_block_owes(kind: DecodeContent, q: EncodeQuality, flat: bool, px: Seq<Seq<u8>>, lo: Seq<int>, hi: Seq<int>, t: int)
    requires
        kind.block_size() is Some,
        is_block(px),
        between(px, lo, hi),
        0 <= t < 16,
    ensures
        texel_owes(kind, q, flat, px, lo, hi, t),
{
    match kind {
        DecodeContent::Bc1 => {
            lemma_bc1_owes(q, flat, px, lo, hi, t);
        },
        DecodeContent::Bc2 => {
            lemma_bc2_owes(q, flat, px, lo, hi, t);
        },
        DecodeContent::Bc3 => {
            lemma_bc3_owes(q, flat, px, lo, hi, t);
        },
        DecodeContent::Bc4UNorm => {
            lemma_bc4unorm_owes(q, flat, px, lo, hi, t);
        },
        DecodeContent::Bc4SNorm => {
            lemma_bc4snorm_owes(q, flat, px, lo, hi, t);
        },
        DecodeContent::Bc5UNorm => {
            lemma_bc5unorm_owes(q, flat, px, lo, hi, t);
        },
        DecodeContent::Bc5SNorm => {
            lemma_bc5snorm_owes(q, flat, px, lo, hi, t);
        },
        _ => {
            lemma_bc7_owes(q, flat, px, lo, hi, t);
        },
    }
}

proof fn lemma_signed_term(px: Seq<Seq<u8>>, out: Seq<u8>, c: int, t: int)
    requires
        0 <= t < 16,
    ensures
        signed_offset(out[4 * t + c], px[t][c]) * signed_offset(out[4 * t + c], px[t][c]) <= signed_error(px, out, c),
{
    let s = Seq::new(16, |i: int| signed_offset(out[4 * i + c], px[i][c]) * signed_offset(out[4 * i + c], px[i][c]));
    assert forall|k: int| 0 <= k < 16 implies #[trigger] s[k] >= 0 by {
        lemma_squares(signed_offset(out[4 * k + c], px[k][c]), 0, 0, 0);
    }
    lemma_term(s, t, 16);
}

proof fn lemma_unoptimised(kind: DecodeContent, lambda: u32)
    requires
        lambda == 0 || (kind != DecodeContent::Bc1 && kind != DecodeContent::Bc7),
    ensures
        !optimised(kind, lambda),
{
    reveal(less);
}

/// What a decoded pixel owes the slice's pixel.
spec fn pixel_owes(kind: DecodeContent, rgba: Seq<u8>, all: Seq<u8>, k: int, lo: Seq<int>, hi: Seq<int>) -> bool {
    owed(
        kind,
        seq![rgba[k] as int, rgba[k + 1] as int, rgba[k + 2] as int, rgba[k + 3] as int],
        seq![all[k], all[k + 1], all[k + 2], all[k + 3]],
        lo,
        hi,
    )
}

#[verifier::rlimit(40)]
proof fn lemma_plain_pixel(kind: DecodeContent, q: EncodeQuality, lambda: u32, rgba: Seq<u8>, w: int, h: int, k: int, lo: Seq<int>, hi: Seq<int>)
    requires
        kind.block_size() is None,
        0 <= k,
        k % 4 == 0,
        k + 4 <= w * h * 4 <= rgba.len(),
    ensures
        pixel_owes(kind, rgba, slice_pixels(kind, slice_payload(kind, q, lambda, rgba, w, h), w, h), k, lo, hi),
{
    let part = rgba.take(w * h * 4);
    reveal(owed);
    law_swap_is_self_inverse(part);
    assert(part.take(w * h * 4) =~= part);
    assert(swapped(part).take(w * h * 4) =~= swapped(part));
}

#[verifier::rlimit(40)]
proof fn lemma_block_pixel(
    kind: DecodeContent,
    q: EncodeQuality,
    lambda: u32,
    rgba: Seq<u8>,
    w: int,
    h: int,
    x: int,
    y: int,
    lo: Seq<int>,
    hi: Seq<int>,
)
    requires
        kind.block_size() is Some,
        !optimised(kind, lambda),
        0 <= x < w,
        0 <= y < h,
        rgba.len() >= w * h * 4,
        tile_between(rgba, w, h, x, y, lo, hi),
    ensures
        pixel_owes(
            kind,
            rgba,
            slice_pixels(kind, slice_payload(kind, q, lambda, rgba, w, h), w, h),
            (y * w + x) * 4,
            lo,
            hi,
        ),
{
    let k = (y * w + x) * 4;
    let flat = is_flat(kind, rgba, w, h);
    let px = block_at(rgba, w, h, block_of(w, x, y));
    let t = (y % 4) * 4 + x % 4;
    lemma_tile_block(rgba, w, h, x, y, lo, hi);
    lemma_block_owes(kind, q, flat, px, lo, hi, t);
    law_texels_decode_from_their_blocks(kind, q, lambda, rgba, w, h, x, y, 0);
    law_texels_decode_from_their_blocks(kind, q, lambda, rgba, w, h, x, y, 1);
    law_texels_decode_from_their_blocks(kind, q, lambda, rgba, w, h, x, y, 2);
    law_texels_decode_from_their_blocks(kind, q, lambda, rgba, w, h, x, y, 3);
    let all = slice_pixels(kind, slice_payload(kind, q, lambda, rgba, w, h), w, h);
    let out = block_rgba(kind, encoded_block(kind, q, flat, px));
    assert(t * 4 == 4 * t);
    assert(all[k] == out[4 * t] && all[k + 1] == out[4 * t + 1] && all[k + 2] == out[4 * t + 2] && all[k + 3] == out[4 * t + 3]);
    assert(px[t][0] == rgba[k] && px[t][1] == rgba[k + 1] && px[t][2] == rgba[k + 2] && px[t][3] == rgba[k + 3]);
}

/// Decoding an encoded slice gives back every pixel, up to what its content
/// kind can lose: exactly for plain kinds, and for blocks within what the
/// spread of the 4x4 square of pixels around it allows.
pub proof fn law_encoded_pixels_come_back(
    kind: DecodeContent,
    q: EncodeQuality,
    lambda: u32,
    rgba: Seq<u8>,
    w: int,
    h: int,
    x: int,
    y: int,
    lo: Seq<int>,
    hi: Seq<int>,
)
    requires
        lambda == 0 || (kind != DecodeContent::Bc1 && kind != DecodeContent::Bc7),
        0 <= x < w,
        0 <= y < h,
        rgba.len() >= w * h * 4,
        tile_between(rgba, w, h, x, y, lo, hi),
    ensures
        ({
            let all = slice_pixels(kind, slice_payload(kind, q, lambda, rgba, w, h), w, h);
            let k = (y * w + x) * 4;
            owed(
                kind,
                seq![rgba[k] as int, rgba[k + 1] as int, rgba[k + 2] as int, rgba[k + 3] as int],
                seq![all[k], all[k + 1], all[k + 2], all[k + 3]],
                lo,
                hi,
            )
        }),
{
    lemma_unoptimised(kind, lambda);
    let k = (y * w + x) * 4;
    assert(0 <= k && k + 4 <= w * h * 4) by (nonlinear_arith)
        requires
            k == (y * w + x) * 4,
            0 <= x < w,
            0 <= y < h,
    ;
    if kind.block_size() is None {
        lemma_plain_pixel(kind, q, lambda, rgba, w, h, k, lo, hi);
    } else {
        lemma_block_pixel(kind, q, lambda, rgba, w, h, x, y, lo, hi);
    }
}

} // verus!
