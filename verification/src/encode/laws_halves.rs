//! What the halves of a BC6H image are, and how near they come back.

use vstd::arithmetic::power2::pow2;
use vstd::prelude::*;

use crate::dds::Dds;
use crate::decode::bc6h::{bc6h_pixels, bc6h_rgb};
use crate::encode::bc6h::{bc6h_encoded, bc6h_payload, bottom_of, chosen11, costs10, costs11, distance3, float_block_at, half_of, half_of_level, halves_of, lemma_half_small, level10, nearest10, palette11, quantised3, seed11, top_of, tried10};
use crate::encode::blocks::bc7::weights4;
use crate::encode::blocks::{block_count, max_int, min_int};
use crate::encode::container::{float_outcome, holds_floats, law_bc6h_container_decodes};
use crate::encode::laws::block_of;
use crate::encode::laws_bc6h::{decoded_halves, halves_error, law_bc6h_score_is_decoded_error, law_bc6h_texels_decode_from_their_blocks, lemma_chosen11_sound, lemma_encoded_len, lemma_image_texel, lemma_reads11};
use crate::encode::laws_bounds::lemma_term;
use crate::model::{best_of, fit_costs, fit_error, lemma_first_min, lemma_sq, lemma_total_bound, sq};
use crate::surface::SubresourceId;

verus! {

/// The half of a number is the nearest: of a normal half's size the number's pattern
/// lies within half a step of the half's, of a subnormal's its significand does;
/// below that the half is zero, above the range the largest, and of what is negative
/// or no number zero.
pub proof fn law_half_is_nearest(v: u32)
    ensures
        0 <= half_of(v) <= 0x7BFF,
        v > 0x7F80_0000 ==> half_of(v) == 0,
        0x477F_E000 <= v <= 0x7F80_0000 ==> half_of(v) == 0x7BFF,
        0x3880_0000 <= v <= 0x477F_E000 ==> v - 4096 < 8192 * (half_of(v) + 0x1C000) <= v + 4096,
        0x3380_0000 <= v < 0x3880_0000 ==> {
            let s = (126 - v as int / 0x80_0000) as nat;
            let m = v as int % 0x80_0000 + 0x80_0000;
            2 * m - pow2(s) < 2 * (half_of(v) * pow2(s)) <= 2 * m + pow2(s)
        },
        v < 0x3380_0000 ==> half_of(v) == 0,
{
    let b = min_int(v as int, 0x477F_E000);
    let e = b / 0x80_0000;
    if 0 < v <= 0x7F80_0000 && 103 <= e < 113 {
        let s = (126 - e) as nat;
        let m = b % 0x80_0000 + 0x80_0000;
        lemma_half_small(m, s);
        vstd::arithmetic::power2::lemma_pow2_unfold(s);
        let (d, r) = (pow2(s) as int, pow2((s - 1) as nat) as int);
        let h = (m + r) / d;
        assert(h * d <= m + r < h * d + d) by (nonlinear_arith)
            requires
                h == (m + r) / d,
                d > 0,
        ;
    }
}

proof fn lemma_quantised_near(t: int)
    requires
        0 <= t <= 31743,
    ensures
        0 <= nearest10(t) < 1024,
        -30 <= half_of_level(level10(nearest10(t))) - t <= 30,
{
    let (lo, hi) = tried10(t);
    let q = t / 31;
    assert(0 <= q <= 1023 && lo <= q <= hi);
    let costs = costs10(t);
    lemma_first_min(costs, costs.len());
    let near = half_of_level(level10(q)) - t;
    assert(-30 <= near <= 30) by {
        if q == 0 {
        } else if q == 1023 {
            assert(65535int * 31 / 64 == 31743);
        } else {
            assert((q * 65536 + 32768) / 1024 == 64 * q + 32);
            assert((64 * q + 32) * 31 / 64 == 31 * q + 15);
        }
    }
    assert(costs[q - lo] == sq(near));
    let k = best_of(costs);
    let best = half_of_level(level10(lo + k)) - t;
    assert(costs[k] == sq(best));
    lemma_within(best, near, 30);
}

proof fn lemma_within(a: int, b: int, m: int)
    requires
        sq(a) <= sq(b),
        -m <= b <= m,
        m >= 0,
    ensures
        -m <= a <= m,
{
    reveal(sq);
    assert(b * b <= m * m) by (nonlinear_arith)
        requires
            -m <= b <= m,
    ;
    if a > m || a < -m {
        assert(a * a > m * m) by (nonlinear_arith)
            requires
                a > m || a < -m,
                m >= 0,
        ;
    }
}

proof fn lemma_square(a: int, m: int)
    requires
        -m <= a <= m,
    ensures
        0 <= sq(a) <= m * m,
{
    reveal(sq);
    assert(0 <= a * a <= m * m) by (nonlinear_arith)
        requires
            -m <= a <= m,
    ;
}

/// The halves of sixteen texels lie between two halves a channel.
pub open spec fn halves_between(px: Seq<Seq<u32>>, lo: Seq<int>, hi: Seq<int>) -> bool {
    forall|i: int, c: int| 0 <= i < 16 && 0 <= c < 3 ==> lo[c] <= half_of(#[trigger] px[i][c]) <= hi[c]
}

/// What the halves of a texel may err by: the spread of the channels, and a step of
/// an endpoint more.
pub open spec fn halves_allowance(lo: Seq<int>, hi: Seq<int>) -> int {
    let (r, g, b) = (hi[0] - lo[0] + 30, hi[1] - lo[1] + 30, hi[2] - lo[2] + 30);
    16 * (r * r + g * g + b * b)
}

proof fn lemma_top(h: Seq<Seq<int>>, c: int, lo: int, hi: int, n: nat)
    requires
        n <= 16,
        0 <= lo,
        hi <= 31743,
        forall|i: int| 0 <= i < 16 ==> lo <= (#[trigger] h[i])[c] <= hi,
    ensures
        n > 0 ==> lo <= top_of(h, c, n) <= hi,
        0 <= top_of(h, c, n) <= 31743,
    decreases n,
{
    if n > 0 {
        lemma_top(h, c, lo, hi, (n - 1) as nat);
        assert(lo <= h[n - 1][c] <= hi);
        if n == 1 {
            assert(top_of(h, c, 0) == 0);
        }
    }
}

/// The squared error, over halves, of an encoded and decoded BC6H block is bounded
/// by the spread of its texels' halves.
pub proof fn law_bc6h_block_comes_back(px: Seq<Seq<u32>>, lo: Seq<int>, hi: Seq<int>)
    requires
        px.len() == 16,
        halves_between(px, lo, hi),
    ensures
        bc6h_encoded(px).len() == 16,
        bc6h_encoded(px)[0] % 32 == 3,
        halves_error(px, bc6h_rgb(bc6h_encoded(px), false)) <= halves_allowance(lo, hi),
{
    let h = halves_of(px);
    lemma_encoded_len(px);
    law_bc6h_score_is_decoded_error(px);
    let top = Seq::new(3, |c: int| top_of(h, c, 16));
    let bottom = Seq::new(3, |c: int| bottom_of(h, c, 16));
    let (qw, qx) = (quantised3(top), quantised3(bottom));
    let pal = palette11(qw, qx);
    let costs = costs11(h, pal);
    let b = halves_allowance(lo, hi) / 16;
    let (r, g, u) = (hi[0] - lo[0] + 30, hi[1] - lo[1] + 30, hi[2] - lo[2] + 30);
    assert(b == r * r + g * g + u * u);
    assert forall|i: int| 0 <= i < 16 implies 0 <= #[trigger] fit_costs(costs)[i] <= b by {
        lemma_first_min(costs[i], 16);
        let k = best_of(costs[i]);
        assert(costs[i][k] == distance3(pal[k], h[i]));
        lemma_sq(pal[k][0] - h[i][0]);
        lemma_sq(pal[k][1] - h[i][1]);
        lemma_sq(pal[k][2] - h[i][2]);
        lemma_first_entry(px, lo, hi, pal, qx, 0, i);
        lemma_first_entry(px, lo, hi, pal, qx, 1, i);
        lemma_first_entry(px, lo, hi, pal, qx, 2, i);
        lemma_square(pal[0][0] - h[i][0], r);
        lemma_square(pal[0][1] - h[i][1], g);
        lemma_square(pal[0][2] - h[i][2], u);
        assert(costs[i][0] == distance3(pal[0], h[i]));
    }
    lemma_total_bound(fit_costs(costs), 16, b);
    assert(seed11(h).3 == fit_error(costs));
    lemma_chosen11_sound(h);
    lemma_reads11(chosen11(h), 0, 0);
}

proof fn lemma_first_entry(px: Seq<Seq<u32>>, lo: Seq<int>, hi: Seq<int>, pal: Seq<Seq<int>>, qx: Seq<int>, c: int, i: int)
    requires
        px.len() == 16,
        halves_between(px, lo, hi),
        0 <= c < 3,
        0 <= i < 16,
        pal == palette11(quantised3(Seq::new(3, |c: int| top_of(halves_of(px), c, 16))), qx),
    ensures
        ({
            let m = hi[c] - lo[c] + 30;
            -m <= pal[0][c] - halves_of(px)[i][c] <= m
        }),
{
    let h = halves_of(px);
    let top = Seq::new(3, |c: int| top_of(h, c, 16));
    let (l, u) = (max_int(lo[c], 0), min_int(hi[c], 31743));
    assert forall|j: int| 0 <= j < 16 implies l <= (#[trigger] h[j])[c] <= u by {
        law_half_is_nearest(px[j][c]);
        assert(lo[c] <= half_of(px[j][c]) <= hi[c]);
    }
    lemma_top(h, c, l, u, 16);
    assert(lo[c] <= half_of(px[i][c]) <= hi[c]);
    let t = top[c];
    lemma_quantised_near(t);
    let q = nearest10(t);
    assert(quantised3(top)[c] == q);
    assert(weights4()[0] == 0);
    assert((level10(q) * (64 - 0) + level10(qx[c]) * 0 + 32) / 64 == level10(q));
    assert(pal[0][c] == half_of_level(level10(q)));
}

/// Channel `c` of pixel `(x, y)`.
pub open spec fn single_at(rgba: Seq<u32>, w: int, x: int, y: int, c: int) -> u32 {
    rgba[(y * w + x) * 4 + c]
}

/// The halves of the pixels of the 4x4 square around `(x, y)` lie between two halves
/// a channel.
pub open spec fn square_between(rgba: Seq<u32>, w: int, h: int, x: int, y: int, lo: Seq<int>, hi: Seq<int>) -> bool {
    forall|u: int, v: int, c: int|
        0 <= u < w && 0 <= v < h && u / 4 == x / 4 && v / 4 == y / 4 && 0 <= c < 3 ==> lo[c] <= half_of(
            #[trigger] single_at(rgba, w, u, v, c),
        ) <= hi[c]
}

/// Decoding an encoded BC6H image gives back every pixel: the halves of its colours
/// within what the spread of the 4x4 square around it allows, opaque.
pub proof fn law_bc6h_pixels_come_back(rgba: Seq<u32>, w: int, h: int, x: int, y: int, lo: Seq<int>, hi: Seq<int>)
    requires
        0 <= x < w,
        0 <= y < h,
        square_between(rgba, w, h, x, y, lo, hi),
    ensures
        ({
            let all = bc6h_pixels(bc6h_payload(rgba, w, h), w, h, false);
            let k = (y * w + x) * 4;
            let r = half_of(all[k]) - half_of(rgba[k]);
            let g = half_of(all[k + 1]) - half_of(rgba[k + 1]);
            let b = half_of(all[k + 2]) - half_of(rgba[k + 2]);
            &&& r * r + g * g + b * b <= halves_allowance(lo, hi)
            &&& all[k + 3] == 0x3F80_0000
        }),
{
    let n = block_of(w, x, y);
    let px = float_block_at(rgba, w, h, n);
    let t = (y % 4) * 4 + x % 4;
    lemma_square_block(rgba, w, h, x, y, lo, hi);
    law_bc6h_block_comes_back(px, lo, hi);
    let rgb = bc6h_rgb(bc6h_encoded(px), false);
    lemma_texel_error(px, rgb, t);
    lemma_three_numbers(rgba, w, h, x, y);
    law_bc6h_texels_decode_from_their_blocks(rgba, w, h, x, y, 3);
    assert(px[t][0] == rgba[(y * w + x) * 4 + 0] && px[t][1] == rgba[(y * w + x) * 4 + 1] && px[t][2] == rgba[(y * w + x) * 4
        + 2]);
}

/// The numbers of a decoded pixel are those of its block's texel.
proof fn lemma_three_numbers(rgba: Seq<u32>, w: int, h: int, x: int, y: int)
    requires
        0 <= x < w,
        0 <= y < h,
    ensures
        ({
            let rgb = bc6h_rgb(bc6h_encoded(float_block_at(rgba, w, h, block_of(w, x, y))), false);
            let t = (y % 4) * 4 + x % 4;
            let all = bc6h_pixels(bc6h_payload(rgba, w, h), w, h, false);
            let k = (y * w + x) * 4;
            all[k] == rgb[3 * t] && all[k + 1] == rgb[3 * t + 1] && all[k + 2] == rgb[3 * t + 2]
        }),
{
    let t = (y % 4) * 4 + x % 4;
    lemma_image_texel(rgba, w, h, x, y, 0);
    lemma_image_texel(rgba, w, h, x, y, 1);
    lemma_image_texel(rgba, w, h, x, y, 2);
    assert((t * 4) / 4 == t && (t * 4) % 4 == 0);
    assert((t * 4 + 1) / 4 == t && (t * 4 + 1) % 4 == 1);
    assert((t * 4 + 2) / 4 == t && (t * 4 + 2) % 4 == 2);
}

/// No texel errs by more than its block.
proof fn lemma_texel_error(px: Seq<Seq<u32>>, rgb: Seq<u32>, t: int)
    requires
        0 <= t < 16,
    ensures
        ({
            let r = half_of(rgb[3 * t]) - half_of(px[t][0]);
            let g = half_of(rgb[3 * t + 1]) - half_of(px[t][1]);
            let b = half_of(rgb[3 * t + 2]) - half_of(px[t][2]);
            r * r + g * g + b * b <= halves_error(px, rgb)
        }),
{
    let s = Seq::new(16, |i: int| distance3(decoded_halves(rgb, i), halves_of(px)[i]));
    assert forall|i: int| 0 <= i < 16 implies #[trigger] s[i] >= 0 by {
        lemma_sq(decoded_halves(rgb, i)[0] - halves_of(px)[i][0]);
        lemma_sq(decoded_halves(rgb, i)[1] - halves_of(px)[i][1]);
        lemma_sq(decoded_halves(rgb, i)[2] - halves_of(px)[i][2]);
    }
    lemma_term(s, t, 16);
    reveal(sq);
    assert(s[t] == distance3(decoded_halves(rgb, t), halves_of(px)[t]));
}

/// The block of a pixel holds the pixels of its square.
proof fn lemma_square_block(rgba: Seq<u32>, w: int, h: int, x: int, y: int, lo: Seq<int>, hi: Seq<int>)
    requires
        0 <= x < w,
        0 <= y < h,
        square_between(rgba, w, h, x, y, lo, hi),
    ensures
        ({
            let px = float_block_at(rgba, w, h, block_of(w, x, y));
            let t = (y % 4) * 4 + x % 4;
            &&& px.len() == 16
            &&& halves_between(px, lo, hi)
            &&& forall|c: int| 0 <= c < 4 ==> #[trigger] px[t][c] == rgba[(y * w + x) * 4 + c]
        }),
{
    let (bx, by) = (x / 4, y / 4);
    let n = block_of(w, x, y);
    let px = float_block_at(rgba, w, h, n);
    let t = (y % 4) * 4 + x % 4;
    let bw = block_count(w);
    vstd::arithmetic::div_mod::lemma_fundamental_div_mod_converse(n, bw, by, bx);
    assert forall|i: int, c: int| 0 <= i < 16 && 0 <= c < 3 implies lo[c] <= half_of(#[trigger] px[i][c]) <= hi[c] by {
        let u = min_int(4 * bx + i % 4, w - 1);
        let v = min_int(4 * by + i / 4, h - 1);
        assert(u / 4 == bx && v / 4 == by);
        assert(px[i][c] == single_at(rgba, w, u, v, c));
    }
    assert(t % 4 == x % 4 && t / 4 == y % 4);
    assert(min_int(4 * bx + t % 4, w - 1) == x && min_int(4 * by + t / 4, h - 1) == y);
}

/// Decoding an encoded BC6H container gives back its pixels as decoding its payload
/// does, and it is tagged as unsigned.
pub proof fn law_bc6h_container_comes_back(
    dds: Dds,
    pixels: Seq<u32>,
    width: u32,
    height: u32,
    id: SubresourceId,
    x: int,
    y: int,
    lo: Seq<int>,
    hi: Seq<int>,
)
    requires
        float_outcome(pixels.len() as int, width as int, height as int) is Ok,
        holds_floats(dds, pixels, width, height),
        dds.has(id),
        0 <= x < width,
        0 <= y < height,
        square_between(pixels, width as int, height as int, x, y, lo, hi),
    ensures
        dds.names_bc6h(false),
        dds.f32_outcome(id) is Ok,
        dds.sides(id.mip) == (width, height, 1u32),
        ({
            let all = dds.f32_pixels(id);
            let k = (y * width + x) * 4;
            let r = half_of(all[k]) - half_of(pixels[k]);
            let g = half_of(all[k + 1]) - half_of(pixels[k + 1]);
            let b = half_of(all[k + 2]) - half_of(pixels[k + 2]);
            &&& r * r + g * g + b * b <= halves_allowance(lo, hi)
            &&& all[k + 3] == 0x3F80_0000
        }),
{
    law_bc6h_container_decodes(dds, pixels, width, height, id);
    law_bc6h_pixels_come_back(pixels, width as int, height as int, x, y, lo, hi);
}

} // verus!
