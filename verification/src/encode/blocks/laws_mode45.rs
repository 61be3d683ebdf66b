//! What mode 4 and mode 5 blocks decode to, and what the BC7 encoder's error is.

use vstd::arithmetic::power2::pow2;
use vstd::prelude::*;

use crate::binary32::clamped;
use crate::decode::bcn::{bc7_rgba, block_number, lone_index, mode4_endpoint, mode4_texel, mode4_texels, mode5_endpoint, mode5_texels, mode5_unrotated, turned};
use crate::encode::blocks::alpha::{column, sample_costs};
use crate::encode::blocks::bc1::{axis_extremes, better, channel_high, channel_highs, channel_low, channel_lows, Scored};
use crate::encode::blocks::bc7::{alpha_fit, alpha_search, alpha_window, bc7_encoded, best_fit6, better_fit, brightest, channel_span_of, color_bytes, color_fit, color_levels, color_search, darkest, far_pair, fit6_bytes, float_weights2, float_weights4, index_fields, interp_bytes, interp_rows, largest_texel, lemma_interp64, mean_texel, mode4_alpha, mode4_block, mode4_fields, mode5_alpha, mode5_block, mode5_fields, mode6_bytes, mode6_fields, rotated, rotation_step, seeded_fit6, smallest_texel, weights2, weights3, AlphaFit, ColorFit, Fit6};
use crate::encode::blocks::laws::law_mode6_score_is_decoded_error;
use crate::encode::blocks::laws_mode1::{law_mode1_score, law_mode1_score_is_decoded_error, lemma_field_of_block};
use crate::encode::blocks::lsq::ls_endpoints;
use crate::encode::blocks::m1::{mode1_search, shortlist};
use crate::encode::blocks::rdo7::{decoded_costs7, decoded_error7};
use crate::encode::blocks::{is_block, rgb_costs, rgb_distance, stretch6};
use crate::model::{best_of, bit_field, bit_string, bit_width, fit_costs, fit_indices, le_bytes, lemma_first_min_in, lemma_sq, lemma_total_eq, sq, total};

verus! {

/// The byte of an alpha level: mode 5 stores bytes, mode 4 six bits.
pub open spec fn alpha_byte(q: u8, five: bool) -> u8 {
    if five {
        q
    } else {
        stretch6(q as int) as u8
    }
}

/// The weights of a mode's alpha indices.
pub open spec fn alpha_weights(five: bool) -> Seq<int> {
    if five {
        weights2()
    } else {
        weights3()
    }
}

/// The greatest colour level and one more.
pub open spec fn color_limit(seven: bool) -> int {
    if seven {
        128
    } else {
        32
    }
}

/// The colour that pixel `i` of a colour half stands for.
pub open spec fn color_texel(f: ColorFit, seven: bool, i: int) -> Seq<u8> {
    interp_rows(color_bytes(f.0, seven), color_bytes(f.1, seven), weights2())[f.2[i] as int]
}

/// The alpha that pixel `i` of an alpha half stands for.
pub open spec fn alpha_texel(f: AlphaFit, five: bool, i: int) -> u8 {
    interp_bytes(alpha_byte(f.0, five), alpha_byte(f.1, five), alpha_weights(five))[f.2[i] as int]
}

/// The colour half fits its fields, the first index one bit narrower.
pub open spec fn color_fits(f: ColorFit, seven: bool) -> bool {
    &&& f.0.len() == 3
    &&& f.1.len() == 3
    &&& f.2.len() == 16
    &&& forall|c: int| 0 <= c < 3 ==> #[trigger] f.0[c] < color_limit(seven)
    &&& forall|c: int| 0 <= c < 3 ==> #[trigger] f.1[c] < color_limit(seven)
    &&& forall|i: int| 0 <= i < 16 ==> #[trigger] f.2[i] < 4
    &&& f.2[0] < 2
}

/// The alpha half fits its fields, the first index one bit narrower.
pub open spec fn alpha_fits(f: AlphaFit, five: bool) -> bool {
    &&& f.2.len() == 16
    &&& !five ==> f.0 < 64 && f.1 < 64
    &&& forall|i: int| 0 <= i < 16 ==> #[trigger] f.2[i] < alpha_weights(five).len()
    &&& 2 * f.2[0] < alpha_weights(five).len()
}

/// The colour half fits its fields and is scored by the error it leaves.
pub open spec fn sound_color(px: Seq<Seq<u8>>, f: ColorFit, seven: bool) -> bool {
    &&& color_fits(f, seven)
    &&& f.3 == total(Seq::new(16, |i: int| rgb_distance(px[i], color_texel(f, seven, i))), 16)
}

/// The alpha half fits its fields and is scored by the error it leaves.
pub open spec fn sound_half(s: Seq<u8>, f: AlphaFit, five: bool) -> bool {
    &&& alpha_fits(f, five)
    &&& f.3 == total(Seq::new(16, |i: int| sq(alpha_texel(f, five, i) - s[i])), 16)
}

proof fn lemma_mirror2(k: int)
    requires
        0 <= k < 4,
    ensures
        weights2()[3 - k] == 64 - weights2()[k],
        0 <= weights2()[k] <= 64,
{
}

proof fn lemma_mirror3(k: int)
    requires
        0 <= k < 8,
    ensures
        weights3()[7 - k] == 64 - weights3()[k],
        0 <= weights3()[k] <= 64,
{
}

proof fn lemma_color_sound(px: Seq<Seq<u8>>, e0: Seq<u8>, e1: Seq<u8>, seven: bool)
    requires
        px.len() == 16,
    ensures
        sound_color(px, color_fit(px, e0, e1, seven), seven),
{
    let q0 = color_levels(e0, seven);
    let q1 = color_levels(e1, seven);
    let (a, b) = (color_bytes(q0, seven), color_bytes(q1, seven));
    let pal = interp_rows(a, b, weights2());
    let costs = rgb_costs(px, pal);
    let idx = fit_indices(costs);
    let f = color_fit(px, e0, e1, seven);
    let want = Seq::new(16, |i: int| rgb_distance(px[i], color_texel(f, seven, i)));
    assert forall|i: int| 0 <= i < 16 implies #[trigger] idx[i] < 4 by {
        lemma_first_min_in(costs[i], 4);
    }
    assert forall|i: int| 0 <= i < 16 implies #[trigger] fit_costs(costs)[i] == want[i] by {
        lemma_first_min_in(costs[i], 4);
        let k = best_of(costs[i]);
        assert(idx[i] == k);
        lemma_mirror2(k);
        assert(color_texel(f, seven, i) =~= pal[k]) by {
            assert forall|c: int| 0 <= c < 3 implies color_texel(f, seven, i)[c] == pal[k][c] by {
                lemma_interp64(weights2()[k], a[c] as int, b[c] as int);
            }
        }
    }
    lemma_total_eq(fit_costs(costs), want, 16);
}

proof fn lemma_color_search_sound(px: Seq<Seq<u8>>, seven: bool)
    requires
        px.len() == 16,
    ensures
        sound_color(px, color_search(px, seven), seven),
{
    reveal(color_search);
    lemma_color_sound(px, brightest(px), darkest(px), seven);
    lemma_color_sound(px, channel_highs(px, 3), channel_lows(px, 3), seven);
    let f0 = color_fit(px, brightest(px), darkest(px), seven);
    let f1 = better_fit(f0, color_fit(px, channel_highs(px, 3), channel_lows(px, 3), seven));
    if let Some((a, b)) = axis_extremes(px) {
        lemma_color_sound(px, a, b, seven);
    }
    let f2 = match axis_extremes(px) {
        Some((a, b)) => better_fit(f1, color_fit(px, a, b, seven)),
        None => f1,
    };
    if let Some((a, b)) = ls_endpoints(px, float_weights2(f2.2), 3) {
        lemma_color_sound(px, a, b, seven);
    }
}

proof fn lemma_half_sound(s: Seq<u8>, q0: u8, q1: u8, five: bool)
    requires
        s.len() == 16,
        !five ==> q0 < 64 && q1 < 64,
    ensures
        sound_half(s, alpha_fit(s, q0, q1, five), five),
{
    let (a, b) = (alpha_byte(q0, five), alpha_byte(q1, five));
    let ws = alpha_weights(five);
    let pal = interp_bytes(a, b, ws);
    let costs = sample_costs(s, pal);
    let idx = fit_indices(costs);
    let f = alpha_fit(s, q0, q1, five);
    let want = Seq::new(16, |i: int| sq(alpha_texel(f, five, i) - s[i]));
    assert forall|i: int| 0 <= i < 16 implies #[trigger] idx[i] < ws.len() by {
        lemma_first_min_in(costs[i], ws.len());
    }
    assert forall|i: int| 0 <= i < 16 implies #[trigger] fit_costs(costs)[i] == want[i] by {
        lemma_first_min_in(costs[i], ws.len());
        let k = best_of(costs[i]);
        assert(idx[i] == k);
        if five {
            lemma_mirror2(k);
        } else {
            lemma_mirror3(k);
        }
        lemma_interp64(ws[k], a as int, b as int);
        assert(alpha_texel(f, five, i) == pal[k]);
    }
    lemma_total_eq(fit_costs(costs), want, 16);
}

proof fn lemma_window_sound(s: Seq<u8>, st: AlphaFit, c0: u8, c1: u8, k: nat, five: bool)
    requires
        s.len() == 16,
        sound_half(s, st, five),
    ensures
        sound_half(s, alpha_window(s, st, c0, c1, k, five), five),
    decreases k,
{
    if k > 0 {
        lemma_window_sound(s, st, c0, c1, (k - 1) as nat, five);
        let top = if five {
            255int
        } else {
            63int
        };
        lemma_half_sound(
            s,
            clamped(c0 + ((k - 1) / 5 - 2), 0, top) as u8,
            clamped(c1 + ((k - 1) % 5 - 2), 0, top) as u8,
            five,
        );
    }
}

proof fn lemma_alpha_search_sound(s: Seq<u8>, hi: u8, lo: u8, five: bool)
    requires
        s.len() == 16,
    ensures
        sound_half(s, alpha_search(s, hi, lo, five), five),
{
    let c0 = if five {
        hi
    } else {
        hi / 4
    };
    let c1 = if five {
        lo
    } else {
        lo / 4
    };
    lemma_half_sound(s, c0, c1, five);
    lemma_window_sound(s, alpha_fit(s, c0, c1, five), c0, c1, 25, five);
}

/// The width of the first `j` of sixteen index fields of `n` bits.
pub proof fn lemma_index_widths(f: Seq<(int, nat)>, idx: Seq<u8>, n: nat, from: nat, j: nat)
    requires
        n >= 1,
        j <= 16,
        f.len() >= from + 16,
        forall|i: int| 0 <= i < 16 ==> #[trigger] f[from + i] == index_fields(idx, n)[i],
    ensures
        bit_width(f, from + j) as int == bit_width(f, from) + n * j - (if j > 0 {
            1int
        } else {
            0
        }),
    decreases j,
{
    if j > 0 {
        lemma_index_widths(f, idx, n, from, (j - 1) as nat);
        assert(f[from + (j - 1)] == index_fields(idx, n)[j - 1]);
        assert(n * j == n * (j - 1) + n) by (nonlinear_arith);
    } else {
        assert(n * j == 0) by (nonlinear_arith)
            requires
                j == 0,
        ;
    }
}

/// How many values an index of `n` bits has.
pub open spec fn index_values(n: nat) -> int {
    if n == 2 {
        4
    } else if n == 3 {
        8
    } else {
        16
    }
}

/// An index of a block reads back from its bytes.
pub proof fn lemma_reads_lone_index(f: Seq<(int, nat)>, idx: Seq<u8>, n: nat, from: nat, p: int)
    requires
        2 <= n <= 4,
        0 <= p < 16,
        f.len() >= from + 16,
        bit_width(f, f.len()) == 128,
        forall|i: int| 0 <= i < 16 ==> #[trigger] f[from + i] == index_fields(idx, n)[i],
        idx[p] < index_values(n),
        2 * idx[0] < index_values(n),
    ensures
        lone_index(block_number(le_bytes(bit_string(f, 0), 16), 0), bit_width(f, from) as int, n as int, p) == idx[p],
{
    vstd::arithmetic::power2::lemma2_to64();
    assert(pow2(1) == 2 && pow2(2) == 4 && pow2(3) == 8 && pow2(4) == 16);
    lemma_index_widths(f, idx, n, from, p as nat);
    assert(f[from + p] == index_fields(idx, n)[p]);
    let base = bit_width(f, from) as int;
    let j = (from + p) as nat;
    if p == 0 {
        lemma_field_of_block(f, j, base as nat, idx[0] as int, (n - 1) as nat);
    } else {
        lemma_field_of_block(f, j, (base + n * p - 1) as nat, idx[p] as int, n);
    }
}

/// The bytes of a mode 5 block.
pub open spec fn mode5_bytes(rot: int, c: ColorFit, a: AlphaFit) -> Seq<u8> {
    le_bytes(bit_string(mode5_fields(rot, c, a), 0), 16)
}

/// The bytes of a mode 4 block.
pub open spec fn mode4_bytes(c: ColorFit, a: AlphaFit) -> Seq<u8> {
    le_bytes(bit_string(mode4_fields(c, a), 0), 16)
}

proof fn lemma_mode5_widths(rot: int, c: ColorFit, a: AlphaFit)
    ensures
        mode5_fields(rot, c, a).len() == 42,
        forall|j: nat| 2 <= j <= 8 ==> #[trigger] bit_width(mode5_fields(rot, c, a), j) as int == 8 + 7 * (j - 2),
        bit_width(mode5_fields(rot, c, a), 0) == 0,
        bit_width(mode5_fields(rot, c, a), 1) == 6,
        bit_width(mode5_fields(rot, c, a), 9) == 58,
        bit_width(mode5_fields(rot, c, a), 10) == 66,
        bit_width(mode5_fields(rot, c, a), 26) == 97,
        bit_width(mode5_fields(rot, c, a), 42) == 128,
        forall|i: int| 0 <= i < 16 ==> #[trigger] mode5_fields(rot, c, a)[10 + i] == index_fields(c.2, 2)[i],
        forall|i: int| 0 <= i < 16 ==> #[trigger] mode5_fields(rot, c, a)[26 + i] == index_fields(a.2, 2)[i],
{
    let f = mode5_fields(rot, c, a);
    reveal_with_fuel(bit_width, 11);
    lemma_index_widths(f, c.2, 2, 10, 16);
    lemma_index_widths(f, a.2, 2, 26, 16);
}

proof fn lemma_mode4_widths(c: ColorFit, a: AlphaFit)
    ensures
        mode4_fields(c, a).len() == 43,
        forall|j: nat| 3 <= j <= 9 ==> #[trigger] bit_width(mode4_fields(c, a), j) as int == 8 + 5 * (j - 3),
        bit_width(mode4_fields(c, a), 0) == 0,
        bit_width(mode4_fields(c, a), 1) == 5,
        bit_width(mode4_fields(c, a), 2) == 7,
        bit_width(mode4_fields(c, a), 10) == 44,
        bit_width(mode4_fields(c, a), 11) == 50,
        bit_width(mode4_fields(c, a), 27) == 81,
        bit_width(mode4_fields(c, a), 43) == 128,
        forall|i: int| 0 <= i < 16 ==> #[trigger] mode4_fields(c, a)[11 + i] == index_fields(c.2, 2)[i],
        forall|i: int| 0 <= i < 16 ==> #[trigger] mode4_fields(c, a)[27 + i] == index_fields(a.2, 3)[i],
{
    let f = mode4_fields(c, a);
    reveal_with_fuel(bit_width, 12);
    lemma_index_widths(f, c.2, 2, 11, 16);
    lemma_index_widths(f, a.2, 3, 27, 16);
}

proof fn lemma_mode5_reads_color(rot: int, c: ColorFit, a: AlphaFit, ch: int)
    requires
        color_fits(c, true),
        0 <= ch < 3,
    ensures
        mode5_endpoint(block_number(mode5_bytes(rot, c, a), 0), 0, ch) == color_bytes(c.0, true)[ch],
        mode5_endpoint(block_number(mode5_bytes(rot, c, a), 0), 1, ch) == color_bytes(c.1, true)[ch],
{
    let f = mode5_fields(rot, c, a);
    lemma_mode5_widths(rot, c, a);
    vstd::arithmetic::power2::lemma2_to64();
    assert(pow2(7) == 128);
    let j = (2 + 2 * ch) as nat;
    assert(f[j as int] == (c.0[ch] as int, 7nat));
    assert(f[(j + 1) as int] == (c.1[ch] as int, 7nat));
    assert(bit_width(f, j) == 8 + 14 * ch);
    assert(bit_width(f, j + 1) == 8 + 14 * ch + 7);
    lemma_field_of_block(f, j, (8 + 14 * ch) as nat, c.0[ch] as int, 7);
    lemma_field_of_block(f, j + 1, (8 + 14 * ch + 7) as nat, c.1[ch] as int, 7);
}

proof fn lemma_mode4_reads_color(c: ColorFit, a: AlphaFit, ch: int)
    requires
        color_fits(c, false),
        0 <= ch < 3,
    ensures
        mode4_endpoint(block_number(mode4_bytes(c, a), 0), 0, ch) == color_bytes(c.0, false)[ch],
        mode4_endpoint(block_number(mode4_bytes(c, a), 0), 1, ch) == color_bytes(c.1, false)[ch],
{
    let f = mode4_fields(c, a);
    lemma_mode4_widths(c, a);
    vstd::arithmetic::power2::lemma2_to64();
    assert(pow2(5) == 32);
    let j = (3 + 2 * ch) as nat;
    assert(f[j as int] == (c.0[ch] as int, 5nat));
    assert(f[(j + 1) as int] == (c.1[ch] as int, 5nat));
    assert(bit_width(f, j) == 8 + 10 * ch);
    assert(bit_width(f, j + 1) == 8 + 10 * ch + 5);
    lemma_field_of_block(f, j, (8 + 10 * ch) as nat, c.0[ch] as int, 5);
    lemma_field_of_block(f, j + 1, (8 + 10 * ch + 5) as nat, c.1[ch] as int, 5);
}

proof fn lemma_mode5_reads_rest(rot: int, c: ColorFit, a: AlphaFit)
    requires
        0 <= rot < 4,
    ensures
        mode5_bytes(rot, c, a)[0] % 64 == 32,
        bit_field(block_number(mode5_bytes(rot, c, a), 0), 6, 2) == rot,
        mode5_endpoint(block_number(mode5_bytes(rot, c, a), 0), 0, 3) == a.0,
        mode5_endpoint(block_number(mode5_bytes(rot, c, a), 0), 1, 3) == a.1,
{
    let f = mode5_fields(rot, c, a);
    lemma_mode5_widths(rot, c, a);
    vstd::arithmetic::power2::lemma2_to64();
    assert(pow2(0) == 1 && pow2(2) == 4 && pow2(6) == 64 && pow2(8) == 256);
    lemma_field_of_block(f, 0, 0, 32, 6);
    lemma_field_of_block(f, 1, 6, rot, 2);
    assert(bit_width(f, 8) == 50);
    lemma_field_of_block(f, 8, 50, a.0 as int, 8);
    lemma_field_of_block(f, 9, 58, a.1 as int, 8);
    let b = mode5_bytes(rot, c, a);
    let v = block_number(b, 0);
    let rest = block_number(b, 1);
    assert(v == b[0] + 256 * rest);
    assert(v / 1 == v);
}

proof fn lemma_mode4_reads_rest(c: ColorFit, a: AlphaFit)
    requires
        alpha_fits(a, false),
    ensures
        mode4_bytes(c, a)[0] == 0x10,
        mode4_endpoint(block_number(mode4_bytes(c, a), 0), 0, 3) == alpha_byte(a.0, false),
        mode4_endpoint(block_number(mode4_bytes(c, a), 0), 1, 3) == alpha_byte(a.1, false),
{
    let f = mode4_fields(c, a);
    lemma_mode4_widths(c, a);
    vstd::arithmetic::power2::lemma2_to64();
    assert(pow2(0) == 1 && pow2(1) == 2 && pow2(2) == 4 && pow2(5) == 32 && pow2(6) == 64 && pow2(7) == 128);
    lemma_field_of_block(f, 0, 0, 16, 5);
    lemma_field_of_block(f, 1, 5, 0, 2);
    lemma_field_of_block(f, 2, 7, 0, 1);
    assert(bit_width(f, 9) == 38);
    lemma_field_of_block(f, 9, 38, a.0 as int, 6);
    lemma_field_of_block(f, 10, 44, a.1 as int, 6);
    let b = mode4_bytes(c, a);
    let v = block_number(b, 0);
    let rest = block_number(b, 1);
    assert(v == b[0] + 256 * rest);
    assert(v / 1 == v);
    lemma_first_byte(b[0] as int, rest);
}

proof fn lemma_first_byte(b: int, rest: int)
    requires
        0 <= b < 256,
        (b + 256 * rest) % 32 == 16,
        (b + 256 * rest) / 32 % 4 == 0,
        (b + 256 * rest) / 128 % 2 == 0,
    ensures
        b == 16,
{
    assert((b + 256 * rest) / 32 == b / 32 + 8 * rest);
    assert((b + 256 * rest) / 128 == b / 128 + 2 * rest);
}

/// A packed mode 5 block decodes, before its rotation, to what its halves stand
/// for.
pub proof fn law_mode5_block_decodes(rot: int, c: ColorFit, a: AlphaFit, p: int, ch: int)
    requires
        color_fits(c, true),
        alpha_fits(a, true),
        0 <= rot < 4,
        0 <= p < 16,
        0 <= ch < 4,
    ensures
        mode5_bytes(rot, c, a)[0] % 64 == 32,
        bit_field(block_number(mode5_bytes(rot, c, a), 0), 6, 2) == rot,
        mode5_unrotated(block_number(mode5_bytes(rot, c, a), 0), p, ch) == (if ch < 3 {
            color_texel(c, true, p)[ch]
        } else {
            alpha_texel(a, true, p)
        }),
{
    let f = mode5_fields(rot, c, a);
    lemma_mode5_widths(rot, c, a);
    lemma_mode5_reads_rest(rot, c, a);
    if ch < 3 {
        lemma_mode5_reads_color(rot, c, a, ch);
        lemma_reads_lone_index(f, c.2, 2, 10, p);
        lemma_mirror2(c.2[p] as int);
        lemma_interp64(
            weights2()[c.2[p] as int],
            color_bytes(c.0, true)[ch] as int,
            color_bytes(c.1, true)[ch] as int,
        );
    } else {
        lemma_reads_lone_index(f, a.2, 2, 26, p);
        lemma_mirror2(a.2[p] as int);
        lemma_interp64(weights2()[a.2[p] as int], a.0 as int, a.1 as int);
    }
}

/// A packed mode 4 block decodes to what its halves stand for.
pub proof fn law_mode4_block_decodes(c: ColorFit, a: AlphaFit, p: int, ch: int)
    requires
        color_fits(c, false),
        alpha_fits(a, false),
        0 <= p < 16,
        0 <= ch < 4,
    ensures
        mode4_bytes(c, a)[0] == 0x10,
        mode4_texel(block_number(mode4_bytes(c, a), 0), p, ch) == (if ch < 3 {
            color_texel(c, false, p)[ch]
        } else {
            alpha_texel(a, false, p)
        }),
{
    let f = mode4_fields(c, a);
    lemma_mode4_widths(c, a);
    lemma_mode4_reads_rest(c, a);
    if ch < 3 {
        lemma_mode4_reads_color(c, a, ch);
        lemma_reads_lone_index(f, c.2, 2, 11, p);
        lemma_mirror2(c.2[p] as int);
        lemma_interp64(
            weights2()[c.2[p] as int],
            color_bytes(c.0, false)[ch] as int,
            color_bytes(c.1, false)[ch] as int,
        );
    } else {
        lemma_reads_lone_index(f, a.2, 3, 27, p);
        lemma_mirror3(a.2[p] as int);
        lemma_interp64(
            weights3()[a.2[p] as int],
            alpha_byte(a.0, false) as int,
            alpha_byte(a.1, false) as int,
        );
    }
}

proof fn lemma_two_totals(a: Seq<int>, b: Seq<int>, e: Seq<int>, n: nat)
    requires
        forall|i: int| 0 <= i < n ==> #[trigger] e[i] == a[i] + b[i],
    ensures
        total(e, n) == total(a, n) + total(b, n),
    decreases n,
{
    if n > 0 {
        lemma_two_totals(a, b, e, (n - 1) as nat);
    }
}

/// The error that a mode 4 block reports is the error that the decoder leaves.
pub proof fn law_mode4_score_is_decoded_error(px: Seq<Seq<u8>>)
    requires
        px.len() == 16,
    ensures
        mode4_block(px).1 == decoded_error7(px, mode4_block(px).0),
{
    reveal(mode4_block);
    reveal(mode4_alpha);
    reveal(decoded_error7);
    let c = color_search(px, false);
    let a = mode4_alpha(px);
    let s = column(px, 3);
    lemma_color_search_sound(px, false);
    lemma_alpha_search_sound(s, channel_high(px, 3, 16) as u8, channel_low(px, 3, 16) as u8, false);
    let b = mode4_bytes(c, a);
    let rgb = Seq::new(16, |i: int| rgb_distance(px[i], color_texel(c, false, i)));
    let alpha = Seq::new(16, |i: int| sq(alpha_texel(a, false, i) - s[i]));
    law_mode4_block_decodes(c, a, 0, 0);
    assert(bc7_rgba(b) == mode4_texels(b));
    assert forall|i: int| 0 <= i < 16 implies #[trigger] decoded_costs7(px, b)[i] == rgb[i] + alpha[i] by {
        let t = bc7_rgba(b).subrange(4 * i, 4 * i + 4);
        let want = color_texel(c, false, i);
        assert forall|ch: int| 0 <= ch < 4 implies #[trigger] t[ch] == (if ch < 3 {
            want[ch]
        } else {
            alpha_texel(a, false, i)
        }) by {
            law_mode4_block_decodes(c, a, i, ch);
            assert((4 * i + ch) / 4 == i && (4 * i + ch) % 4 == ch);
            assert(t[ch] == mode4_texels(b)[4 * i + ch]);
        }
        lemma_sq(t[0] - px[i][0]);
        lemma_sq(t[1] - px[i][1]);
        lemma_sq(t[2] - px[i][2]);
        assert(px[i][0] - t[0] == -(t[0] - px[i][0]));
        assert(px[i][1] - t[1] == -(t[1] - px[i][1]));
        assert(px[i][2] - t[2] == -(t[2] - px[i][2]));
    }
    lemma_two_totals(rgb, alpha, decoded_costs7(px, b), 16);
}

/// The texels that a mode 5 block of rotation `rot` is fitted to.
pub open spec fn fitted_texels(px: Seq<Seq<u8>>, rot: int) -> Seq<Seq<u8>> {
    if rot == 0 {
        px
    } else {
        rotated(px, rot - 1)
    }
}

/// A channel of a decoded mode 5 texel.
proof fn lemma_mode5_channel(c: ColorFit, a: AlphaFit, rot: int, i: int, ch: int)
    requires
        color_fits(c, true),
        alpha_fits(a, true),
        0 <= rot < 4,
        0 <= i < 16,
        0 <= ch < 4,
    ensures
        bc7_rgba(mode5_bytes(rot, c, a)).subrange(4 * i, 4 * i + 4)[ch] == (if turned(rot, ch) < 3 {
            color_texel(c, true, i)[turned(rot, ch)]
        } else {
            alpha_texel(a, true, i)
        }),
{
    let b = mode5_bytes(rot, c, a);
    law_mode5_block_decodes(rot, c, a, i, turned(rot, ch));
    assert((4 * i + ch) / 4 == i && (4 * i + ch) % 4 == ch);
    assert(bc7_rgba(b) == mode5_texels(b));
}

/// The squared distance of a texel from a decoded mode 5 texel, told by halves.
proof fn lemma_mode5_distance(px: Seq<Seq<u8>>, c: ColorFit, a: AlphaFit, rot: int, i: int)
    requires
        is_block(px),
        color_fits(c, true),
        alpha_fits(a, true),
        0 <= rot < 4,
        0 <= i < 16,
    ensures
        decoded_costs7(px, mode5_bytes(rot, c, a))[i] == rgb_distance(
            fitted_texels(px, rot)[i],
            color_texel(c, true, i),
        ) + sq(alpha_texel(a, true, i) - fitted_texels(px, rot)[i][3]),
{
    let t = bc7_rgba(mode5_bytes(rot, c, a)).subrange(4 * i, 4 * i + 4);
    let p = fitted_texels(px, rot)[i];
    let u = color_texel(c, true, i);
    lemma_mode5_channel(c, a, rot, i, 0);
    lemma_mode5_channel(c, a, rot, i, 1);
    lemma_mode5_channel(c, a, rot, i, 2);
    lemma_mode5_channel(c, a, rot, i, 3);
    assert(px[i].len() == 4);
    lemma_sq(u[0] - p[0]);
    lemma_sq(u[1] - p[1]);
    lemma_sq(u[2] - p[2]);
    assert(p[0] - u[0] == -(u[0] - p[0]));
    assert(p[1] - u[1] == -(u[1] - p[1]));
    assert(p[2] - u[2] == -(u[2] - p[2]));
}

/// The error that a mode 5 block reports is the error that the decoder leaves,
/// also where a channel has changed places with alpha.
pub proof fn law_mode5_score_is_decoded_error(px: Seq<Seq<u8>>, rot: int)
    requires
        is_block(px),
        0 <= rot < 4,
    ensures
        mode5_block(fitted_texels(px, rot), rot).1 == decoded_error7(px, mode5_block(fitted_texels(px, rot), rot).0),
{
    reveal(mode5_block);
    reveal(mode5_alpha);
    reveal(decoded_error7);
    let q = fitted_texels(px, rot);
    let c = color_search(q, true);
    let a = mode5_alpha(q);
    let s = column(q, 3);
    lemma_color_search_sound(q, true);
    lemma_alpha_search_sound(s, channel_high(q, 3, 16) as u8, channel_low(q, 3, 16) as u8, true);
    let b = mode5_bytes(rot, c, a);
    let rgb = Seq::new(16, |i: int| rgb_distance(q[i], color_texel(c, true, i)));
    let alpha = Seq::new(16, |i: int| sq(alpha_texel(a, true, i) - s[i]));
    assert forall|i: int| 0 <= i < 16 implies #[trigger] decoded_costs7(px, b)[i] == rgb[i] + alpha[i] by {
        lemma_mode5_distance(px, c, a, rot, i);
    }
    lemma_two_totals(rgb, alpha, decoded_costs7(px, b), 16);
}

/// A block whose error is the one that the decoder leaves.
pub open spec fn honest(px: Seq<Seq<u8>>, st: Scored) -> bool {
    st.1 == decoded_error7(px, st.0)
}

/// A mode 6 fit whose error is the one that the decoder leaves.
pub open spec fn honest6(px: Seq<Seq<u8>>, f: Fit6) -> bool {
    honest(px, (fit6_bytes(f), f.5))
}

proof fn lemma_best_fit6_honest(px: Seq<Seq<u8>>)
    requires
        px.len() == 16,
    ensures
        honest6(px, best_fit6(px)),
{
    let mean = mean_texel(px);
    law_mode6_score_is_decoded_error(px, largest_texel(px), smallest_texel(px));
    law_mode6_score_is_decoded_error(px, channel_highs(px, 4), channel_lows(px, 4));
    law_mode6_score_is_decoded_error(px, largest_texel(px), mean);
    law_mode6_score_is_decoded_error(px, mean, smallest_texel(px));
    law_mode6_score_is_decoded_error(px, px[far_pair(px, 16).1], px[far_pair(px, 16).2]);
    let f = seeded_fit6(px);
    assert(honest6(px, f));
    if let Some((a, b)) = ls_endpoints(px, float_weights4(f.4), 4) {
        law_mode6_score_is_decoded_error(px, a, b);
    }
}

proof fn lemma_all_opaque(px: Seq<Seq<u8>>, n: nat)
    requires
        channel_low(px, 3, n) == 255,
    ensures
        forall|i: int| 0 <= i < n ==> (#[trigger] px[i])[3] == 255,
    decreases n,
{
    if n > 0 {
        lemma_all_opaque(px, (n - 1) as nat);
    }
}

proof fn lemma_mode1_search_honest(px: Seq<Seq<u8>>, st: Scored, k: nat)
    requires
        px.len() == 16,
        k <= 8,
        channel_low(px, 3, 16) == 255,
        honest(px, st),
    ensures
        honest(px, mode1_search(px, st, k)),
    decreases k,
{
    if k > 0 {
        lemma_mode1_search_honest(px, st, (k - 1) as nat);
        lemma_all_opaque(px, 16);
        let before = mode1_search(px, st, (k - 1) as nat);
        let part = shortlist()[k - 1];
        assert(0 <= part < 64);
        law_mode1_score_is_decoded_error(px, part, before.1);
    }
}

proof fn lemma_rotation_honest(px: Seq<Seq<u8>>, st: Scored, c: int)
    requires
        is_block(px),
        0 <= c < 3,
        honest(px, st),
    ensures
        honest(px, rotation_step(px, st, c)),
{
    law_mode5_score_is_decoded_error(px, c + 1);
}

/// The error that the BC7 encoder reports is the squared error of the texels
/// that its block decodes to, whichever mode won.
pub proof fn law_bc7_score_is_decoded_error(px: Seq<Seq<u8>>)
    requires
        is_block(px),
    ensures
        bc7_encoded(px).1 == decoded_error7(px, bc7_encoded(px).0),
{
    let f = best_fit6(px);
    let st0 = (fit6_bytes(f), f.5);
    lemma_best_fit6_honest(px);
    law_mode5_score_is_decoded_error(px, 0);
    law_mode4_score_is_decoded_error(px);
    let st1 = if st0.1 > 0 && channel_span_of(px, 3) > 2 {
        better(better(st0, mode5_block(px, 0)), mode4_block(px))
    } else {
        st0
    };
    assert(honest(px, st1));
    if channel_low(px, 3, 16) == 255 {
        lemma_mode1_search_honest(px, st1, 8);
    }
    let st2 = if 4 < st1.1 <= 1024 && channel_low(px, 3, 16) == 255 {
        mode1_search(px, st1, 8)
    } else {
        st1
    };
    assert(honest(px, st2));
    lemma_rotation_honest(px, st2, 0);
    lemma_rotation_honest(px, rotation_step(px, st2, 0), 1);
    lemma_rotation_honest(px, rotation_step(px, rotation_step(px, st2, 0), 1), 2);
}

/// A block of a mode that the encoder writes.
pub open spec fn written(block: Seq<u8>) -> bool {
    block[0] % 128 == 64 || block[0] % 4 == 2 || block[0] == 0x10 || block[0] % 64 == 32
}

/// The first field of a bit string stands in the low bits of its first byte.
proof fn lemma_first_field(f: Seq<(int, nat)>, val: int, n: nat, m: int)
    requires
        f.len() > 0,
        f[0] == (val, n),
        m == pow2(n),
        m == 4 || m == 64 || m == 128,
        0 <= val < m,
    ensures
        le_bytes(bit_string(f, 0), 16)[0] as int % m == val,
{
    let v = bit_string(f, 0);
    let rest = bit_string(f, 1);
    vstd::arithmetic::div_mod::lemma_small_mod(val as nat, m as nat);
    assert(v == val + m * rest);
    lemma_low_bits(v, val, rest, m);
    assert(le_bytes(v, 16)[0] == v % 256);
}

proof fn lemma_low_bits(v: int, val: int, rest: int, m: int)
    requires
        v == val + m * rest,
        m == 4 || m == 64 || m == 128,
        0 <= val < m,
    ensures
        v % 256 % m == val,
        0 <= v % 256 < 256,
{
    let n: int = if m == 4 {
        64
    } else if m == 64 {
        4
    } else {
        2
    };
    assert(m * n == 256);
    vstd::arithmetic::div_mod::lemma_mod_mod(v, m, n);
    vstd::arithmetic::div_mod::lemma_mod_multiples_vanish(rest, val, m);
    vstd::arithmetic::div_mod::lemma_small_mod(val as nat, m as nat);
}

proof fn lemma_mode5_written(px: Seq<Seq<u8>>, rot: int)
    ensures
        written(mode5_block(px, rot).0),
{
    reveal(mode5_block);
    vstd::arithmetic::power2::lemma2_to64();
    lemma_first_field(mode5_fields(rot, color_search(px, true), mode5_alpha(px)), 32, 6, 64);
}

proof fn lemma_mode1_search_written(px: Seq<Seq<u8>>, st: Scored, k: nat)
    requires
        px.len() == 16,
        k <= 8,
        written(st.0),
    ensures
        written(mode1_search(px, st, k).0),
    decreases k,
{
    if k > 0 {
        lemma_mode1_search_written(px, st, (k - 1) as nat);
        let before = mode1_search(px, st, (k - 1) as nat);
        let part = shortlist()[k - 1];
        assert(0 <= part < 64);
        law_mode1_score(px, part, before.1);
    }
}

/// The encoder writes blocks of modes 1, 4, 5 and 6, which decode to sixteen
/// RGBA texels.
pub proof fn law_bc7_writes_known_modes(px: Seq<Seq<u8>>)
    requires
        px.len() == 16,
    ensures
        written(bc7_encoded(px).0),
        bc7_rgba(bc7_encoded(px).0).len() == 64,
{
    let f = best_fit6(px);
    let st0 = (fit6_bytes(f), f.5);
    vstd::arithmetic::power2::lemma2_to64();
    assert(written(st0.0)) by {
        reveal(mode6_bytes);
        lemma_first_field(mode6_fields(f.0, f.1, f.2, f.3, f.4), 64, 7, 128);
    }
    lemma_mode5_written(px, 0);
    lemma_mode5_written(rotated(px, 0), 1);
    lemma_mode5_written(rotated(px, 1), 2);
    lemma_mode5_written(rotated(px, 2), 3);
    assert(written(mode4_block(px).0)) by {
        reveal(mode4_block);
        reveal(mode4_alpha);
        lemma_alpha_search_sound(column(px, 3), channel_high(px, 3, 16) as u8, channel_low(px, 3, 16) as u8, false);
        lemma_mode4_reads_rest(color_search(px, false), mode4_alpha(px));
    }
    let st1 = if st0.1 > 0 && channel_span_of(px, 3) > 2 {
        better(better(st0, mode5_block(px, 0)), mode4_block(px))
    } else {
        st0
    };
    lemma_mode1_search_written(px, st1, 8);
}

} // verus!
