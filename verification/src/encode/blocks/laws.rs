//! What encoded blocks decode to.

use vstd::arithmetic::power2::{lemma_pow2_adds, lemma_pow2_pos, pow2};
use vstd::prelude::*;

use crate::decode::bcn::{bc5_of, bc7_rgba, block_number, block_rgba, mode6_endpoint, mode6_index, mode6_texels};
use crate::decode::bcdec::{bc1_texels, bc2_texels, bc3_texels, bc4_bytes, decoded_colour, end_colour, endpoint_level, fields565, half_colour, smooth_levels, third_colour};
use crate::encode::blocks::alpha::{alpha_block, alpha_decoded_costs, alpha_decoded_error, alpha_encoded, alpha_flat, alpha_index_word, alpha_indices, alpha_levels, alpha_palette, high_level, is_level, law_alpha_score, lemma_alpha_encoded, lemma_consider_sound, lemma_levels_in_range, level_stored, low_level, sample_costs, sample_levels, seq_high, seq_low, sound_alpha, stored, unorm_of};
use crate::encode::blocks::bc1::{bc2_alpha, better, block_bytes, block_palette, block_costs, block_error, lemma_block_fields, palette_four, palette_three, Scored};
use crate::encode::blocks::bc7::{bc7_encoded, best_fit6, best_low_bit, channel_span_of, level7, level_costs, levels7, lemma_rgba_fit, mode4_block, mode5_block, bytes7, fit6, fit6_bytes, index_fields, interp64, interp_rows, mode6_bytes, mode6_fields, rgba_costs, rgba_distance, weights4};
use crate::encode::blocks::m1::mode1_search;
use crate::encode::blocks::rdo::{channel_column, channel_costs, channel_error, polish_move, polish_moves, polished, polished_block, rdo_block};
use crate::encode::blocks::rdo7::{decoded_costs7, decoded_error7, parts6, rdo_block7};
use crate::encode::blocks::{color565, is_block, mix, mix_rgb, stretch5, stretch6, EncodeQuality};
use crate::model::{best_of, bit_field, bit_string, bit_width, digit, digits_of, fit_costs, fit_indices, le16, le32, le_bytes, lemma_bit_field_of_string, lemma_bit_string_bound, lemma_first_min, lemma_first_min_in, lemma_le16, lemma_le32, lemma_sq, lemma_total_bound, lemma_total_eq, sq, total};

verus! {

proof fn lemma_digit_is_shift(v: int, i: nat)
    requires
        v >= 0,
    ensures
        digit(v, 256, i) == v / (pow2(8 * i) as int) % 256,
    decreases i,
{
    vstd::arithmetic::power2::lemma2_to64();
    if i > 0 {
        let k = (i - 1) as nat;
        lemma_digit_is_shift(v / 256, k);
        lemma_pow2_adds(8, 8 * k);
        lemma_pow2_pos(8 * k);
        vstd::arithmetic::div_mod::lemma_div_denominator(v, 256, pow2(8 * k) as int);
        assert(8 * i == 8 + 8 * k);
        assert(pow2(8) == 256);
        assert(pow2(8 * i) == 256 * pow2(8 * k));
        assert(v / 256 / (pow2(8 * k) as int) == v / (pow2(8 * i) as int));
    } else {
        assert(8 * i == 0);
        assert(v / 1 == v);
    }
}

proof fn lemma_block_number_from(v: int, i: nat)
    requires
        0 <= v < pow2(128),
        i <= 16,
    ensures
        block_number(le_bytes(v, 16), i) == v / (pow2(8 * i) as int),
    decreases 16 - i,
{
    if i == 16 {
        assert(v / (pow2(128) as int) == 0) by {
            vstd::arithmetic::div_mod::lemma_basic_div(v, pow2(128) as int);
        }
    } else {
        lemma_block_number_from(v, i + 1);
        lemma_digit_is_shift(v, i);
        let x = v / (pow2(8 * i) as int);
        vstd::arithmetic::power2::lemma2_to64();
        lemma_pow2_adds(8 * i, 8);
        lemma_pow2_pos(8 * i);
        vstd::arithmetic::div_mod::lemma_div_denominator(v, pow2(8 * i) as int, 256);
        assert(pow2(8 * (i + 1)) == pow2(8 * i) * 256);
        assert(x == 256 * (x / 256) + x % 256);
        assert(x >= 0) by {
            vstd::arithmetic::div_mod::lemma_div_pos_is_pos(v, pow2(8 * i) as int);
        }
    }
}

/// Sixteen bytes give back the number they were made of.
pub proof fn lemma_block_number(v: int)
    requires
        0 <= v < pow2(128),
    ensures
        block_number(le_bytes(v, 16), 0) == v,
{
    lemma_block_number_from(v, 0);
    assert(8 * 0nat == 0);
    assert(v / 1 == v);
    assert(pow2(0) == 1) by {
        vstd::arithmetic::power2::lemma2_to64();
    }
}

proof fn lemma_mode6_widths(q0: Seq<u8>, p0: int, q1: Seq<u8>, p1: int, idx: Seq<u8>, j: nat)
    requires
        j <= 27,
    ensures
        bit_width(mode6_fields(q0, p0, q1, p1, idx), j) as int == (if j <= 9 {
            7 * j as int
        } else if j <= 11 {
            j as int + 54
        } else {
            64 + 4 * (j - 11)
        }),
        mode6_fields(q0, p0, q1, p1, idx).len() == 27,
    decreases j,
{
    if j > 0 {
        lemma_mode6_widths(q0, p0, q1, p1, idx, (j - 1) as nat);
        let f = mode6_fields(q0, p0, q1, p1, idx);
        if j - 1 >= 11 {
            assert(f[j - 1] == index_fields(idx, 4)[j - 12]);
        }
    }
}

/// A field of a mode 6 block reads back from its bytes.
proof fn lemma_mode6_field(q0: Seq<u8>, p0: int, q1: Seq<u8>, p1: int, idx: Seq<u8>, j: nat, off: nat, val: int, n: nat)
    requires
        j < 27,
        mode6_fields(q0, p0, q1, p1, idx)[j as int] == (val, n),
        0 <= val < pow2(n),
        off == bit_width(mode6_fields(q0, p0, q1, p1, idx), j),
    ensures
        bit_field(block_number(mode6_bytes(q0, p0, q1, p1, idx), 0), off, n) == val,
{
    reveal(mode6_bytes);
    let f = mode6_fields(q0, p0, q1, p1, idx);
    lemma_mode6_widths(q0, p0, q1, p1, idx, 27);
    lemma_mode6_widths(q0, p0, q1, p1, idx, 0);
    lemma_bit_string_bound(f, 0);
    lemma_block_number(bit_string(f, 0));
    lemma_bit_field_of_string(f, j);
    vstd::arithmetic::div_mod::lemma_small_mod(val as nat, pow2(n));
}

/// Parts that a mode 6 block can hold.
pub open spec fn parts_fit(q0: Seq<u8>, p0: int, q1: Seq<u8>, p1: int, idx: Seq<u8>) -> bool {
    &&& q0.len() == 4
    &&& q1.len() == 4
    &&& idx.len() == 16
    &&& forall|i: int| 0 <= i < 4 ==> #[trigger] q0[i] < 128
    &&& forall|i: int| 0 <= i < 4 ==> #[trigger] q1[i] < 128
    &&& 0 <= p0 < 2
    &&& 0 <= p1 < 2
    &&& forall|i: int| 0 <= i < 16 ==> #[trigger] idx[i] < 16
    &&& idx[0] < 8
}

/// What a mode 6 block is packed from is what it is read as.
pub proof fn law_mode6_parts_round_trip(q0: Seq<u8>, p0: int, q1: Seq<u8>, p1: int, idx: Seq<u8>)
    requires
        parts_fit(q0, p0, q1, p1, idx),
    ensures
        parts6(mode6_bytes(q0, p0, q1, p1, idx)) == Some((q0, p0, q1, p1, idx)),
{
    let f = mode6_fields(q0, p0, q1, p1, idx);
    let b = mode6_bytes(q0, p0, q1, p1, idx);
    let v = block_number(b, 0);
    vstd::arithmetic::power2::lemma2_to64();
    assert(b.len() == 16) by {
        reveal(mode6_bytes);
    }
    assert(pow2(0) == 1 && pow2(1) == 2 && pow2(3) == 8 && pow2(4) == 16 && pow2(7) == 128);
    lemma_mode6_widths(q0, p0, q1, p1, idx, 0);
    lemma_mode6_field(q0, p0, q1, p1, idx, 0, 0, 64, 7);
    assert(v / 1 == v);
    assert(v == b[0] + 256 * block_number(b, 1));
    assert(v % 128 == b[0] as int % 128) by (nonlinear_arith)
        requires
            v == b[0] + 256 * block_number(b, 1),
    ;
    assert(b[0] % 128 == 64);
    assert forall|c: int| 0 <= c < 4 implies bit_field(v, (7 + 14 * c) as nat, 7) == #[trigger] q0[c] by {
        let j = (1 + 2 * c) as nat;
        lemma_mode6_widths(q0, p0, q1, p1, idx, j);
        lemma_mode6_field(q0, p0, q1, p1, idx, j, (7 + 14 * c) as nat, q0[c] as int, 7);
    }
    assert forall|c: int| 0 <= c < 4 implies bit_field(v, (14 + 14 * c) as nat, 7) == #[trigger] q1[c] by {
        let j = (2 + 2 * c) as nat;
        lemma_mode6_widths(q0, p0, q1, p1, idx, j);
        lemma_mode6_field(q0, p0, q1, p1, idx, j, (14 + 14 * c) as nat, q1[c] as int, 7);
    }
    lemma_mode6_widths(q0, p0, q1, p1, idx, 9);
    lemma_mode6_field(q0, p0, q1, p1, idx, 9, 63, p0, 1);
    lemma_mode6_widths(q0, p0, q1, p1, idx, 10);
    lemma_mode6_field(q0, p0, q1, p1, idx, 10, 64, p1, 1);
    assert forall|p: int| 0 <= p < 16 implies mode6_index(v, p) == #[trigger] idx[p] by {
        let j = (11 + p) as nat;
        lemma_mode6_widths(q0, p0, q1, p1, idx, j);
        assert(f[j as int] == index_fields(idx, 4)[p]);
        if p == 0 {
            lemma_mode6_field(q0, p0, q1, p1, idx, j, 65, idx[0] as int, 3);
        } else {
            lemma_mode6_field(q0, p0, q1, p1, idx, j, (64 + 4 * p) as nat, idx[p] as int, 4);
        }
    }
    let got = parts6(b).unwrap();
    assert(got.0 =~= q0);
    assert(got.2 =~= q1);
    assert(got.4 =~= idx);
}

/// A packed mode 6 block decodes, by the format's own rule, to the
/// interpolation of its endpoints by the weights of its indices.
pub proof fn law_mode6_block_decodes(q0: Seq<u8>, p0: int, q1: Seq<u8>, p1: int, idx: Seq<u8>, p: int, c: int)
    requires
        parts_fit(q0, p0, q1, p1, idx),
        0 <= p < 16,
        0 <= c < 4,
    ensures
        mode6_texels(mode6_bytes(q0, p0, q1, p1, idx))[4 * p + c] == interp64(
            weights4()[idx[p] as int],
            bytes7(q0, p0)[c] as int,
            bytes7(q1, p1)[c] as int,
        ) as u8,
{
    law_mode6_parts_round_trip(q0, p0, q1, p1, idx);
    let b = mode6_bytes(q0, p0, q1, p1, idx);
    let v = block_number(b, 0);
    let got = parts6(b).unwrap();
    assert(got.0[c] == q0[c] && got.2[c] == q1[c] && got.4[p] == idx[p]);
    vstd::arithmetic::power2::lemma2_to64();
    assert(bit_field(v, (7 + 14 * c) as nat, 7) < 128 && bit_field(v, (14 + 14 * c) as nat, 7) < 128);
    assert(mode6_index(v, p) < 16);
    assert(mode6_index(v, p) == idx[p]);
    assert(7 + 14 * c + 7 * 0 == 7 + 14 * c && 7 + 14 * c + 7 * 1 == 14 + 14 * c);
    assert(mode6_endpoint(v, 0, c) == 2 * q0[c] + p0);
    assert(mode6_endpoint(v, 1, c) == 2 * q1[c] + p1);
    assert((4 * p + c) / 4 == p && (4 * p + c) % 4 == c);
}

/// The four bytes of texel `i` of sixteen.
pub open spec fn texel_of(texels: Seq<u8>, i: int) -> Seq<u8> {
    texels.subrange(4 * i, 4 * i + 4)
}

/// The squared RGBA distance of a block's texels from sixteen decoded ones.
pub open spec fn texels_error(px: Seq<Seq<u8>>, texels: Seq<u8>) -> int {
    total(Seq::new(16, |i: int| rgba_distance(px[i], texel_of(texels, i))), 16)
}

pub proof fn lemma_level7(c: u8, p: int)
    ensures
        level7(c, p) < 128,
{
    lemma_first_min_in(level_costs(c as int, p), 128);
}

/// The fit of an endpoint pair can be packed.
pub proof fn lemma_fit6_parts(px: Seq<Seq<u8>>, e0: Seq<u8>, e1: Seq<u8>)
    requires
        px.len() == 16,
    ensures
        ({
            let f = fit6(px, e0, e1);
            parts_fit(f.0, f.1, f.2, f.3, f.4)
        }),
{
    reveal(fit6);
    let p0 = best_low_bit(e0);
    let p1 = best_low_bit(e1);
    let q0 = levels7(e0, p0);
    let q1 = levels7(e1, p1);
    assert forall|i: int| 0 <= i < 4 implies #[trigger] q0[i] < 128 by {
        lemma_level7(e0[i], p0);
    }
    assert forall|i: int| 0 <= i < 4 implies #[trigger] q1[i] < 128 by {
        lemma_level7(e1[i], p1);
    }
    lemma_rgba_fit(px, interp_rows(bytes7(q0, p0), bytes7(q1, p1), weights4()));
}

/// The error that a mode 6 fit reports is the squared distance of the texels
/// from those that its packed block decodes to.
pub proof fn law_mode6_score(px: Seq<Seq<u8>>, e0: Seq<u8>, e1: Seq<u8>)
    requires
        px.len() == 16,
    ensures
        fit6(px, e0, e1).5 == texels_error(px, mode6_texels(fit6_bytes(fit6(px, e0, e1)))),
{
    lemma_fit6_parts(px, e0, e1);
    let f = fit6(px, e0, e1);
    let texels = mode6_texels(fit6_bytes(f));
    let p0 = best_low_bit(e0);
    let p1 = best_low_bit(e1);
    let a = bytes7(levels7(e0, p0), p0);
    let b = bytes7(levels7(e1, p1), p1);
    let pal = interp_rows(a, b, weights4());
    let costs = rgba_costs(px, pal);
    let idx = fit_indices(costs);
    let want = Seq::new(16, |i: int| rgba_distance(px[i], texel_of(texels, i)));
    lemma_rgba_fit(px, pal);
    reveal(fit6);
    assert forall|i: int| 0 <= i < 16 implies #[trigger] fit_costs(costs)[i] == want[i] by {
        lemma_first_min_in(costs[i], 16);
        let k = best_of(costs[i]);
        assert(idx[i] == k);
        assert(fit_costs(costs)[i] == rgba_distance(px[i], pal[k]));
        assert(weights4()[15 - k] == 64 - weights4()[k]);
        assert forall|c: int| 0 <= c < 4 implies #[trigger] texel_of(texels, i)[c] == pal[k][c] by {
            law_mode6_block_decodes(f.0, f.1, f.2, f.3, f.4, i, c);
            assert(texel_of(texels, i)[c] == texels[4 * i + c]);
            let w = weights4()[k];
            let (x, y) = (a[c] as int, b[c] as int);
            assert((64 - (64 - w)) * y + (64 - w) * x == (64 - w) * x + w * y);
        }
    }
    lemma_total_eq(fit_costs(costs), want, 16);
}

/// That is the error that the decoder leaves.
pub proof fn law_mode6_score_is_decoded_error(px: Seq<Seq<u8>>, e0: Seq<u8>, e1: Seq<u8>)
    requires
        px.len() == 16,
    ensures
        fit6(px, e0, e1).5 == decoded_error7(px, fit6_bytes(fit6(px, e0, e1))),
{
    law_mode6_score(px, e0, e1);
    lemma_fit6_parts(px, e0, e1);
    let f = fit6(px, e0, e1);
    let b = fit6_bytes(f);
    law_mode6_parts_round_trip(f.0, f.1, f.2, f.3, f.4);
    assert(b[0] % 128 == 64);
    assert(bc7_rgba(b) == mode6_texels(b));
    reveal(decoded_error7);
    let want = Seq::new(16, |i: int| rgba_distance(px[i], texel_of(mode6_texels(b), i)));
    assert(want =~= decoded_costs7(px, b));
}

pub proof fn lemma_mode1_search_improves(px: Seq<Seq<u8>>, st: Scored, k: nat)
    ensures
        mode1_search(px, st, k).1 <= st.1,
    decreases k,
{
    if k > 0 {
        lemma_mode1_search_improves(px, st, (k - 1) as nat);
    }
}

/// The other modes are taken only where they err less: BC7 encoding is never
/// worse than the best mode 6 fit.
pub proof fn law_bc7_never_worse_than_mode6(px: Seq<Seq<u8>>)
    ensures
        bc7_encoded(px).1 <= best_fit6(px).5,
{
    let f = best_fit6(px);
    let st0 = (fit6_bytes(f), f.5);
    let st1 = if st0.1 > 0 && channel_span_of(px, 3) > 2 {
        better(better(st0, mode5_block(px, 0)), mode4_block(px))
    } else {
        st0
    };
    lemma_mode1_search_improves(px, st1, 8);
}

/// The level of every index of an endpoint pair is a level.
pub proof fn lemma_alpha_levels(a0: int, a1: int, signed: bool, j: int)
    requires
        is_level(a0, signed),
        is_level(a1, signed),
        0 <= j < 8,
    ensures
        is_level(alpha_levels(a0, a1, signed)[j], signed),
{
}

/// The unsigned byte that a decoded BC4 byte stands for.
pub open spec fn shown(b: u8, signed: bool) -> u8 {
    unorm_of(level_stored(b, signed), signed)
}

/// The squared distance of sixteen samples from sixteen decoded BC4 bytes.
pub open spec fn samples_error(s: Seq<u8>, bytes: Seq<u8>, signed: bool) -> int {
    total(Seq::new(16, |i: int| sq(shown(bytes[i], signed) - s[i])), 16)
}

proof fn lemma_sound_alpha_decodes(s: Seq<u8>, st: Scored, signed: bool)
    requires
        sound_alpha(s, st, signed),
    ensures
        st.1 == samples_error(s, bc4_bytes(st.0, signed), signed),
{
    reveal(alpha_decoded_error);
    let b = st.0;
    let (a0, a1) = (level_stored(b[0], signed), level_stored(b[1], signed));
    let bytes = bc4_bytes(b, signed);
    let want = Seq::new(16, |i: int| sq(shown(bytes[i], signed) - s[i]));
    assert(endpoint_level(b[0], signed) == a0 && endpoint_level(b[1], signed) == a1);
    assert forall|i: int| 0 <= i < 16 implies #[trigger] alpha_decoded_costs(s, b, signed)[i] == want[i] by {
        lemma_digit_below(alpha_index_word(b), 8, i as nat);
        let k = alpha_indices(b)[i] as int;
        lemma_alpha_levels(a0, a1, signed, k);
        assert(bytes[i] == stored(alpha_levels(a0, a1, signed)[k]));
    }
    lemma_total_eq(alpha_decoded_costs(s, b, signed), want, 16);
}

pub proof fn lemma_digit_below(v: int, b: int, i: nat)
    requires
        2 <= b <= 256,
        v >= 0,
    ensures
        0 <= digit(v, b, i) < b,
    decreases i,
{
    if i > 0 {
        assert(v / b >= 0) by {
            vstd::arithmetic::div_mod::lemma_div_pos_is_pos(v, b);
        }
        lemma_digit_below(v / b, b, (i - 1) as nat);
    } else {
        vstd::arithmetic::div_mod::lemma_mod_bound(v, b);
    }
}

/// The error that a BC4 encode reports is the squared distance of the samples
/// from the bytes that its block decodes to.
pub proof fn law_bc4_score(s: Seq<u8>, q: EncodeQuality, signed: bool)
    requires
        s.len() == 16,
    ensures
        alpha_encoded(s, q, signed).1 == samples_error(s, bc4_bytes(alpha_encoded(s, q, signed).0, signed), signed),
{
    lemma_alpha_encoded(s, q, signed);
    lemma_sound_alpha_decodes(s, alpha_encoded(s, q, signed), signed);
}

/// The same of the short way that flat images take.
pub proof fn law_bc4_flat_score(s: Seq<u8>, signed: bool)
    requires
        s.len() == 16,
    ensures
        alpha_flat(s, signed).1 == samples_error(s, bc4_bytes(alpha_flat(s, signed).0, signed), signed),
{
    lemma_levels_in_range(s, signed, 16);
    let (lo, hi) = (low_level(s, signed), high_level(s, signed));
    law_alpha_score(s, hi, lo, signed);
    let first = alpha_block(s, hi, lo, signed);
    lemma_consider_sound(s, first, lo, hi, signed);
    lemma_sound_alpha_decodes(s, alpha_flat(s, signed), signed);
}

/// The full search never errs more than the short way does.
pub proof fn law_bc4_search_beats_flat_unsigned(s: Seq<u8>, q: EncodeQuality)
    requires
        s.len() == 16,
    ensures
        alpha_encoded(s, q, false).1 <= alpha_flat(s, false).1,
{
    lemma_alpha_encoded(s, q, false);
}

proof fn lemma_constant_levels(s: Seq<u8>, v: int, n: nat)
    requires
        s.len() == 16,
        n <= 16,
        forall|i: int| 0 <= i < 16 ==> #[trigger] s[i] == v,
    ensures
        seq_low(sample_levels(s, false), 255, n) == (if n == 0 {
            255
        } else {
            v
        }),
        seq_high(sample_levels(s, false), 0, n) == (if n == 0 {
            0
        } else {
            v
        }),
    decreases n,
{
    if n > 0 {
        lemma_constant_levels(s, v, (n - 1) as nat);
        assert(s[n - 1] == v);
    }
}

/// Samples that are all the same are stored without error, either way.
pub proof fn law_constant_samples_are_exact(s: Seq<u8>, v: u8, q: EncodeQuality)
    requires
        s.len() == 16,
        forall|i: int| 0 <= i < 16 ==> #[trigger] s[i] == v,
    ensures
        alpha_encoded(s, q, false).1 == 0,
        alpha_flat(s, false).1 == 0,
{
    lemma_constant_levels(s, v as int, 16);
    reveal(alpha_block);
    let pal = alpha_palette(v as int, v as int, false);
    let costs = sample_costs(s, pal);
    assert(pal[0] == v);
    assert forall|i: int| 0 <= i < 16 implies 0 <= #[trigger] fit_costs(costs)[i] <= 0 by {
        lemma_first_min(costs[i], 8);
        assert(costs[i].len() == 8);
        lemma_sq(0);
        assert(s[i] == v);
        assert(costs[i][0] == 0);
        lemma_sq(pal[best_of(costs[i])] - s[i]);
    }
    lemma_total_bound(fit_costs(costs), 16, 0);
}

/// A block that its plain encoding represents without error keeps that
/// encoding under any strength.
pub proof fn law_rdo_keeps_exact_blocks(
    px: Seq<Seq<u8>>,
    base: Seq<u8>,
    emitted: Seq<Seq<u8>>,
    row: int,
    dict: Seq<u32>,
    lambda: u32,
)
    ensures
        block_error(px, base) == 0 ==> rdo_block(px, base, emitted, row, dict, lambda) == base,
        decoded_error7(px, base) == 0 ==> rdo_block7(px, base, emitted, row, lambda) == base,
{
    reveal(rdo_block);
    reveal(rdo_block7);
}

/// Field `k` of a 5:6:5 word.
#[verifier::opaque]
spec fn field(w: int, k: int) -> int {
    if k == 0 {
        w / 2048 % 32
    } else if k == 1 {
        w / 32 % 64
    } else {
        w % 32
    }
}

/// The place value of field `k`.
spec fn field_unit(k: int) -> int {
    if k == 0 {
        2048
    } else if k == 1 {
        32
    } else {
        1
    }
}

/// The greatest value of field `k`.
spec fn field_top(k: int) -> int {
    if k == 1 {
        63
    } else {
        31
    }
}

proof fn lemma_fields(r: int, g: int, b: int)
    requires
        0 <= r < 32,
        0 <= g < 64,
        0 <= b < 32,
    ensures
        field(2048 * r + 32 * g + b, 0) == r,
        field(2048 * r + 32 * g + b, 1) == g,
        field(2048 * r + 32 * g + b, 2) == b,
{
    reveal(field);
    let w = 2048 * r + 32 * g + b;
    vstd::arithmetic::div_mod::lemma_fundamental_div_mod_converse(w, 2048, r, 32 * g + b);
    vstd::arithmetic::div_mod::lemma_fundamental_div_mod_converse(w, 32, 64 * r + g, b);
    vstd::arithmetic::div_mod::lemma_fundamental_div_mod_converse(64 * r + g, 64, r, g);
    vstd::arithmetic::div_mod::lemma_small_mod(r as nat, 32);
}

proof fn lemma_word_of_fields(w: int)
    requires
        0 <= w < 65536,
    ensures
        w == 2048 * field(w, 0) + 32 * field(w, 1) + field(w, 2),
        0 <= field(w, 0) < 32,
        0 <= field(w, 1) < 64,
        0 <= field(w, 2) < 32,
{
    reveal(field);
    assert(w == 32 * (w / 32) + w % 32);
    assert(w / 32 == 64 * (w / 32 / 64) + w / 32 % 64);
    vstd::arithmetic::div_mod::lemma_div_denominator(w, 32, 64);
    assert(0 <= w / 2048 < 32);
    vstd::arithmetic::div_mod::lemma_small_mod((w / 2048) as nat, 32);
}

/// A word with one field moved by one keeps its other two fields.
proof fn lemma_field_moves(w: int, d: int, ch: int)
    requires
        0 <= w < 65536,
        d == 1 || d == -1,
        0 <= ch < 3,
        0 <= field(w, ch) + d <= field_top(ch),
    ensures
        0 <= w + d * field_unit(ch) < 65536,
        forall|k: int| 0 <= k < 3 && k != ch ==> #[trigger] field(w + d * field_unit(ch), k) == field(w, k),
{
    lemma_word_of_fields(w);
    let (r, g, b) = (field(w, 0), field(w, 1), field(w, 2));
    if ch == 0 {
        lemma_fields(r + d, g, b);
        assert(w + d * 2048 == 2048 * (r + d) + 32 * g + b);
    } else if ch == 1 {
        lemma_fields(r, g + d, b);
        assert(w + d * 32 == 2048 * r + 32 * (g + d) + b);
    } else {
        lemma_fields(r, g, b + d);
        assert(w + d * 1 == 2048 * r + 32 * g + (b + d));
    }
}

proof fn lemma_color_by_field(v: int, w: int, k: int)
    requires
        0 <= k < 3,
        field(v, k) == field(w, k),
    ensures
        color565(v)[k] == color565(w)[k],
{
    reveal(field);
}

proof fn lemma_entry_by_channel(c0: int, c1: int, d0: int, d1: int, k: int, j: int)
    requires
        0 <= k < 3,
        0 <= j < 4,
        color565(c0)[k] == color565(d0)[k],
        color565(c1)[k] == color565(d1)[k],
    ensures
        palette_four(c0, c1)[j][k] == palette_four(d0, d1)[j][k],
{
    let (a, b) = (color565(c0), color565(c1));
    let (x, y) = (color565(d0), color565(d1));
    assert(palette_four(c0, c1)[0] == a && palette_four(d0, d1)[0] == x);
    assert(palette_four(c0, c1)[1] == b && palette_four(d0, d1)[1] == y);
    assert(palette_four(c0, c1)[2] == mix_rgb(2, 1, a, b) && palette_four(d0, d1)[2] == mix_rgb(2, 1, x, y));
    assert(palette_four(c0, c1)[3] == mix_rgb(1, 2, a, b) && palette_four(d0, d1)[3] == mix_rgb(1, 2, x, y));
    lemma_mix_channel(2, 1, a, b, x, y, k);
    lemma_mix_channel(1, 2, a, b, x, y, k);
}

proof fn lemma_mix_channel(aw: int, bw: int, a: Seq<u8>, b: Seq<u8>, x: Seq<u8>, y: Seq<u8>, k: int)
    requires
        0 <= k < 3,
        a[k] == x[k],
        b[k] == y[k],
    ensures
        mix_rgb(aw, bw, a, b)[k] == mix_rgb(aw, bw, x, y)[k],
{
    assert(mix_rgb(aw, bw, a, b)[k] == mix(aw, bw, a[k] as int, b[k] as int) as u8);
    assert(mix_rgb(aw, bw, x, y)[k] == mix(aw, bw, x[k] as int, y[k] as int) as u8);
}

proof fn lemma_column_by_fields(c0: int, c1: int, d0: int, d1: int, k: int)
    requires
        0 <= k < 3,
        field(c0, k) == field(d0, k),
        field(c1, k) == field(d1, k),
    ensures
        channel_column(c0, c1, k) == channel_column(d0, d1, k),
{
    lemma_color_by_field(c0, d0, k);
    lemma_color_by_field(c1, d1, k);
    assert forall|j: int| 0 <= j < 4 implies channel_column(c0, c1, k)[j] == channel_column(d0, d1, k)[j] by {
        lemma_entry_by_channel(c0, c1, d0, d1, k, j);
    }
    assert(channel_column(c0, c1, k) =~= channel_column(d0, d1, k));
}

/// The squared error of all three channels of a four-colour block.
spec fn three_errors(px: Seq<Seq<u8>>, w: (int, int), table: int) -> int {
    channel_error(px, 0, w.0, w.1, table) + channel_error(px, 1, w.0, w.1, table) + channel_error(px, 2, w.0, w.1, table)
}

proof fn lemma_three_totals(a: Seq<int>, b: Seq<int>, c: Seq<int>, d: Seq<int>, n: nat)
    requires
        forall|i: int| 0 <= i < n ==> #[trigger] d[i] == a[i] + b[i] + c[i],
    ensures
        total(d, n) == total(a, n) + total(b, n) + total(c, n),
    decreases n,
{
    if n > 0 {
        lemma_three_totals(a, b, c, d, (n - 1) as nat);
    }
}

proof fn lemma_error_by_channels(px: Seq<Seq<u8>>, w: (int, int), table: int)
    requires
        0 <= w.1 < w.0 < 65536,
        0 <= table < 0x1_0000_0000,
    ensures
        block_error(px, block_bytes(w.0, w.1, table)) == three_errors(px, w, table),
{
    reveal(block_error);
    lemma_block_fields(w.0, w.1, table);
    let b = block_bytes(w.0, w.1, table);
    let costs = block_costs(px, b);
    let (x, y, z) = (
        channel_costs(px, 0, w.0, w.1, table),
        channel_costs(px, 1, w.0, w.1, table),
        channel_costs(px, 2, w.0, w.1, table),
    );
    assert forall|i: int| 0 <= i < 16 implies #[trigger] costs[i] == x[i] + y[i] + z[i] by {
        lemma_digit_below(table, 4, i as nat);
        let k = digits_of(table, 4, 16)[i] as int;
        let c = palette_four(w.0, w.1)[k];
        lemma_sq(px[i][0] - c[0]);
        lemma_sq(px[i][1] - c[1]);
        lemma_sq(px[i][2] - c[2]);
        assert(channel_column(w.0, w.1, 0)[k] == c[0]);
        assert(channel_column(w.0, w.1, 1)[k] == c[1]);
        assert(channel_column(w.0, w.1, 2)[k] == c[2]);
        assert(c[0] - px[i][0] == -(px[i][0] - c[0]));
        assert(c[1] - px[i][1] == -(px[i][1] - c[1]));
        assert(c[2] - px[i][2] == -(px[i][2] - c[2]));
    }
    lemma_three_totals(x, y, z, costs, 16);
}

proof fn lemma_channel_unmoved(px: Seq<Seq<u8>>, n: (int, int), w: (int, int), table: int, k: int)
    requires
        0 <= k < 3,
        field(n.0, k) == field(w.0, k),
        field(n.1, k) == field(w.1, k),
    ensures
        channel_error(px, k, n.0, n.1, table) == channel_error(px, k, w.0, w.1, table),
{
    lemma_column_by_fields(n.0, n.1, w.0, w.1, k);
    assert(channel_costs(px, k, n.0, n.1, table) =~= channel_costs(px, k, w.0, w.1, table));
}

proof fn lemma_move_never_worse(px: Seq<Seq<u8>>, w: (int, int), table: int, first: bool, ch: int)
    requires
        0 <= w.1 < w.0 < 65536,
        0 <= ch < 3,
    ensures
        ({
            let n = polish_move(px, w, table, first, field_unit(ch), field_top(ch), ch);
            &&& 0 <= n.1 < n.0 < 65536
            &&& three_errors(px, n, table) <= three_errors(px, w, table)
        }),
{
    let s = field_unit(ch);
    let n = polish_move(px, w, table, first, s, field_top(ch), ch);
    if n != w {
        let d = if first {
            -1int
        } else {
            1int
        };
        let base = if first {
            w.0
        } else {
            w.1
        };
        assert(field(base, ch) == base / s % (field_top(ch) + 1)) by {
            reveal(field);
        }
        lemma_field_moves(base, d, ch);
        assert(n == if first {
            (base + d * s, w.1)
        } else {
            (w.0, base + d * s)
        });
        let (a, b) = ((ch + 1) % 3, (ch + 2) % 3);
        lemma_channel_unmoved(px, n, w, table, a);
        lemma_channel_unmoved(px, n, w, table, b);
        assert(channel_error(px, ch, n.0, n.1, table) < channel_error(px, ch, w.0, w.1, table));
        lemma_three_of(px, n, w, table, ch);
    }
}

proof fn lemma_three_of(px: Seq<Seq<u8>>, n: (int, int), w: (int, int), table: int, ch: int)
    requires
        0 <= ch < 3,
        channel_error(px, ch, n.0, n.1, table) < channel_error(px, ch, w.0, w.1, table),
        channel_error(px, (ch + 1) % 3, n.0, n.1, table) == channel_error(px, (ch + 1) % 3, w.0, w.1, table),
        channel_error(px, (ch + 2) % 3, n.0, n.1, table) == channel_error(px, (ch + 2) % 3, w.0, w.1, table),
    ensures
        three_errors(px, n, table) <= three_errors(px, w, table),
{
    if ch == 0 {
    } else if ch == 1 {
    } else {
    }
}

proof fn lemma_moves_never_worse(px: Seq<Seq<u8>>, w: (int, int), table: int, first: bool)
    requires
        0 <= w.1 < w.0 < 65536,
    ensures
        ({
            let n = polish_moves(px, w, table, first);
            &&& 0 <= n.1 < n.0 < 65536
            &&& three_errors(px, n, table) <= three_errors(px, w, table)
        }),
{
    let a = polish_move(px, w, table, first, 2048, 31, 0);
    let b = polish_move(px, a, table, first, 32, 63, 1);
    lemma_move_never_worse(px, w, table, first, 0);
    lemma_move_never_worse(px, a, table, first, 1);
    lemma_move_never_worse(px, b, table, first, 2);
}

proof fn lemma_polished_never_worse(px: Seq<Seq<u8>>, w: (int, int), table: int, n: nat)
    requires
        0 <= w.1 < w.0 < 65536,
    ensures
        ({
            let p = polished(px, w, table, n);
            &&& 0 <= p.1 < p.0 < 65536
            &&& three_errors(px, p, table) <= three_errors(px, w, table)
        }),
    decreases n,
{
    if n > 0 {
        let a = polish_moves(px, w, table, true);
        let next = polish_moves(px, a, table, false);
        lemma_moves_never_worse(px, w, table, true);
        lemma_moves_never_worse(px, a, table, false);
        if next != w {
            lemma_polished_never_worse(px, next, table, (n - 1) as nat);
        }
    }
}

proof fn lemma_bytes_are(block: Seq<u8>, c0: int, c1: int, table: int)
    requires
        block.len() == 8,
        c0 % 256 == block[0],
        c0 / 256 == block[1],
        c1 % 256 == block[2],
        c1 / 256 == block[3],
        table % 256 == block[4],
        table / 256 % 256 == block[5],
        table / 65536 % 256 == block[6],
        table / 16777216 == block[7],
    ensures
        block_bytes(c0, c1, table) == block,
{
    assert(block_bytes(c0, c1, table) =~= block);
}

/// A block is made of its fields.
proof fn lemma_bytes_of_fields(block: Seq<u8>)
    requires
        block.len() == 8,
    ensures
        block_bytes(le16(block, 0), le16(block, 2), le32(block, 4)) == block,
        0 <= le16(block, 0) < 65536,
        0 <= le16(block, 2) < 65536,
        0 <= le32(block, 4) < 0x1_0000_0000,
{
    lemma_le16(block, 0);
    lemma_le16(block, 2);
    lemma_le32(block, 4);
    lemma_bytes_are(block, le16(block, 0), le16(block, 2), le32(block, 4));
}

proof fn lemma_index_bytes(c0: int, c1: int, d0: int, d1: int, table: int)
    ensures
        block_bytes(c0, c1, table).subrange(4, 8) == block_bytes(d0, d1, table).subrange(4, 8),
        block_bytes(c0, c1, table).len() == 8,
{
    assert(block_bytes(c0, c1, table).subrange(4, 8) =~= block_bytes(d0, d1, table).subrange(4, 8));
}

proof fn lemma_polish_words(px: Seq<Seq<u8>>, w: (int, int), table: int)
    requires
        0 <= w.0 < 65536,
        0 <= w.1 < 65536,
        0 <= table < 0x1_0000_0000,
    ensures
        ({
            let p = polished(px, w, table, 2);
            block_error(px, block_bytes(p.0, p.1, table)) <= block_error(px, block_bytes(w.0, w.1, table))
        }),
{
    if w.0 > w.1 {
        let p = polished(px, w, table, 2);
        lemma_polished_never_worse(px, w, table, 2);
        lemma_error_by_channels(px, w, table);
        lemma_error_by_channels(px, p, table);
    }
}

/// Polishing a BC1 block's endpoints keeps its index bytes, which are what it
/// repeats, and never makes the block worse.
pub proof fn law_polish_keeps_indices_and_never_worsens(px: Seq<Seq<u8>>, block: Seq<u8>)
    requires
        block.len() == 8,
    ensures
        polished_block(px, block).len() == 8,
        polished_block(px, block).subrange(4, 8) == block.subrange(4, 8),
        block_error(px, polished_block(px, block)) <= block_error(px, block),
{
    lemma_bytes_of_fields(block);
    let w = (le16(block, 0), le16(block, 2));
    let table = le32(block, 4);
    let p = polished(px, w, table, 2);
    lemma_index_bytes(p.0, p.1, w.0, w.1, table);
    lemma_polish_words(px, w, table);
}

/// Two bytes that differ by at most one.
pub open spec fn within_one(a: u8, b: u8) -> bool {
    -1 <= a - b <= 1
}

proof fn lemma_ends_near(v: int)
    requires
        0 <= v < 64,
    ensures
        v < 32 ==> -1 <= (v * 527 + 23) / 64 - (v * 8 + v / 4) <= 1,
        -1 <= (v * 259 + 33) / 64 - (v * 4 + v / 16) <= 1,
{
}

proof fn lemma_thirds_near5(a: int, b: int)
    requires
        0 <= a < 32,
        0 <= b < 32,
    ensures
        -1 <= ((2 * a + b) * 351 + 61) / 128 - (2 * (a * 8 + a / 4) + (b * 8 + b / 4)) / 3 <= 1,
        -1 <= ((a + b) * 1053 + 125) / 256 - ((a * 8 + a / 4) + (b * 8 + b / 4)) / 2 <= 1,
{
}

proof fn lemma_thirds_near6(a: int, b: int)
    requires
        0 <= a < 64,
        0 <= b < 64,
    ensures
        -1 <= ((2 * a + b) * 2763 + 1039) / 2048 - (2 * (a * 4 + a / 16) + (b * 4 + b / 16)) / 3 <= 1,
        -1 <= ((a + b) * 4145 + 1019) / 2048 - ((a * 4 + a / 16) + (b * 4 + b / 16)) / 2 <= 1,
{
}

proof fn lemma_word_parts(w: int)
    requires
        0 <= w < 65536,
    ensures
        ({
            let (r, g, b) = fields565(w);
            0 <= r < 32 && 0 <= g < 64 && 0 <= b < 32
        }),
        fields565(w) == (w / 2048 % 32, w / 32 % 64, w % 32),
{
}

proof fn lemma_end_near(w: int, c: int)
    requires
        0 <= w < 65536,
        0 <= c < 3,
    ensures
        within_one(end_colour(w)[c], color565(w)[c]),
{
    lemma_word_parts(w);
    let (r, g, b) = fields565(w);
    lemma_ends_near(r);
    lemma_ends_near(g);
    lemma_ends_near(b);
    assert(color565(w)[0] == stretch5(r) as u8 && color565(w)[1] == stretch6(g) as u8 && color565(w)[2] == stretch5(b) as u8);
}

/// Field `c` of a word as the decoder reads it.
spec fn part(w: int, c: int) -> int {
    if c == 0 {
        fields565(w).0
    } else if c == 1 {
        fields565(w).1
    } else {
        fields565(w).2
    }
}

/// A field stretched to a byte by the encoder's model.
spec fn stretched(v: int, c: int) -> int {
    if c == 1 {
        stretch6(v)
    } else {
        stretch5(v)
    }
}

/// Two fields mixed two to one by the decoder.
spec fn third_of(a: int, b: int, c: int) -> int {
    if c == 1 {
        ((2 * a + b) * 2763 + 1039) / 2048
    } else {
        ((2 * a + b) * 351 + 61) / 128
    }
}

/// Two fields mixed evenly by the decoder.
spec fn half_of(a: int, b: int, c: int) -> int {
    if c == 1 {
        ((a + b) * 4145 + 1019) / 2048
    } else {
        ((a + b) * 1053 + 125) / 256
    }
}

proof fn lemma_colours_by_part(c0: int, c1: int, c: int)
    requires
        0 <= c < 3,
    ensures
        third_colour(c0, c1)[c] == third_of(part(c0, c), part(c1, c), c) as u8,
        half_colour(c0, c1)[c] == half_of(part(c0, c), part(c1, c), c) as u8,
        color565(c0)[c] == stretched(part(c0, c), c) as u8,
{
    if c == 0 {
    } else if c == 1 {
    } else {
    }
}

proof fn lemma_parts_near(a: int, b: int, c: int)
    requires
        0 <= a < (if c == 1 {
            64int
        } else {
            32
        }),
        0 <= b < (if c == 1 {
            64int
        } else {
            32
        }),
    ensures
        0 <= stretched(a, c) <= 255,
        0 <= third_of(a, b, c) <= 255,
        0 <= half_of(a, b, c) <= 255,
        -1 <= third_of(a, b, c) - (2 * stretched(a, c) + stretched(b, c)) / 3 <= 1,
        -1 <= half_of(a, b, c) - (stretched(a, c) + stretched(b, c)) / 2 <= 1,
{
    if c == 1 {
        lemma_thirds_near6(a, b);
    } else {
        lemma_thirds_near5(a, b);
    }
}

#[verifier::rlimit(40)]
proof fn lemma_mixes_near(c0: int, c1: int, c: int)
    requires
        0 <= c0 < 65536,
        0 <= c1 < 65536,
        0 <= c < 3,
    ensures
        within_one(third_colour(c0, c1)[c], mix_rgb(2, 1, color565(c0), color565(c1))[c]),
        within_one(third_colour(c1, c0)[c], mix_rgb(1, 2, color565(c0), color565(c1))[c]),
        within_one(half_colour(c0, c1)[c], mix_rgb(1, 1, color565(c0), color565(c1))[c]),
{
    lemma_word_parts(c0);
    lemma_word_parts(c1);
    lemma_colours_by_part(c0, c1, c);
    lemma_colours_by_part(c1, c0, c);
    let (a, b) = (part(c0, c), part(c1, c));
    lemma_parts_near(a, b, c);
    lemma_parts_near(b, a, c);
    let (x, y) = (color565(c0), color565(c1));
    lemma_mix_is(x, y, c);
    lemma_near(third_colour(c0, c1)[c], third_of(a, b, c), mix_rgb(2, 1, x, y)[c], (2 * stretched(a, c) + stretched(b, c)) / 3);
    lemma_near(third_colour(c1, c0)[c], third_of(b, a, c), mix_rgb(1, 2, x, y)[c], (2 * stretched(b, c) + stretched(a, c)) / 3);
    lemma_near(half_colour(c0, c1)[c], half_of(a, b, c), mix_rgb(1, 1, x, y)[c], (stretched(a, c) + stretched(b, c)) / 2);
}

proof fn lemma_near(p: u8, v: int, q: u8, m: int)
    requires
        p == v,
        q == m,
        -1 <= v - m <= 1,
    ensures
        within_one(p, q),
{
}

proof fn lemma_mix_is(x: Seq<u8>, y: Seq<u8>, c: int)
    requires
        0 <= c < 3,
    ensures
        mix_rgb(2, 1, x, y)[c] == (2 * x[c] + y[c]) / 3,
        mix_rgb(1, 2, x, y)[c] == (2 * y[c] + x[c]) / 3,
        mix_rgb(1, 1, x, y)[c] == (x[c] + y[c]) / 2,
{
    assert(mix_rgb(2, 1, x, y)[c] == mix(2, 1, x[c] as int, y[c] as int) as u8);
    assert(mix_rgb(1, 2, x, y)[c] == mix(1, 2, x[c] as int, y[c] as int) as u8);
    assert(mix_rgb(1, 1, x, y)[c] == mix(1, 1, x[c] as int, y[c] as int) as u8);
}

/// The decoder rounds a block's colours differently from the encoder's model,
/// but never by more than one: every colour byte that a BC1 block decodes to
/// lies within one of the colour that the encoder scored it by.
pub proof fn law_bc1_decodes_within_one_of_the_model(block: Seq<u8>, i: int, c: int)
    requires
        block.len() == 8,
        0 <= i < 16,
        0 <= c < 3,
    ensures
        within_one(
            bc1_texels(block)[4 * i + c],
            block_palette(le16(block, 0), le16(block, 2))[digits_of(le32(block, 4), 4, 16)[i] as int][c],
        ),
{
    lemma_le16(block, 0);
    lemma_le16(block, 2);
    lemma_le32(block, 4);
    lemma_digit_below(le32(block, 4), 4, i as nat);
    let (c0, c1) = (le16(block, 0), le16(block, 2));
    let k = digits_of(le32(block, 4), 4, 16)[i] as int;
    assert((4 * i + c) / 4 == i && (4 * i + c) % 4 == c);
    lemma_entry_near(c0, c1, k, c);
}

proof fn lemma_palettes(c0: int, c1: int)
    ensures
        ({
            let (x, y) = (color565(c0), color565(c1));
            &&& palette_four(c0, c1)[0] == x
            &&& palette_four(c0, c1)[1] == y
            &&& palette_four(c0, c1)[2] == mix_rgb(2, 1, x, y)
            &&& palette_four(c0, c1)[3] == mix_rgb(1, 2, x, y)
            &&& palette_three(c0, c1)[0] == x
            &&& palette_three(c0, c1)[1] == y
            &&& palette_three(c0, c1)[2] == mix_rgb(1, 1, x, y)
            &&& palette_three(c0, c1)[3] == seq![0u8, 0u8, 0u8]
        }),
{
}

proof fn lemma_entry_near(c0: int, c1: int, k: int, c: int)
    requires
        0 <= c0 < 65536,
        0 <= c1 < 65536,
        0 <= k < 4,
        0 <= c < 3,
    ensures
        within_one(decoded_colour(c0, c1, false, k)[c], block_palette(c0, c1)[k][c]),
{
    let got = decoded_colour(c0, c1, false, k);
    let want = block_palette(c0, c1)[k];
    lemma_palettes(c0, c1);
    if k == 0 {
        assert(got == end_colour(c0) && want == color565(c0));
        lemma_end_near(c0, c);
    } else if k == 1 {
        assert(got == end_colour(c1) && want == color565(c1));
        lemma_end_near(c1, c);
    } else if c0 <= c1 && k == 3 {
        assert(got[c] == 0 && want[c] == 0);
    } else {
        lemma_mixes_near(c0, c1, c);
    }
}

proof fn lemma_smooth_near(a: int, b: int, k: int)
    requires
        0 <= a <= 255,
        0 <= b <= 255,
        0 <= k < 8,
    ensures
        -1 <= smooth_levels(a, b)[k] - alpha_levels(a, b, false)[k] <= 1,
        0 <= smooth_levels(a, b)[k] <= 255,
{
}

/// The same of BC3's alpha: every alpha byte that a BC3 block decodes to lies
/// within one of the level that the encoder scored it by.
pub proof fn law_bc3_alpha_decodes_within_one_of_the_model(block: Seq<u8>, i: int)
    requires
        block.len() == 16,
        0 <= i < 16,
    ensures
        within_one(
            bc3_texels(block)[4 * i + 3],
            alpha_palette(block[0] as int, block[1] as int, false)[alpha_indices(block)[i] as int],
        ),
{
    lemma_digit_below(alpha_index_word(block), 8, i as nat);
    let k = alpha_indices(block)[i] as int;
    let (a, b) = (block[0] as int, block[1] as int);
    lemma_smooth_near(a, b, k);
    lemma_alpha_levels(a, b, false, k);
    assert((4 * i + 3) / 4 == i && (4 * i + 3) % 4 == 3);
}

/// A four-colour half of a BC2 or BC3 block has the colours of the BC1 block
/// that it is.
pub proof fn law_bc2_and_bc3_colours_are_bc1_colours(block: Seq<u8>, i: int, c: int)
    requires
        block.len() == 16,
        le16(block.skip(8), 0) > le16(block.skip(8), 2),
        0 <= i < 16,
        0 <= c < 3,
    ensures
        bc2_texels(block)[4 * i + c] == bc1_texels(block.skip(8))[4 * i + c],
        bc3_texels(block)[4 * i + c] == bc1_texels(block.skip(8))[4 * i + c],
{
    assert((4 * i + c) % 4 == c);
}

/// BC2 keeps the high four bits of alpha: they come back repeated, and a level
/// that they hold exactly is kept.
pub proof fn law_bc2_alpha_decodes(px: Seq<Seq<u8>>, colour: Seq<u8>, i: int)
    requires
        is_block(px),
        0 <= i < 16,
    ensures
        bc2_texels(bc2_alpha(px) + colour)[4 * i + 3] == 17 * (px[i][3] / 16),
        px[i][3] % 17 == 0 ==> bc2_texels(bc2_alpha(px) + colour)[4 * i + 3] == px[i][3],
{
    let block = bc2_alpha(px) + colour;
    let k = 4 * i + 3;
    let j = i / 2;
    assert(k % 4 == 3 && k / 8 == j && k / 4 % 2 == i % 2);
    let (lo, hi) = (px[2 * j][3] as int / 16, px[2 * j + 1][3] as int / 16);
    assert(block[j] == lo + 16 * hi);
    reveal_with_fuel(digit, 2);
    if i % 2 == 0 {
        assert(i == 2 * j);
        assert(digit(block[j] as int, 16, 0) == lo);
    } else {
        assert(i == 2 * j + 1);
        assert(digit(block[j] as int, 16, 1) == hi);
    }
}

/// The two channels of a BC5 block decode as two BC4 blocks do.
pub proof fn law_bc5_channels_decode(red: Seq<u8>, green: Seq<u8>, signed: bool, i: int)
    requires
        red.len() == 8,
        green.len() == 8,
        0 <= i < 16,
    ensures
        block_rgba(bc5_of(signed), red + green)[4 * i] == bc4_bytes(red, signed)[i],
        block_rgba(bc5_of(signed), red + green)[4 * i + 1] == bc4_bytes(green, signed)[i],
        block_rgba(bc5_of(signed), red + green)[4 * i + 2] == 0,
        block_rgba(bc5_of(signed), red + green)[4 * i + 3] == 255,
{
    assert((red + green).take(8) =~= red);
    assert((red + green).skip(8) =~= green);
    assert((4 * i) / 4 == i && (4 * i + 1) / 4 == i && (4 * i + 2) / 4 == i && (4 * i + 3) / 4 == i);
}

} // verus!
