//! What the rate-distortion pass may cost a block.
//!
//! Every error here is a whole number, and single precision holds it exactly:
//! what rounding there is lies in the allowance alone.

use vstd::arithmetic::power2::{lemma_pow2_pos, pow2};
use vstd::prelude::*;

use crate::binary32::{ceiling_i32, difference, less, mag, nan, neg, negation, of_int, product, quotient, rounded, sum, units, value, INF};
use crate::decode::bcn::{bc7_rgba, block_number, mode6_texels};
use crate::encode::blocks::bc1::{bc1_encoded, block_costs, block_error, block_palette, law_four_colour_score, lemma_bc1_encoded};
use crate::encode::blocks::bc7::{bc7_encoded, best_low_bit, bytes7, float_weights4, interp_rows, lemma_rgba_distance, lemma_rgba_fit, levels7, mode6_bytes, rgba_costs, rgba_distance, weights4};
use crate::encode::blocks::laws::{law_mode6_block_decodes, law_mode6_parts_round_trip, law_polish_keeps_indices_and_never_worsens, lemma_level7, parts_fit, texel_of, texels_error};
use crate::encode::blocks::laws_rdo::{law_bc1_rdo_blocks_are_legal, law_mode6_error_is_decoded, lemma_endpoints_len, lemma_refitted_len};
use crate::encode::blocks::lsq::ls_endpoints;
use crate::encode::blocks::rdo::{block_at, dictionary_tried, donors_tried, filled, masked, natural_saving, rdo_block, rdo_blocks, refitted, same_endpoints, save_part, save_whole, slot, tried, with_error, Choice, Class};
use crate::encode::blocks::rdo7::{decoded_costs7, decoded_error7, donor_tried, donors_tried7, error6, head_tried, lemma_rdo_blocks7_len, natural_saving7, nudges, parts6, polished6, rdo_block7, rdo_blocks7, save_block, save_half, tail_tried, tried7, Choice7, Parts};
use crate::encode::blocks::{block_count, is_block, lemma_rgb_distance, EncodeQuality};
use crate::model::{best_of, bit_field, digits_of, fit_costs, fit_error, fit_indices, le16, le32, lemma_first_min_in, lemma_total_bound, lemma_total_eq};
use crate::rounding::{lemma_below_ceiling, lemma_below_infinity, lemma_less, lemma_of_int, lemma_product, lemma_product_monotone, lemma_rounded, lemma_rounded_close, lemma_rounded_exact, lemma_rounded_monotone, lemma_sum_at_least, lemma_sum_at_most, lemma_units_order, one};

verus! {

/// A strength: finite and not below zero.
pub open spec fn is_strength(lambda: u32) -> bool {
    mag(lambda) < INF && value(lambda) >= 0
}

/// What a block may be damaged by: the strength, scaled by the error that the
/// block already carries up to `limit`, times what `save` bytes are worth.
pub open spec fn allowance(lambda: u32, err: int, limit: int, save: int) -> u32 {
    product(masked(lambda, err, limit), of_int(save))
}

/// The scale is at most one, so the masked strength is at most the strength.
proof fn lemma_masked(lambda: u32, err: int, limit: int)
    requires
        is_strength(lambda),
        0 <= err < 0x100_0000,
        0 < limit < 0x100_0000,
    ensures
        is_strength(masked(lambda, err, limit)),
        value(masked(lambda, err, limit)) <= value(lambda),
{
    lemma_of_int(err);
    lemma_of_int(limit);
    lemma_of_int(1);
    let a = quotient(of_int(err), of_int(limit));
    let m = if less(of_int(1), a) {
        of_int(1)
    } else {
        a
    };
    assert(!neg(a) && mag(a) <= INF && (mag(a) > mag(of_int(1)) ==> less(of_int(1), a))) by {
        reveal(quotient);
        reveal(less);
        lemma_rounded(units(mag(of_int(err))) * pow2(149), units(mag(of_int(limit))));
    }
    assert(mag(m) <= mag(of_int(1)));
    lemma_units_order(mag(m), mag(of_int(1)));
    lemma_product(lambda, m);
    let (x, y, d) = (value(lambda), value(m), pow2(149));
    lemma_pow2_pos(149);
    assert(0 <= x * y && x * y * d <= x * d * d) by (nonlinear_arith)
        requires
            0 <= x,
            0 <= y <= d,
            d > 0,
    ;
    assert(units(mag(lambda)) == x) by {
        if neg(lambda) {
            assert(units(mag(lambda)) == 0);
        }
    }
    lemma_rounded_exact(mag(lambda), d);
    lemma_rounded_monotone((x * y) as nat, d, (x * d) as nat, d);
}

/// The least of two numbers.
pub open spec fn least(a: int, b: int) -> int {
    if a < b {
        a
    } else {
        b
    }
}

/// The scale, `min(1, err / limit)`, up to rounding.
proof fn lemma_scale_close(err: int, limit: int)
    requires
        0 < err < 0x100_0000,
        0 < limit < 0x100_0000,
    ensures
        ({
            let a = quotient(of_int(err), of_int(limit));
            let m = if less(of_int(1), a) {
                of_int(1)
            } else {
                a
            };
            &&& mag(m) < INF
            &&& 0 <= value(m) <= one()
            &&& 0xFF_FFFF * (value(m) * limit) <= 0x100_0001 * (least(err, limit) * one())
        }),
{
    lemma_of_int(err);
    lemma_of_int(limit);
    lemma_of_int(1);
    lemma_pow2_pos(149);
    let a = quotient(of_int(err), of_int(limit));
    let m = if less(of_int(1), a) {
        of_int(1)
    } else {
        a
    };
    let u = one();
    let (n, d) = (units(mag(of_int(err))) * pow2(149), units(mag(of_int(limit))));
    let r = rounded(n, d);
    assert(mag(a) == r && !neg(a) && r <= INF && (r > mag(of_int(1)) ==> less(of_int(1), a)) && (less(of_int(1), a)
        ==> r > mag(of_int(1)))) by {
        reveal(quotient);
        reveal(less);
        lemma_rounded(n, d);
    }
    assert(d > 0) by (nonlinear_arith)
        requires
            d == limit * u,
            limit > 0,
            u > 0,
    ;
    lemma_rounded_close(n, d);
    let v = units(r) as int;
    assert(0xFF_FFFF * (v * limit) <= 0x100_0000 * (err * u) + 0x80_0000 * limit) by (nonlinear_arith)
        requires
            0xFF_FFFF * (v * d) <= 0x100_0000 * n + 0x80_0000 * d,
            n == err * u * u,
            d == limit * u,
            u > 0,
    ;
    assert(u >= 0x8000_0000_0000) by {
        vstd::arithmetic::power2::lemma2_to64();
        vstd::arithmetic::power2::lemma_pow2_strictly_increases(64, 149);
    }
    lemma_units_order(mag(m), mag(of_int(1)));
    lemma_units_order(mag(m), r);
    assert(0x80_0000 * limit <= u);
    assert(u <= err * u && u <= limit * u) by (nonlinear_arith)
        requires
            err >= 1,
            limit >= 1,
            u > 0,
    ;
    let w = value(m);
    assert(w <= u);
    assert(0xFF_FFFF * (w * limit) <= 0x100_0000 * (limit * u)) by (nonlinear_arith)
        requires
            0 <= w <= u,
            limit > 0,
    ;
    assert(w * limit <= v * limit) by (nonlinear_arith)
        requires
            w <= v,
            limit > 0,
    ;
}

/// The allowance is `save` times the strength times `min(1, err / limit)`, up
/// to one part in 2^21 and `save + 1` of the smallest positive numbers.
pub proof fn law_allowance_is_scaled_strength(lambda: u32, err: int, limit: int, save: int)
    requires
        is_strength(lambda),
        0 < err < 0x100_0000,
        0 < limit < 0x100_0000,
        0 <= save < 0x100_0000,
    ensures
        0x20_0000 * (limit * value(allowance(lambda, err, limit, save))) <= 0x20_0001 * (save * value(lambda) * least(
            err,
            limit,
        )) + 0x20_0000 * (limit * (save + 1)),
{
    let a = quotient(of_int(err), of_int(limit));
    let m = if less(of_int(1), a) {
        of_int(1)
    } else {
        a
    };
    lemma_scale_close(err, limit);
    lemma_masked(lambda, err, limit);
    lemma_of_int(save);
    lemma_pow2_pos(149);
    let lam = masked(lambda, err, limit);
    let u = one();
    assert(save * u >= 0) by (nonlinear_arith)
        requires
            save >= 0,
            u > 0,
    ;
    lemma_product(lambda, m);
    lemma_product(lam, of_int(save));
    let (x, w, l, z) = (value(lambda), value(m), value(lam), value(allowance(lambda, err, limit, save)));
    let k = least(err, limit);
    assert(x * w >= 0 && l * (save * u) >= 0) by (nonlinear_arith)
        requires
            x >= 0,
            w >= 0,
            l >= 0,
            save * u >= 0,
    ;
    lemma_rounded_close((x * w) as nat, pow2(149));
    lemma_rounded_close((l * (save * u)) as nat, pow2(149));
    lemma_allowance_arithmetic(x, w, l, z, k, limit, save, u);
}

/// The arithmetic of the three roundings.
proof fn lemma_allowance_arithmetic(x: int, w: int, l: int, z: int, k: int, limit: int, save: int, u: int)
    requires
        x >= 0,
        w >= 0,
        l >= 0,
        z >= 0,
        k >= 0,
        limit > 0,
        save >= 0,
        u > 0,
        0xFF_FFFF * (w * limit) <= 0x100_0001 * (k * u),
        0xFF_FFFF * (l * u) <= 0x100_0000 * (x * w) + 0x80_0000 * u,
        0xFF_FFFF * (z * u) <= 0x100_0000 * (l * (save * u)) + 0x80_0000 * u,
    ensures
        0x20_0000 * (limit * z) <= 0x20_0001 * (save * x * k) + 0x20_0000 * (limit * (save + 1)),
{
    // Without the unit in the last.
    assert(0xFF_FFFF * z <= 0x100_0000 * (save * l) + 0x80_0000) by (nonlinear_arith)
        requires
            0xFF_FFFF * (z * u) <= 0x100_0000 * (l * (save * u)) + 0x80_0000 * u,
            u > 0,
    ;
    let s = save;
    // Times `limit * u`, and the strength put in.
    let zu = z * (limit * u);
    let slu = s * l * (limit * u);
    let lu = limit * u;
    let sxw = s * x * (w * limit);
    let slim = s * (limit * u);
    assert(lu > 0) by (nonlinear_arith)
        requires
            lu == limit * u,
            limit > 0,
            u > 0,
    ;
    assert(0xFF_FFFF * zu <= 0x100_0000 * slu + 0x80_0000 * lu) by (nonlinear_arith)
        requires
            0xFF_FFFF * z <= 0x100_0000 * (s * l) + 0x80_0000,
            zu == z * (limit * u),
            slu == s * l * (limit * u),
            lu == limit * u,
            lu > 0,
    ;
    assert(0xFF_FFFF * slu <= 0x100_0000 * sxw + 0x80_0000 * slim) by (nonlinear_arith)
        requires
            0xFF_FFFF * (l * u) <= 0x100_0000 * (x * w) + 0x80_0000 * u,
            slu == s * l * (limit * u),
            sxw == s * x * (w * limit),
            slim == s * (limit * u),
            s >= 0,
            limit > 0,
    ;
    let sxk = s * x * (k * u);
    assert(0xFF_FFFF * sxw <= 0x100_0001 * sxk) by (nonlinear_arith)
        requires
            0xFF_FFFF * (w * limit) <= 0x100_0001 * (k * u),
            sxw == s * x * (w * limit),
            sxk == s * x * (k * u),
            s >= 0,
            x >= 0,
    ;
    assert(sxk >= 0 && slim >= 0 && lu >= 0) by (nonlinear_arith)
        requires
            sxk == s * x * (k * u),
            slim == s * (limit * u),
            lu == limit * u,
            s >= 0,
            x >= 0,
            k >= 0,
            u > 0,
            limit > 0,
    ;
    assert(0x20_0000 * zu <= 0x20_0001 * sxk + 0x20_0000 * (slim + lu));
    assert(0x20_0000 * (limit * z) <= 0x20_0001 * (save * x * k) + 0x20_0000 * (limit * (save + 1))) by (nonlinear_arith)
        requires
            0x20_0000 * zu <= 0x20_0001 * sxk + 0x20_0000 * (slim + lu),
            zu == z * (limit * u),
            sxk == save * x * (k * u),
            slim == save * (limit * u),
            lu == limit * u,
            u > 0,
    ;
}

/// A price starts no higher than the error.
proof fn lemma_price_starts(err: int, x: u32)
    requires
        0 <= err < 0x100_0000,
        !nan(x),
        value(x) >= 0,
    ensures
        !nan(difference(of_int(err), x)),
        value(difference(of_int(err), x)) <= err * one(),
{
    lemma_of_int(err);
    reveal(difference);
    if mag(x) < INF {
        lemma_sum_at_most(of_int(err), negation(x), of_int(err));
    } else {
        lemma_below_infinity(of_int(err));
        reveal(sum);
    }
}

/// A block priced below one that costs no more than `err` errs less than that
/// and its allowance.
proof fn lemma_cheaper(e: int, x: u32, price: u32, err: int)
    requires
        0 <= e < 0x100_0000,
        0 <= err < 0x100_0000,
        !nan(x),
        value(x) >= 0,
        value(price) <= err * one(),
        less(difference(of_int(e), x), price),
    ensures
        e * one() < err * one() + value(x),
{
    lemma_of_int(e);
    lemma_of_int(err);
    lemma_less(difference(of_int(e), x), price);
    lemma_pow2_pos(149);
    assert(err * one() >= 0) by (nonlinear_arith)
        requires
            err >= 0,
            one() > 0,
    ;
    if mag(x) < INF {
        if e * one() >= err * one() + value(x) {
            reveal(difference);
            lemma_sum_at_least(of_int(e), negation(x), of_int(err));
        }
    } else {
        lemma_below_infinity(of_int(e));
    }
}

/// A block whose error stays under what could still win errs less than `err`
/// and its allowance.
proof fn lemma_within_limit(e: int, x: u32, price: u32, err: int)
    requires
        0 <= e < 0x100_0000,
        0 <= err < 0x100_0000,
        !nan(x),
        value(x) >= 0,
        !nan(price),
        value(price) <= err * one(),
        e < ceiling_i32(sum(price, x)),
    ensures
        e * one() < err * one() + value(x),
{
    lemma_of_int(e);
    lemma_of_int(err);
    lemma_below_infinity(of_int(e));
    lemma_below_infinity(of_int(err));
    lemma_below_ceiling(e, sum(price, x));
    lemma_pow2_pos(149);
    assert(err * one() >= 0) by (nonlinear_arith)
        requires
            err >= 0,
            one() > 0,
    ;
    if mag(x) < INF {
        if mag(price) == INF {
            reveal(sum);
        } else if value(price) + value(x) <= e * one() {
            lemma_sum_at_most(price, x, of_int(e));
        }
    }
}

/// What a repeated half saves is less than what a repeated block saves.
proof fn lemma_saves()
    ensures
        mag(save_part()) < INF,
        0 <= value(save_part()) <= value(save_whole()),
        mag(save_whole()) < INF,
        value(save_whole()) == 7 * one(),
{
    lemma_of_int(5);
    lemma_of_int(2);
    lemma_of_int(7);
    reveal(quotient);
    lemma_pow2_pos(149);
    let (n, d, u) = (units(mag(of_int(5))) * pow2(149), units(mag(of_int(2))), pow2(149));
    let s = units(mag(of_int(7)));
    lemma_rounded(n, d);
    assert(n * 1 <= s * d && d > 0) by (nonlinear_arith)
        requires
            n == 5 * u * u,
            d == 2 * u,
            s == 7 * u,
            u > 0,
    ;
    lemma_rounded_exact(mag(of_int(7)), 1);
    lemma_rounded_monotone(n, d, s, 1);
}

proof fn lemma_block_error_range(px: Seq<Seq<u8>>, block: Seq<u8>)
    ensures
        0 <= block_error(px, block) <= 3121200,
{
    reveal(block_error);
    let pal = block_palette(le16(block, 0), le16(block, 2));
    let idx = digits_of(le32(block, 4), 4, 16);
    assert forall|i: int| 0 <= i < 16 implies 0 <= #[trigger] block_costs(px, block)[i] <= 195075 by {
        lemma_rgb_distance(px[i], pal[idx[i] as int]);
    }
    lemma_total_bound(block_costs(px, block), 16, 195075);
}

/// The block in hand errs by no more than `err` and the allowance `x`, and its
/// price is no more than `err`.
spec fn affordable(px: Seq<Seq<u8>>, st: Choice, err: int, x: u32) -> bool {
    &&& st.0.len() == 8
    &&& !nan(st.1)
    &&& value(st.1) <= err * one()
    &&& block_error(px, st.0) * one() <= err * one() + value(x)
}

/// A candidate with its own error, eight bytes long.
spec fn honest_candidate(px: Seq<Seq<u8>>, cand: Option<(Seq<u8>, int)>) -> bool {
    cand matches Some((b, e)) ==> b.len() == 8 && e == block_error(px, b)
}

proof fn lemma_tried_affordable(
    px: Seq<Seq<u8>>,
    st: Choice,
    cand: Option<(Seq<u8>, int)>,
    lam: u32,
    weight: u32,
    save: u32,
    class: Class,
    err: int,
)
    requires
        0 <= err < 0x100_0000,
        is_strength(lam),
        save == save_part() || save == save_whole(),
        affordable(px, st, err, product(lam, save_whole())),
        honest_candidate(px, cand),
    ensures
        affordable(px, tried(st, cand, lam, weight, save, class), err, product(lam, save_whole())),
{
    if let Some((b, e)) = cand {
        let j = difference(of_int(e), product(weight, save));
        if e < ceiling_i32(sum(st.1, product(lam, save))) && less(j, st.1) {
            lemma_saves();
            lemma_product(lam, save);
            lemma_product_monotone(lam, save, save_whole());
            lemma_block_error_range(px, b);
            lemma_within_limit(e, product(lam, save), st.1, err);
            lemma_less(j, st.1);
        }
    }
}

proof fn lemma_refitted_honest(px: Seq<Seq<u8>>, table: int)
    ensures
        honest_candidate(px, with_error(px, refitted(px, table))),
{
    lemma_refitted_len(px, table);
}

proof fn lemma_endpoints_honest(px: Seq<Seq<u8>>, donor: Seq<u8>)
    requires
        is_block(px),
    ensures
        honest_candidate(px, same_endpoints(px, donor)),
{
    lemma_endpoints_len(px, donor);
    if le16(donor, 0) > le16(donor, 2) {
        law_four_colour_score(px, le16(donor, 0), le16(donor, 2));
    }
}

proof fn lemma_donors_affordable(px: Seq<Seq<u8>>, st: Choice, emitted: Seq<Seq<u8>>, lam: u32, k: nat, err: int)
    requires
        is_block(px),
        0 <= err < 0x100_0000,
        is_strength(lam),
        affordable(px, st, err, product(lam, save_whole())),
    ensures
        affordable(px, donors_tried(px, st, emitted, lam, k), err, product(lam, save_whole())),
    decreases k,
{
    if k > 0 {
        lemma_donors_affordable(px, st, emitted, lam, (k - 1) as nat, err);
        let before = donors_tried(px, st, emitted, lam, (k - 1) as nat);
        let donor = slot(emitted, k - 1);
        let first = with_error(px, refitted(px, le32(donor, 4)));
        lemma_refitted_honest(px, le32(donor, 4));
        lemma_endpoints_honest(px, donor);
        lemma_tried_affordable(px, before, first, lam, lam, save_part(), Class::Table, err);
        let mid = tried(before, first, lam, lam, save_part(), Class::Table);
        lemma_tried_affordable(px, mid, same_endpoints(px, donor), lam, lam, save_part(), Class::Endpoints, err);
    }
}

proof fn lemma_dictionary_affordable(
    px: Seq<Seq<u8>>,
    st: Choice,
    emitted: Seq<Seq<u8>>,
    dict: Seq<u32>,
    lam: u32,
    k: nat,
    err: int,
)
    requires
        0 <= err < 0x100_0000,
        is_strength(lam),
        affordable(px, st, err, product(lam, save_whole())),
    ensures
        affordable(px, dictionary_tried(px, st, emitted, dict, lam, k), err, product(lam, save_whole())),
    decreases k,
{
    if k > 0 {
        lemma_dictionary_affordable(px, st, emitted, dict, lam, (k - 1) as nat, err);
        let before = dictionary_tried(px, st, emitted, dict, lam, (k - 1) as nat);
        let table = dict[k - 1] as int;
        lemma_refitted_honest(px, table);
        lemma_tried_affordable(px, before, with_error(px, refitted(px, table)), lam, lam, save_part(), Class::Table, err);
    }
}

proof fn lemma_natural_saving(block: Seq<u8>, emitted: Seq<Seq<u8>>, row: int)
    ensures
        mag(natural_saving(block, emitted, row)) < INF,
        value(natural_saving(block, emitted, row)) >= 0,
{
    lemma_saves();
    lemma_of_int(0);
    lemma_pow2_pos(149);
}

/// A BC1 block that the pass emits errs by no more than its plain encoding and
/// the allowance of a repeated block.
proof fn lemma_rdo_block_affordable(
    px: Seq<Seq<u8>>,
    base: Seq<u8>,
    emitted: Seq<Seq<u8>>,
    row: int,
    dict: Seq<u32>,
    lambda: u32,
)
    requires
        is_block(px),
        is_strength(lambda),
        base.len() == 8,
        emitted.len() > 0 ==> emitted[emitted.len() - 1].len() == 8,
    ensures
        ({
            let err = block_error(px, base);
            let b = rdo_block(px, base, emitted, row, dict, lambda);
            &&& err == 0 ==> b == base
            &&& block_error(px, b) * one() <= err * one() + value(allowance(lambda, err, 192, 7))
        }),
{
    reveal(rdo_block);
    let err = block_error(px, base);
    lemma_block_error_range(px, base);
    let lam = masked(lambda, err, 192);
    lemma_masked(lambda, err, 192);
    lemma_saves();
    lemma_product(lam, save_whole());
    if err != 0 {
        let own = natural_saving(base, emitted, row);
        lemma_natural_saving(base, emitted, row);
        lemma_product(lam, own);
        lemma_price_starts(err, product(lam, own));
        let st0: Choice = (base, difference(of_int(err), product(lam, own)), Class::Base);
        assert(affordable(px, st0, err, product(lam, save_whole())));
        let st = if emitted.len() == 0 {
            st0
        } else {
            let prev = emitted[emitted.len() - 1];
            let cand = Some((prev, block_error(px, prev)));
            lemma_tried_affordable(px, st0, cand, lam, lambda, save_whole(), Class::Whole, err);
            let st1 = tried(st0, cand, lam, lambda, save_whole(), Class::Whole);
            lemma_donors_affordable(px, st1, emitted, lam, filled(emitted) as nat, err);
            let st2 = donors_tried(px, st1, emitted, lam, filled(emitted) as nat);
            lemma_dictionary_affordable(px, st2, emitted, dict, lam, dict.len(), err);
            dictionary_tried(px, st2, emitted, dict, lam, dict.len())
        };
        assert(affordable(px, st, err, product(lam, save_whole())));
        law_polish_keeps_indices_and_never_worsens(px, st.0);
        let (x, y, h) = (block_error(px, rdo_block(px, base, emitted, row, dict, lambda)), block_error(px, st.0), one());
        assert(x <= y);
        lemma_pow2_pos(149);
        assert(x * h <= y * h) by (nonlinear_arith)
            requires
                x <= y,
                h > 0,
        ;
    }
}

/// Damage is scaled by the error that a block already carries: every BC1 block
/// that the pass emits errs by no more than its plain encoding does and seven
/// times the strength, which is scaled down for a block that errs by less than
/// 192. A block that is exact keeps its encoding.
pub proof fn law_bc1_damage_is_masked(
    rgba: Seq<u8>,
    w: int,
    h: int,
    q: EncodeQuality,
    dict: Seq<u32>,
    lambda: u32,
    n: nat,
    i: int,
)
    requires
        w > 0,
        is_strength(lambda),
        0 <= i < n,
    ensures
        ({
            let px = block_at(rgba, w, h, i);
            let base = bc1_encoded(px, q).0;
            let err = block_error(px, base);
            let b = rdo_blocks(rgba, w, h, q, dict, lambda, n)[i];
            &&& err == 0 ==> b == base
            &&& block_error(px, b) * one() <= err * one() + value(allowance(lambda, err, 192, 7))
        }),
    decreases n,
{
    let m = (n - 1) as nat;
    law_bc1_rdo_blocks_are_legal(rgba, w, h, q, dict, lambda, m);
    let emitted = rdo_blocks(rgba, w, h, q, dict, lambda, m);
    if i < m {
        law_bc1_damage_is_masked(rgba, w, h, q, dict, lambda, m, i);
        assert(rdo_blocks(rgba, w, h, q, dict, lambda, n)[i] == emitted[i]);
    } else {
        let px = block_at(rgba, w, h, i);
        assert(is_block(px));
        lemma_bc1_encoded(px, q);
        lemma_rdo_block_affordable(px, bc1_encoded(px, q).0, emitted, block_count(w), dict, lambda);
    }
}

/// What a mode 6 block is read as can be packed again.
proof fn lemma_parts6_fit(block: Seq<u8>)
    ensures
        parts6(block) matches Some(d) ==> parts_fit(d.0, d.1, d.2, d.3, d.4),
{
    if let Some(d) = parts6(block) {
        let v = block_number(block, 0);
        vstd::arithmetic::power2::lemma2_to64();
        assert(pow2(1) == 2 && pow2(3) == 8 && pow2(4) == 16 && pow2(7) == 128);
        assert forall|c: int| 0 <= c < 4 implies #[trigger] d.0[c] < 128 by {
            lemma_field_range(v, (7 + 14 * c) as nat, 7);
        }
        assert forall|c: int| 0 <= c < 4 implies #[trigger] d.2[c] < 128 by {
            lemma_field_range(v, (14 + 14 * c) as nat, 7);
        }
        lemma_field_range(v, 63, 1);
        lemma_field_range(v, 64, 1);
        lemma_field_range(v, 65, 3);
        assert forall|p: int| 0 <= p < 16 implies #[trigger] d.4[p] < 16 by {
            lemma_field_range(v, (64 + 4 * p) as nat, 4);
        }
    }
}

proof fn lemma_field_range(v: int, off: nat, n: nat)
    ensures
        0 <= bit_field(v, off, n) < pow2(n),
{
    lemma_pow2_pos(n);
    vstd::arithmetic::div_mod::lemma_mod_bound(v / (pow2(off) as int), pow2(n) as int);
}

/// Two endpoints of four 7-bit levels.
spec fn are_levels(q: (Seq<u8>, Seq<u8>)) -> bool {
    &&& q.0.len() == 4
    &&& q.1.len() == 4
    &&& forall|c: int| 0 <= c < 4 ==> #[trigger] q.0[c] < 128
    &&& forall|c: int| 0 <= c < 4 ==> #[trigger] q.1[c] < 128
}

proof fn lemma_nudges_levels(px: Seq<Seq<u8>>, q: (Seq<u8>, Seq<u8>), p0: int, p1: int, idx: Seq<u8>, k: nat)
    requires
        are_levels(q),
    ensures
        are_levels(nudges(px, q, p0, p1, idx, k)),
    decreases k,
{
    if k > 0 {
        lemma_nudges_levels(px, q, p0, p1, idx, (k - 1) as nat);
    }
}

proof fn lemma_polished6_levels(px: Seq<Seq<u8>>, q: (Seq<u8>, Seq<u8>), p0: int, p1: int, idx: Seq<u8>, n: nat)
    requires
        are_levels(q),
    ensures
        are_levels(polished6(px, q, p0, p1, idx, n)),
    decreases n,
{
    if n > 0 {
        lemma_nudges_levels(px, q, p0, p1, idx, 16);
        lemma_polished6_levels(px, nudges(px, q, p0, p1, idx, 16), p0, p1, idx, (n - 1) as nat);
    }
}

/// A packed mode 6 block is decoded as one.
proof fn lemma_mode6_decoded(px: Seq<Seq<u8>>, q0: Seq<u8>, p0: int, q1: Seq<u8>, p1: int, idx: Seq<u8>)
    requires
        parts_fit(q0, p0, q1, p1, idx),
    ensures
        decoded_error7(px, mode6_bytes(q0, p0, q1, p1, idx)) == texels_error(
            px,
            mode6_texels(mode6_bytes(q0, p0, q1, p1, idx)),
        ),
{
    let b = mode6_bytes(q0, p0, q1, p1, idx);
    law_mode6_parts_round_trip(q0, p0, q1, p1, idx);
    assert(bc7_rgba(b) == mode6_texels(b));
    reveal(decoded_error7);
    assert(decoded_costs7(px, b) =~= Seq::new(16, |i: int| rgba_distance(px[i], texel_of(mode6_texels(b), i))));
}

/// Indices fitted to a palette are scored by the error that the block leaves.
proof fn lemma_fitted_head(px: Seq<Seq<u8>>, q0: Seq<u8>, p0: int, q1: Seq<u8>, p1: int)
    requires
        px.len() == 16,
        are_levels((q0, q1)),
        0 <= p0 < 2,
        0 <= p1 < 2,
    ensures
        ({
            let costs = rgba_costs(px, interp_rows(bytes7(q0, p0), bytes7(q1, p1), weights4()));
            let idx = fit_indices(costs);
            idx[0] <= 7 ==> fit_error(costs) == decoded_error7(px, mode6_bytes(q0, p0, q1, p1, idx))
        }),
{
    let pal = interp_rows(bytes7(q0, p0), bytes7(q1, p1), weights4());
    let costs = rgba_costs(px, pal);
    let idx = fit_indices(costs);
    lemma_rgba_fit(px, pal);
    if idx[0] <= 7 {
        assert(parts_fit(q0, p0, q1, p1, idx));
        let texels = mode6_texels(mode6_bytes(q0, p0, q1, p1, idx));
        let want = Seq::new(16, |i: int| rgba_distance(px[i], texel_of(texels, i)));
        assert forall|i: int| 0 <= i < 16 implies #[trigger] fit_costs(costs)[i] == want[i] by {
            lemma_first_min_in(costs[i], 16);
            let k = best_of(costs[i]);
            assert(idx[i] == k);
            assert forall|c: int| 0 <= c < 4 implies #[trigger] texel_of(texels, i)[c] == pal[k][c] by {
                law_mode6_block_decodes(q0, p0, q1, p1, idx, i, c);
                assert(texel_of(texels, i)[c] == texels[4 * i + c]);
            }
        }
        lemma_total_eq(fit_costs(costs), want, 16);
        lemma_mode6_decoded(px, q0, p0, q1, p1, idx);
    }
}

/// A refitted and polished tail is scored by the error that the block leaves.
proof fn lemma_polished_tail(px: Seq<Seq<u8>>, a: Seq<u8>, b: Seq<u8>, d: Parts)
    requires
        parts_fit(d.0, d.1, d.2, d.3, d.4),
    ensures
        ({
            let p0 = best_low_bit(a);
            let q = polished6(px, (levels7(a, p0), levels7(b, d.3)), p0, d.3, d.4, 2);
            error6(px, q, p0, d.3, d.4) == decoded_error7(px, mode6_bytes(q.0, p0, q.1, d.3, d.4))
        }),
{
    let p0 = best_low_bit(a);
    let start = (levels7(a, p0), levels7(b, d.3));
    assert forall|c: int| 0 <= c < 4 implies #[trigger] start.0[c] < 128 by {
        lemma_level7(a[c], p0);
    }
    assert forall|c: int| 0 <= c < 4 implies #[trigger] start.1[c] < 128 by {
        lemma_level7(b[c], d.3);
    }
    lemma_polished6_levels(px, start, p0, d.3, d.4, 2);
    let q = polished6(px, start, p0, d.3, d.4, 2);
    assert(parts_fit(q.0, p0, q.1, d.3, d.4));
    law_mode6_error_is_decoded(px, q, p0, d.3, d.4);
    lemma_mode6_decoded(px, q.0, p0, q.1, d.3, d.4);
}

proof fn lemma_decoded_error_range(px: Seq<Seq<u8>>, block: Seq<u8>)
    ensures
        0 <= decoded_error7(px, block) <= 4161600,
{
    reveal(decoded_error7);
    assert forall|i: int| 0 <= i < 16 implies 0 <= #[trigger] decoded_costs7(px, block)[i] <= 260100 by {
        lemma_rgba_distance(px[i], bc7_rgba(block).subrange(4 * i, 4 * i + 4));
    }
    lemma_total_bound(decoded_costs7(px, block), 16, 260100);
}

/// The same of BC7: the block in hand errs by no more than `err` and the
/// allowance `x`, and its price is no more than `err`.
spec fn affordable7(px: Seq<Seq<u8>>, st: Choice7, err: int, x: u32) -> bool {
    &&& !nan(st.1)
    &&& value(st.1) <= err * one()
    &&& decoded_error7(px, st.0) * one() <= err * one() + value(x)
}

/// What a repeated half saves is less than what a repeated block saves.
proof fn lemma_saves7()
    ensures
        mag(save_half()) < INF,
        0 <= value(save_half()) <= value(save_block()),
        mag(save_block()) < INF,
        value(save_block()) == 14 * one(),
{
    lemma_of_int(6);
    lemma_of_int(14);
    lemma_pow2_pos(149);
}

proof fn lemma_tried7_affordable(px: Seq<Seq<u8>>, st: Choice7, block: Seq<u8>, e: int, lam: u32, save: u32, err: int)
    requires
        0 <= err < 0x100_0000,
        is_strength(lam),
        save == save_half() || save == save_block(),
        affordable7(px, st, err, product(lam, save_block())),
        e == decoded_error7(px, block),
    ensures
        affordable7(px, tried7(st, block, e, lam, save), err, product(lam, save_block())),
{
    let j = difference(of_int(e), product(lam, save));
    if less(j, st.1) {
        lemma_saves7();
        lemma_product(lam, save);
        lemma_product_monotone(lam, save, save_block());
        lemma_decoded_error_range(px, block);
        lemma_cheaper(e, product(lam, save), st.1, err);
        lemma_less(j, st.1);
    }
}

proof fn lemma_donor_affordable(px: Seq<Seq<u8>>, st: Choice7, donor: Seq<u8>, lam: u32, err: int)
    requires
        px.len() == 16,
        0 <= err < 0x100_0000,
        is_strength(lam),
        affordable7(px, st, err, product(lam, save_block())),
    ensures
        affordable7(px, donor_tried(px, st, donor, lam), err, product(lam, save_block())),
{
    reveal(donor_tried);
    lemma_parts6_fit(donor);
    if let Some(d) = parts6(donor) {
        let st1 = tail_tried(px, st, d, lam);
        if let Some((a, b)) = ls_endpoints(px, float_weights4(d.4), 4) {
            let p0 = best_low_bit(a);
            let q = polished6(px, (levels7(a, p0), levels7(b, d.3)), p0, d.3, d.4, 2);
            lemma_polished_tail(px, a, b, d);
            lemma_tried7_affordable(
                px,
                st,
                mode6_bytes(q.0, p0, q.1, d.3, d.4),
                error6(px, q, p0, d.3, d.4),
                lam,
                save_half(),
                err,
            );
        }
        lemma_head_affordable(px, st1, d, 0, lam, err);
        lemma_head_affordable(px, head_tried(px, st1, d, 0, lam), d, 1, lam, err);
    }
}

proof fn lemma_head_affordable(px: Seq<Seq<u8>>, st: Choice7, d: Parts, p1: int, lam: u32, err: int)
    requires
        px.len() == 16,
        parts_fit(d.0, d.1, d.2, d.3, d.4),
        0 <= p1 < 2,
        0 <= err < 0x100_0000,
        is_strength(lam),
        affordable7(px, st, err, product(lam, save_block())),
    ensures
        affordable7(px, head_tried(px, st, d, p1, lam), err, product(lam, save_block())),
{
    let costs = rgba_costs(px, interp_rows(bytes7(d.0, d.1), bytes7(d.2, p1), weights4()));
    let idx = fit_indices(costs);
    if idx[0] <= 7 {
        lemma_fitted_head(px, d.0, d.1, d.2, p1);
        lemma_tried7_affordable(
            px,
            st,
            mode6_bytes(d.0, d.1, d.2, p1, idx),
            fit_error(costs),
            lam,
            save_half(),
            err,
        );
    }
}

proof fn lemma_donors7_affordable(px: Seq<Seq<u8>>, st: Choice7, emitted: Seq<Seq<u8>>, lam: u32, k: nat, err: int)
    requires
        px.len() == 16,
        0 <= err < 0x100_0000,
        is_strength(lam),
        affordable7(px, st, err, product(lam, save_block())),
    ensures
        affordable7(px, donors_tried7(px, st, emitted, lam, k), err, product(lam, save_block())),
    decreases k,
{
    if k > 0 {
        lemma_donors7_affordable(px, st, emitted, lam, (k - 1) as nat, err);
        let before = donors_tried7(px, st, emitted, lam, (k - 1) as nat);
        lemma_donor_affordable(px, before, slot(emitted, k - 1), lam, err);
    }
}

/// A BC7 block that the pass emits errs by no more than its plain encoding and
/// the allowance of a repeated block.
proof fn lemma_rdo_block7_affordable(px: Seq<Seq<u8>>, base: Seq<u8>, emitted: Seq<Seq<u8>>, row: int, lambda: u32)
    requires
        px.len() == 16,
        is_strength(lambda),
    ensures
        ({
            let err = decoded_error7(px, base);
            let b = rdo_block7(px, base, emitted, row, lambda);
            &&& err == 0 ==> b == base
            &&& decoded_error7(px, b) * one() <= err * one() + value(allowance(lambda, err, 256, 14))
        }),
{
    reveal(rdo_block7);
    let err = decoded_error7(px, base);
    lemma_decoded_error_range(px, base);
    let lam = masked(lambda, err, 256);
    lemma_masked(lambda, err, 256);
    lemma_saves7();
    lemma_product(lam, save_block());
    if err != 0 {
        let own = natural_saving7(base, emitted, row);
        lemma_of_int(0);
        lemma_pow2_pos(149);
        lemma_product(lam, own);
        lemma_price_starts(err, product(lam, own));
        let st0: Choice7 = (base, difference(of_int(err), product(lam, own)));
        assert(affordable7(px, st0, err, product(lam, save_block())));
        if emitted.len() > 0 {
            let prev = emitted[emitted.len() - 1];
            lemma_tried7_affordable(px, st0, prev, decoded_error7(px, prev), lam, save_block(), err);
            let st1 = tried7(st0, prev, decoded_error7(px, prev), lam, save_block());
            let above = emitted[emitted.len() - row];
            lemma_tried7_affordable(px, st1, above, decoded_error7(px, above), lam, save_block(), err);
            let st2 = if emitted.len() >= row {
                tried7(st1, above, decoded_error7(px, above), lam, save_block())
            } else {
                st1
            };
            lemma_donors7_affordable(px, st2, emitted, lam, filled(emitted) as nat, err);
        }
    }
}

/// The same of BC7: fourteen times the strength, scaled down for a block that
/// errs by less than 256.
pub proof fn law_bc7_damage_is_masked(rgba: Seq<u8>, w: int, h: int, lambda: u32, n: nat, i: int)
    requires
        w > 0,
        is_strength(lambda),
        0 <= i < n,
    ensures
        ({
            let px = block_at(rgba, w, h, i);
            let base = bc7_encoded(px).0;
            let err = decoded_error7(px, base);
            let b = rdo_blocks7(rgba, w, h, lambda, n)[i];
            &&& err == 0 ==> b == base
            &&& decoded_error7(px, b) * one() <= err * one() + value(allowance(lambda, err, 256, 14))
        }),
    decreases n,
{
    let m = (n - 1) as nat;
    lemma_rdo_blocks7_len(rgba, w, h, lambda, m);
    let emitted = rdo_blocks7(rgba, w, h, lambda, m);
    if i < m {
        law_bc7_damage_is_masked(rgba, w, h, lambda, m, i);
        assert(rdo_blocks7(rgba, w, h, lambda, n)[i] == emitted[i]);
    } else {
        let px = block_at(rgba, w, h, i);
        lemma_rdo_block7_affordable(px, bc7_encoded(px).0, emitted, block_count(w), lambda);
    }
}

} // verus!
