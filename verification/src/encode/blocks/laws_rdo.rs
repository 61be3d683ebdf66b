//! What the rate-distortion pass keeps.

use vstd::arithmetic::power2::pow2;
use vstd::prelude::*;

use crate::binary32::{difference, less, of_int, product};
use crate::decode::bcn::mode6_texels;
use crate::encode::blocks::bc1::{bc1_encoded, bc1_weights, better, block_bytes, block_error, four_colour, lemma_bc1_encoded, palette_four, Scored};
use crate::encode::blocks::bc7::{bc7_encoded, best_fit6, best_low_bit, brightest, bytes7, channel_span_of, color_search, darkest, fit6_bytes, float_weights4, interp64, interp_rows, lemma_interp64, levels7, mode4_alpha, mode4_block, mode4_fields, mode5_alpha, mode5_block, mode5_fields, mode6_bytes, mode6_fields, rgba_costs, rgba_distance, rotated, weights4};
use crate::encode::blocks::laws::{law_mode6_block_decodes, parts_fit, texel_of, texels_error};
use crate::encode::blocks::lsq::ls_endpoints;
use crate::encode::blocks::m1::{budget_of, flips, mode1_bytes, mode1_fields, mode1_search, partition_fit, raw_indices, shortlist, stored_first, stored_indices, stored_second, subset_fit, subset_texels};
use crate::encode::blocks::rdo::{block_at, dictionary_tried, donors_tried, filled, masked, natural_saving, polished, rdo_block, rdo_blocks, refitted, same_endpoints, save_part, save_whole, slot, tried, with_error, Choice, Class};
use crate::encode::blocks::rdo7::{channel_costs6, decoded_error7, donor_tried, donors_tried7, error6, head_tried, level_error, natural_saving7, nudge, nudges, parts6, polished6, rdo_block7, rdo_blocks7, save_block, tail_tried, tried7, Choice7};
use crate::encode::blocks::{block_count, is_block, rgb_costs, word565, EncodeQuality};
use crate::model::{bit_string, digits_of, fit_indices, le16, le32, le_bytes, number_of, total};

verus! {

/// A price that is another one, or lower.
pub open spec fn not_above(a: u32, b: u32) -> bool {
    a == b || less(a, b)
}

proof fn lemma_not_above_chains(a: u32, b: u32, c: u32)
    requires
        not_above(a, b),
        not_above(b, c),
    ensures
        not_above(a, c),
{
    reveal(less);
}

proof fn lemma_donors_price(px: Seq<Seq<u8>>, st: Choice, emitted: Seq<Seq<u8>>, lam: u32, k: nat)
    ensures
        not_above(donors_tried(px, st, emitted, lam, k).1, st.1),
    decreases k,
{
    if k > 0 {
        let before = donors_tried(px, st, emitted, lam, (k - 1) as nat);
        lemma_donors_price(px, st, emitted, lam, (k - 1) as nat);
        let after = donors_tried(px, st, emitted, lam, k);
        let donor = slot(emitted, k - 1);
        let mid = tried(
            before,
            with_error(
                px,
                refitted(px, le32(donor, 4)),
            ),
            lam,
            lam,
            save_part(),
            Class::Table,
        );
        lemma_not_above_chains(after.1, mid.1, before.1);
        lemma_not_above_chains(after.1, before.1, st.1);
    }
}

proof fn lemma_dictionary_price(
    px: Seq<Seq<u8>>,
    st: Choice,
    emitted: Seq<Seq<u8>>,
    dict: Seq<u32>,
    lam: u32,
    k: nat,
)
    ensures
        not_above(dictionary_tried(px, st, emitted, dict, lam, k).1, st.1),
    decreases k,
{
    if k > 0 {
        let before = dictionary_tried(px, st, emitted, dict, lam, (k - 1) as nat);
        lemma_dictionary_price(px, st, emitted, dict, lam, (k - 1) as nat);
        lemma_not_above_chains(dictionary_tried(px, st, emitted, dict, lam, k).1, before.1, st.1);
    }
}

/// A candidate is taken only where it lowers the price: after any number of
/// donors and dictionary words the block in hand costs no more than before.
pub proof fn law_bc1_candidates_never_raise_the_price(
    px: Seq<Seq<u8>>,
    st: Choice,
    emitted: Seq<Seq<u8>>,
    dict: Seq<u32>,
    lam: u32,
    donors: nat,
    words: nat,
)
    ensures
        not_above(dictionary_tried(px, donors_tried(px, st, emitted, lam, donors), emitted, dict, lam, words).1, st.1),
{
    let mid = donors_tried(px, st, emitted, lam, donors);
    lemma_donors_price(px, st, emitted, lam, donors);
    lemma_dictionary_price(px, mid, emitted, dict, lam, words);
    lemma_not_above_chains(dictionary_tried(px, mid, emitted, dict, lam, words).1, mid.1, st.1);
}

/// The same of BC7.
pub proof fn law_bc7_candidates_never_raise_the_price(
    px: Seq<Seq<u8>>,
    st: Choice7,
    emitted: Seq<Seq<u8>>,
    lam: u32,
    k: nat,
)
    ensures
        not_above(donors_tried7(px, st, emitted, lam, k).1, st.1),
    decreases k,
{
    if k > 0 {
        let before = donors_tried7(px, st, emitted, lam, (k - 1) as nat);
        law_bc7_candidates_never_raise_the_price(px, st, emitted, lam, (k - 1) as nat);
        let donor = slot(emitted, k - 1);
        reveal(donor_tried);
        if let Some(d) = parts6(donor) {
            let a = tail_tried(px, before, d, lam);
            let b = head_tried(px, a, d, 0, lam);
            let c = head_tried(px, b, d, 1, lam);
            lemma_not_above_chains(b.1, a.1, before.1);
            lemma_not_above_chains(c.1, b.1, before.1);
        }
        lemma_not_above_chains(donors_tried7(px, st, emitted, lam, k).1, before.1, st.1);
    }
}

proof fn lemma_nudge(
    px: Seq<Seq<u8>>,
    q: (Seq<u8>, Seq<u8>),
    p0: int,
    p1: int,
    idx: Seq<u8>,
    first: bool,
    c: int,
    d: int,
)
    requires
        q.0.len() == 4,
        q.1.len() == 4,
        0 <= c < 4,
    ensures
        ({
            let n = nudge(px, q, p0, p1, idx, first, c, d);
            &&& error6(px, n, p0, p1, idx) <= error6(px, q, p0, p1, idx)
            &&& n.0.len() == 4
            &&& n.1.len() == 4
        }),
{
    let n = nudge(px, q, p0, p1, idx, first, c, d);
    if n != q {
        assert forall|k: int| 0 <= k < 4 && k != c implies level_error(px, k, n, p0, p1, idx) == #[trigger] level_error(
            px,
            k,
            q,
            p0,
            p1,
            idx,
        ) by {
            assert(n.0[k] == q.0[k] && n.1[k] == q.1[k]);
        }
    }
}

proof fn lemma_nudges(px: Seq<Seq<u8>>, q: (Seq<u8>, Seq<u8>), p0: int, p1: int, idx: Seq<u8>, k: nat)
    requires
        q.0.len() == 4,
        q.1.len() == 4,
    ensures
        ({
            let n = nudges(px, q, p0, p1, idx, k);
            &&& error6(px, n, p0, p1, idx) <= error6(px, q, p0, p1, idx)
            &&& n.0.len() == 4
            &&& n.1.len() == 4
        }),
    decreases k,
{
    if k > 0 {
        let m = k - 1;
        lemma_nudges(px, q, p0, p1, idx, m as nat);
        lemma_nudge(
            px,
            nudges(px, q, p0, p1, idx, m as nat),
            p0,
            p1,
            idx,
            m < 8,
            m / 2 % 4,
            if m % 2 == 0 {
                -1
            } else {
                1
            },
        );
    }
}

/// Polishing a mode 6 block's endpoint levels, its low bits and indices kept,
/// never makes the block worse.
pub proof fn law_mode6_polish_never_worsens(
    px: Seq<Seq<u8>>,
    q: (Seq<u8>, Seq<u8>),
    p0: int,
    p1: int,
    idx: Seq<u8>,
    n: nat,
)
    requires
        q.0.len() == 4,
        q.1.len() == 4,
    ensures
        error6(px, polished6(px, q, p0, p1, idx, n), p0, p1, idx) <= error6(px, q, p0, p1, idx),
        polished6(px, q, p0, p1, idx, n).0.len() == 4,
        polished6(px, q, p0, p1, idx, n).1.len() == 4,
    decreases n,
{
    if n > 0 {
        lemma_nudges(px, q, p0, p1, idx, 16);
        law_mode6_polish_never_worsens(px, nudges(px, q, p0, p1, idx, 16), p0, p1, idx, (n - 1) as nat);
    }
}

proof fn lemma_four_totals(a: Seq<int>, b: Seq<int>, c: Seq<int>, d: Seq<int>, e: Seq<int>, n: nat)
    requires
        forall|i: int| 0 <= i < n ==> #[trigger] e[i] == a[i] + b[i] + c[i] + d[i],
    ensures
        total(e, n) == total(a, n) + total(b, n) + total(c, n) + total(d, n),
    decreases n,
{
    if n > 0 {
        lemma_four_totals(a, b, c, d, e, (n - 1) as nat);
    }
}

/// The error that a mode 6 block is polished by is the squared distance of the
/// texels from those that it decodes to.
pub proof fn law_mode6_error_is_decoded(px: Seq<Seq<u8>>, q: (Seq<u8>, Seq<u8>), p0: int, p1: int, idx: Seq<u8>)
    requires
        parts_fit(q.0, p0, q.1, p1, idx),
    ensures
        error6(px, q, p0, p1, idx) == texels_error(px, mode6_texels(mode6_bytes(q.0, p0, q.1, p1, idx))),
{
    let texels = mode6_texels(mode6_bytes(q.0, p0, q.1, p1, idx));
    let whole = Seq::new(16, |i: int| rgba_distance(px[i], texel_of(texels, i)));
    let part = |c: int| channel_costs6(px, c, 2 * q.0[c] + p0, 2 * q.1[c] + p1, idx);
    assert forall|i: int| 0 <= i < 16 implies #[trigger] whole[i] == part(0)[i] + part(1)[i] + part(2)[i] + part(3)[i] by {
        lemma_texel_channel(px, q, p0, p1, idx, i, 0);
        lemma_texel_channel(px, q, p0, p1, idx, i, 1);
        lemma_texel_channel(px, q, p0, p1, idx, i, 2);
        lemma_texel_channel(px, q, p0, p1, idx, i, 3);
    }
    lemma_four_totals(part(0), part(1), part(2), part(3), whole, 16);
}

proof fn lemma_texel_channel(px: Seq<Seq<u8>>, q: (Seq<u8>, Seq<u8>), p0: int, p1: int, idx: Seq<u8>, i: int, c: int)
    requires
        parts_fit(q.0, p0, q.1, p1, idx),
        0 <= i < 16,
        0 <= c < 4,
    ensures
        texel_of(mode6_texels(mode6_bytes(q.0, p0, q.1, p1, idx)), i)[c] == interp64(
            weights4()[idx[i] as int],
            2 * q.0[c] + p0,
            2 * q.1[c] + p1,
        ),
{
    law_mode6_block_decodes(q.0, p0, q.1, p1, idx, i, c);
    let texels = mode6_texels(mode6_bytes(q.0, p0, q.1, p1, idx));
    assert(texel_of(texels, i)[c] == texels[4 * i + c]);
    assert(q.0[c] < 128 && q.1[c] < 128 && idx[i] < 16);
    lemma_interp64(weights4()[idx[i] as int], 2 * q.0[c] + p0, 2 * q.1[c] + p1);
}

/// A BC7 block that a decoder takes: sixteen bytes, the first of which names a
/// mode.
pub open spec fn legal7(block: Seq<u8>) -> bool {
    block.len() == 16 && block[0] != 0
}

/// The first field of a bit string stands in the low bits of its first byte.
proof fn lemma_first_byte(f: Seq<(int, nat)>, val: int, n: nat)
    requires
        f.len() > 0,
        f[0] == (val, n),
        n == 2 || n == 5 || n == 6 || n == 7,
        0 < val < pow2(n),
    ensures
        legal7(le_bytes(bit_string(f, 0), 16)),
{
    vstd::arithmetic::power2::lemma2_to64();
    let v = bit_string(f, 0);
    let rest = bit_string(f, 1);
    let p = pow2(n) as int;
    vstd::arithmetic::div_mod::lemma_small_mod(val as nat, pow2(n));
    assert(v == val + p * rest);
    let b = le_bytes(v, 16)[0];
    assert(b == v % 256);
    if n == 2 {
        assert(v == val + 4 * rest);
    } else if n == 5 {
        assert(v == val + 32 * rest);
    } else if n == 6 {
        assert(v == val + 64 * rest);
    } else {
        assert(v == val + 128 * rest);
    }
    assert(v % 256 != 0);
}

proof fn lemma_mode6_legal(q0: Seq<u8>, p0: int, q1: Seq<u8>, p1: int, idx: Seq<u8>)
    ensures
        legal7(mode6_bytes(q0, p0, q1, p1, idx)),
{
    reveal(mode6_bytes);
    vstd::arithmetic::power2::lemma2_to64();
    lemma_first_byte(mode6_fields(q0, p0, q1, p1, idx), 64, 7);
}

proof fn lemma_mode5_legal(px: Seq<Seq<u8>>, rot: int)
    ensures
        legal7(mode5_block(px, rot).0),
{
    reveal(mode5_block);
    vstd::arithmetic::power2::lemma2_to64();
    let c = color_search(px, true);
    let a = mode5_alpha(px);
    lemma_first_byte(mode5_fields(rot, c, a), 32, 6);
}

proof fn lemma_mode4_legal(px: Seq<Seq<u8>>)
    ensures
        legal7(mode4_block(px).0),
{
    reveal(mode4_block);
    vstd::arithmetic::power2::lemma2_to64();
    let c = color_search(px, false);
    let a = mode4_alpha(px);
    lemma_first_byte(mode4_fields(c, a), 16, 5);
}

proof fn lemma_mode1_search_legal(px: Seq<Seq<u8>>, st: Scored, k: nat)
    requires
        legal7(st.0),
    ensures
        legal7(mode1_search(px, st, k).0),
    decreases k,
{
    if k > 0 {
        let before = mode1_search(px, st, (k - 1) as nat);
        lemma_mode1_search_legal(px, st, (k - 1) as nat);
        let part = shortlist()[k - 1];
        if let Some(c) = partition_fit(px, part, before.1) {
            lemma_partition_legal(px, part, before.1);
        }
    }
}

proof fn lemma_partition_legal(px: Seq<Seq<u8>>, part: int, limit: int)
    ensures
        partition_fit(px, part, limit) matches Some(c) ==> legal7(c.0),
{
    let l0 = subset_texels(px, part, 0);
    let l1 = subset_texels(px, part, 1);
    if let Some(f0) = subset_fit(l0, brightest(l0), darkest(l0), budget_of(limit)) {
        if let Some(f1) = subset_fit(l1, brightest(l1), darkest(l1), budget_of(limit - f0.4)) {
            reveal(mode1_bytes);
            vstd::arithmetic::power2::lemma2_to64();
            let raw = raw_indices(part, f0, f1);
            let x = flips(part, raw, 0);
            let y = flips(part, raw, 1);
            lemma_first_byte(
                mode1_fields(
                    part,
                    stored_first(f0, x),
                    stored_second(f0, x),
                    stored_first(f1, y),
                    stored_second(f1, y),
                    f0.2,
                    f1.2,
                    stored_indices(part, raw),
                ),
                2,
                2,
            );
        }
    }
}

/// The plain BC7 encoder gives legal blocks.
pub proof fn law_bc7_blocks_are_legal(px: Seq<Seq<u8>>)
    ensures
        legal7(bc7_encoded(px).0),
{
    let f = best_fit6(px);
    let st0 = (fit6_bytes(f), f.5);
    lemma_mode6_legal(f.0, f.1, f.2, f.3, f.4);
    lemma_mode5_legal(px, 0);
    lemma_mode4_legal(px);
    lemma_mode5_legal(rotated(px, 0), 1);
    lemma_mode5_legal(rotated(px, 1), 2);
    lemma_mode5_legal(rotated(px, 2), 3);
    let st1 = if st0.1 > 0 && channel_span_of(px, 3) > 2 {
        better(better(st0, mode5_block(px, 0)), mode4_block(px))
    } else {
        st0
    };
    lemma_mode1_search_legal(px, st1, 8);
}

proof fn lemma_donors7_legal(px: Seq<Seq<u8>>, st: Choice7, emitted: Seq<Seq<u8>>, lam: u32, k: nat)
    requires
        legal7(st.0),
    ensures
        legal7(donors_tried7(px, st, emitted, lam, k).0),
    decreases k,
{
    if k > 0 {
        let before = donors_tried7(px, st, emitted, lam, (k - 1) as nat);
        lemma_donors7_legal(px, st, emitted, lam, (k - 1) as nat);
        reveal(donor_tried);
        if let Some(d) = parts6(slot(emitted, k - 1)) {
            let a = tail_tried(px, before, d, lam);
            if let Some((e0, e1)) = ls_endpoints(px, float_weights4(d.4), 4) {
                let p0 = best_low_bit(e0);
                let q = polished6(px, (levels7(e0, p0), levels7(e1, d.3)), p0, d.3, d.4, 2);
                lemma_mode6_legal(q.0, p0, q.1, d.3, d.4);
            }
            let i0 = fit_indices(rgba_costs(px, interp_rows(bytes7(d.0, d.1), bytes7(d.2, 0), weights4())));
            let i1 = fit_indices(rgba_costs(px, interp_rows(bytes7(d.0, d.1), bytes7(d.2, 1), weights4())));
            lemma_mode6_legal(d.0, d.1, d.2, 0, i0);
            lemma_mode6_legal(d.0, d.1, d.2, 1, i1);
        }
    }
}

/// Under any strength every BC7 block that is emitted is legal: the pass moves
/// the rate and the quality, never whether the payload decodes.
pub proof fn law_bc7_rdo_blocks_are_legal(rgba: Seq<u8>, w: int, h: int, lambda: u32, n: nat)
    requires
        w > 0,
    ensures
        rdo_blocks7(rgba, w, h, lambda, n).len() == n,
        forall|i: int| 0 <= i < n ==> legal7(#[trigger] rdo_blocks7(rgba, w, h, lambda, n)[i]),
    decreases n,
{
    if n > 0 {
        law_bc7_rdo_blocks_are_legal(rgba, w, h, lambda, (n - 1) as nat);
        let emitted = rdo_blocks7(rgba, w, h, lambda, (n - 1) as nat);
        let px = block_at(rgba, w, h, n - 1);
        let base = bc7_encoded(px).0;
        let row = block_count(w);
        law_bc7_blocks_are_legal(px);
        reveal(rdo_block7);
        let err = decoded_error7(px, base);
        if err != 0 && emitted.len() > 0 {
            let lam = masked(lambda, err, 256);
            let st0: Choice7 = (
                base,
                difference(of_int(err), product(lam, natural_saving7(base, emitted, row))),
            );
            let prev = emitted[emitted.len() - 1];
            assert(legal7(prev));
            let st1 = tried7(st0, prev, decoded_error7(px, prev), lam, save_block());
            let st2 = if emitted.len() >= row {
                let above = emitted[emitted.len() - row];
                assert(legal7(above));
                tried7(st1, above, decoded_error7(px, above), lam, save_block())
            } else {
                st1
            };
            lemma_donors7_legal(px, st2, emitted, lam, filled(emitted) as nat);
        }
        let next = rdo_blocks7(rgba, w, h, lambda, n);
        assert forall|i: int| 0 <= i < n implies legal7(#[trigger] next[i]) by {
            if i < n - 1 {
                assert(next[i] == emitted[i]);
            }
        }
    }
}

/// A candidate of eight bytes, where there is one.
pub open spec fn eight(cand: Option<(Seq<u8>, int)>) -> bool {
    cand matches Some((b, _)) ==> b.len() == 8
}

proof fn lemma_bytes_len(c0: int, c1: int, table: int)
    ensures
        block_bytes(c0, c1, table).len() == 8,
{
}

pub proof fn lemma_refitted_len(px: Seq<Seq<u8>>, table: int)
    ensures
        eight(with_error(px, refitted(px, table))),
{
    reveal(refitted);
    if let Some((a, b)) = ls_endpoints(px, bc1_weights(digits_of(table, 4, 16)), 3) {
        lemma_bytes_len(word565(a), word565(b), table);
    }
}

pub proof fn lemma_endpoints_len(px: Seq<Seq<u8>>, donor: Seq<u8>)
    ensures
        eight(same_endpoints(px, donor)),
{
    reveal(four_colour);
    let costs = rgb_costs(px, palette_four(le16(donor, 0), le16(donor, 2)));
    lemma_bytes_len(le16(donor, 0), le16(donor, 2), number_of(fit_indices(costs), 4, 0));
}

proof fn lemma_tried_len(st: Choice, cand: Option<(Seq<u8>, int)>, lam: u32, weight: u32, save: u32, class: Class)
    requires
        st.0.len() == 8,
        eight(cand),
    ensures
        tried(st, cand, lam, weight, save, class).0.len() == 8,
{
}

proof fn lemma_donors_len(px: Seq<Seq<u8>>, st: Choice, emitted: Seq<Seq<u8>>, lam: u32, k: nat)
    requires
        st.0.len() == 8,
    ensures
        donors_tried(px, st, emitted, lam, k).0.len() == 8,
    decreases k,
{
    if k > 0 {
        let before = donors_tried(px, st, emitted, lam, (k - 1) as nat);
        lemma_donors_len(px, st, emitted, lam, (k - 1) as nat);
        let donor = slot(emitted, k - 1);
        let first = with_error(px, refitted(px, le32(donor, 4)));
        lemma_refitted_len(px, le32(donor, 4));
        lemma_endpoints_len(px, donor);
        lemma_tried_len(before, first, lam, lam, save_part(), Class::Table);
        let mid = tried(before, first, lam, lam, save_part(), Class::Table);
        lemma_tried_len(mid, same_endpoints(px, donor), lam, lam, save_part(), Class::Endpoints);
    }
}

proof fn lemma_dictionary_len(px: Seq<Seq<u8>>, st: Choice, emitted: Seq<Seq<u8>>, dict: Seq<u32>, lam: u32, k: nat)
    requires
        st.0.len() == 8,
    ensures
        dictionary_tried(px, st, emitted, dict, lam, k).0.len() == 8,
    decreases k,
{
    if k > 0 {
        let before = dictionary_tried(px, st, emitted, dict, lam, (k - 1) as nat);
        lemma_dictionary_len(px, st, emitted, dict, lam, (k - 1) as nat);
        let table = dict[k - 1] as int;
        lemma_refitted_len(px, table);
        lemma_tried_len(before, with_error(px, refitted(px, table)), lam, lam, save_part(), Class::Table);
    }
}

proof fn lemma_rdo_block_len(
    px: Seq<Seq<u8>>,
    base: Seq<u8>,
    emitted: Seq<Seq<u8>>,
    row: int,
    dict: Seq<u32>,
    lambda: u32,
)
    requires
        base.len() == 8,
        emitted.len() > 0 ==> emitted[emitted.len() - 1].len() == 8,
    ensures
        rdo_block(px, base, emitted, row, dict, lambda).len() == 8,
{
    reveal(rdo_block);
    let err = block_error(px, base);
    let lam = masked(lambda, err, 192);
    let st0: Choice = (
        base,
        difference(of_int(err), product(lam, natural_saving(base, emitted, row))),
        Class::Base,
    );
    lemma_bytes_len(0, 0, 0);
    if err != 0 {
        let st = if emitted.len() == 0 {
            st0
        } else {
            let prev = emitted[emitted.len() - 1];
            let cand = Some((prev, block_error(px, prev)));
            lemma_tried_len(st0, cand, lam, lambda, save_whole(), Class::Whole);
            let st1 = tried(st0, cand, lam, lambda, save_whole(), Class::Whole);
            lemma_donors_len(px, st1, emitted, lam, filled(emitted) as nat);
            let st2 = donors_tried(px, st1, emitted, lam, filled(emitted) as nat);
            lemma_dictionary_len(px, st2, emitted, dict, lam, dict.len());
            dictionary_tried(px, st2, emitted, dict, lam, dict.len())
        };
        let w = polished(px, (le16(st.0, 0), le16(st.0, 2)), le32(st.0, 4), 2);
        lemma_bytes_len(w.0, w.1, le32(st.0, 4));
    }
}

/// Under any strength every BC1 block that is emitted has eight bytes, which is
/// all that a BC1 block needs to be legal.
pub proof fn law_bc1_rdo_blocks_are_legal(
    rgba: Seq<u8>,
    w: int,
    h: int,
    q: EncodeQuality,
    dict: Seq<u32>,
    lambda: u32,
    n: nat,
)
    requires
        w > 0,
    ensures
        rdo_blocks(rgba, w, h, q, dict, lambda, n).len() == n,
        forall|i: int| 0 <= i < n ==> (#[trigger] rdo_blocks(rgba, w, h, q, dict, lambda, n)[i]).len() == 8,
    decreases n,
{
    if n > 0 {
        law_bc1_rdo_blocks_are_legal(rgba, w, h, q, dict, lambda, (n - 1) as nat);
        let emitted = rdo_blocks(rgba, w, h, q, dict, lambda, (n - 1) as nat);
        let px = block_at(rgba, w, h, n - 1);
        assert(is_block(px));
        lemma_bc1_encoded(px, q);
        lemma_rdo_block_len(px, bc1_encoded(px, q).0, emitted, block_count(w), dict, lambda);
        let next = rdo_blocks(rgba, w, h, q, dict, lambda, n);
        assert forall|i: int| 0 <= i < n implies (#[trigger] next[i]).len() == 8 by {
            if i < n - 1 {
                assert(next[i] == emitted[i]);
            }
        }
    }
}

} // verus!
