//! What mode 1 blocks decode to.

use vstd::arithmetic::power2::pow2;
use vstd::prelude::*;

use crate::decode::bcn::{bc7_rgba, block_number, fixup_of, index_offset, index_width, law_partitions_use_both_subsets, mode1_texels, subset_of, BC7_P2_SUBSET};
use crate::encode::blocks::bc7::{brightest, darkest, interp64, interp_rows, weights3};
use crate::encode::blocks::laws::{lemma_block_number, lemma_digit_below, texel_of};
use crate::encode::blocks::m1::{anchored_fields, both_bits, budget_of, bytes6, flips, float_weights3, lemma_member_rank, level6_byte, level6_costs, levels6, members, mode1_bytes, mode1_fields, partition_fit, raw_indices, stored_first, stored_indices, stored_second, subset_candidate, subset_fit, subset_texels, SubsetFit};
use crate::encode::blocks::lsq::ls_endpoints;
use crate::encode::blocks::rdo7::{decoded_costs7, decoded_error7};
use crate::encode::blocks::{rgb_costs, rgb_distance};
use crate::model::{best_of, bit_field, bit_string, bit_width, fit_costs, fit_error, fit_indices, le_bytes, lemma_bit_field_of_string, lemma_bit_string_bound, lemma_first_min_in, lemma_sq, lemma_total_eq, total};

verus! {

/// A bit string that fills a block gives back each of its fields.
pub proof fn lemma_field_of_block(f: Seq<(int, nat)>, j: nat, off: nat, val: int, n: nat)
    requires
        j < f.len(),
        f[j as int] == (val, n),
        0 <= val < pow2(n),
        off == bit_width(f, j),
        bit_width(f, f.len()) == 128,
    ensures
        bit_field(block_number(le_bytes(bit_string(f, 0), 16), 0), off, n) == val,
{
    lemma_bit_string_bound(f, 0);
    assert(bit_width(f, 0) == 0);
    lemma_block_number(bit_string(f, 0));
    lemma_bit_field_of_string(f, j);
    vstd::arithmetic::div_mod::lemma_small_mod(val as nat, pow2(n));
}

/// The stored parts of a mode 1 block.
pub struct Parts1 {
    pub part: int,
    pub a0: Seq<u8>,
    pub a1: Seq<u8>,
    pub b0: Seq<u8>,
    pub b1: Seq<u8>,
    pub p0: int,
    pub p1: int,
    pub idx: Seq<u8>,
}

impl Parts1 {
    /// The bit fields.
    pub open spec fn fields(self) -> Seq<(int, nat)> {
        mode1_fields(self.part, self.a0, self.a1, self.b0, self.b1, self.p0, self.p1, self.idx)
    }

    /// The bytes.
    pub open spec fn bytes(self) -> Seq<u8> {
        le_bytes(bit_string(self.fields(), 0), 16)
    }

    /// Endpoint `e` of four: both of subset 0, then both of subset 1.
    pub open spec fn endpoint(self, e: int) -> Seq<u8> {
        if e == 0 {
            self.a0
        } else if e == 1 {
            self.a1
        } else if e == 2 {
            self.b0
        } else {
            self.b1
        }
    }

    /// The parts fit their fields: the anchors are one bit narrower.
    pub open spec fn fit(self) -> bool {
        &&& 0 <= self.part < 64
        &&& forall|e: int, c: int| 0 <= e < 4 && 0 <= c < 3 ==> #[trigger] self.endpoint(e)[c] < 64
        &&& 0 <= self.p0 < 2
        &&& 0 <= self.p1 < 2
        &&& forall|i: int| 0 <= i < 16 ==> #[trigger] self.idx[i] < 8
        &&& self.idx[0] < 4
        &&& self.idx[fixup_of(self.part)] < 4
    }

    proof fn lemma_widths(self, j: nat)
        requires
            0 <= self.part < 64,
            j <= 32,
        ensures
            bit_width(self.fields(), j) as int == (if j == 0 {
                0int
            } else if j == 1 {
                2
            } else if j <= 14 {
                8 + 6 * (j - 2)
            } else if j == 15 {
                81
            } else {
                index_offset(82, 3, fixup_of(self.part), j - 16)
            }),
            self.fields().len() == 32,
        decreases j,
    {
        law_partitions_use_both_subsets(self.part);
        if j > 0 {
            self.lemma_widths((j - 1) as nat);
            let f = self.fields();
            if j - 1 >= 16 {
                assert(f[j - 1] == anchored_fields(self.idx, fixup_of(self.part), 3)[j - 17]);
            }
        }
    }

    proof fn lemma_field(self, j: nat, off: nat, val: int, n: nat)
        requires
            0 <= self.part < 64,
            j < 32,
            self.fields()[j as int] == (val, n),
            0 <= val < pow2(n),
            off == bit_width(self.fields(), j),
        ensures
            bit_field(block_number(self.bytes(), 0), off, n) == val,
    {
        law_partitions_use_both_subsets(self.part);
        self.lemma_widths(32);
        lemma_field_of_block(self.fields(), j, off, val, n);
    }

    proof fn lemma_reads_part(self)
        requires
            self.fit(),
        ensures
            bit_field(block_number(self.bytes(), 0), 0, 2) == 2,
            bit_field(block_number(self.bytes(), 0), 2, 6) == self.part,
            bit_field(block_number(self.bytes(), 0), 80, 1) == self.p0,
            bit_field(block_number(self.bytes(), 0), 81, 1) == self.p1,
    {
        vstd::arithmetic::power2::lemma2_to64();
        assert(pow2(1) == 2 && pow2(2) == 4 && pow2(6) == 64);
        self.lemma_widths(0);
        self.lemma_widths(1);
        self.lemma_widths(14);
        self.lemma_widths(15);
        self.lemma_field(0, 0, 2, 2);
        self.lemma_field(1, 2, self.part, 6);
        self.lemma_field(14, 80, self.p0, 1);
        self.lemma_field(15, 81, self.p1, 1);
    }

    proof fn lemma_reads_endpoint(self, e: int, c: int)
        requires
            self.fit(),
            0 <= e < 4,
            0 <= c < 3,
        ensures
            bit_field(block_number(self.bytes(), 0), (8 + 24 * c + 6 * e) as nat, 6) == self.endpoint(e)[c],
    {
        vstd::arithmetic::power2::lemma2_to64();
        assert(pow2(6) == 64);
        let j = (2 + 4 * c + e) as nat;
        self.lemma_widths(j);
        assert(self.fields()[j as int] == (self.endpoint(e)[c] as int, 6nat));
        self.lemma_field(j, (8 + 24 * c + 6 * e) as nat, self.endpoint(e)[c] as int, 6);
    }

    proof fn lemma_reads_index(self, p: int)
        requires
            self.fit(),
            0 <= p < 16,
        ensures
            bit_field(
                block_number(self.bytes(), 0),
                index_offset(82, 3, fixup_of(self.part), p) as nat,
                index_width(3, fixup_of(self.part), p) as nat,
            ) == self.idx[p],
    {
        vstd::arithmetic::power2::lemma2_to64();
        assert(pow2(2) == 4 && pow2(3) == 8);
        law_partitions_use_both_subsets(self.part);
        let j = (16 + p) as nat;
        self.lemma_widths(j);
        assert(self.fields()[j as int] == anchored_fields(self.idx, fixup_of(self.part), 3)[p]);
        self.lemma_field(
            j,
            index_offset(82, 3, fixup_of(self.part), p) as nat,
            self.idx[p] as int,
            index_width(3, fixup_of(self.part), p) as nat,
        );
    }

    /// A packed mode 1 block decodes to the interpolation of its subsets'
    /// endpoints by the weights of its indices.
    pub proof fn law_mode1_block_decodes(self, p: int, c: int)
        requires
            self.fit(),
            0 <= p < 16,
            0 <= c < 3,
        ensures
            ({
                let s = subset_of(self.part, p);
                let bit = if s == 0 {
                    self.p0
                } else {
                    self.p1
                };
                mode1_texels(self.bytes())[4 * p + c] == interp64(
                    weights3()[self.idx[p] as int],
                    level6_byte(self.endpoint(2 * s)[c] as int, bit),
                    level6_byte(self.endpoint(2 * s + 1)[c] as int, bit),
                ) as u8
            }),
            mode1_texels(self.bytes())[4 * p + 3] == 255,
            self.bytes()[0] % 4 == 2,
    {
        let v = block_number(self.bytes(), 0);
        self.lemma_reads_part();
        self.lemma_reads_index(p);
        let s = subset_of(self.part, p);
        lemma_digit_below(
            BC7_P2_SUBSET@[self.part] as int,
            2,
            p as nat,
        );
        assert(s == 0 || s == 1);
        self.lemma_reads_endpoint(2 * s, c);
        self.lemma_reads_endpoint(2 * s + 1, c);
        assert((2 * s) / 2 == s && (2 * s + 1) / 2 == s);
        assert((4 * p + c) / 4 == p && (4 * p + c) % 4 == c);
        assert((4 * p + 3) / 4 == p && (4 * p + 3) % 4 == 3);
        vstd::arithmetic::power2::lemma2_to64();
        assert(pow2(0) == 1 && pow2(2) == 4);
        let b = self.bytes();
        assert(v == b[0] + 256 * block_number(b, 1));
        assert(v / 1 == v);
        assert(v % 4 == b[0] as int % 4) by (nonlinear_arith)
            requires
                v == b[0] + 256 * block_number(b, 1),
        ;
    }
}

/// The palette of a subset's fit.
pub open spec fn subset_palette(f: SubsetFit) -> Seq<Seq<u8>> {
    interp_rows(bytes6(f.0, f.2), bytes6(f.1, f.2), weights3())
}

/// What every fit of a subset is: levels and a low bit in range, the nearest
/// entry for each texel, scored by the error it leaves.
pub open spec fn sound_subset(list: Seq<Seq<u8>>, f: SubsetFit) -> bool {
    &&& f.0.len() == 3
    &&& f.1.len() == 3
    &&& forall|c: int| 0 <= c < 3 ==> #[trigger] f.0[c] < 64
    &&& forall|c: int| 0 <= c < 3 ==> #[trigger] f.1[c] < 64
    &&& 0 <= f.2 < 2
    &&& f.3 == fit_indices(rgb_costs(list, subset_palette(f)))
    &&& f.4 == fit_error(rgb_costs(list, subset_palette(f)))
}

proof fn lemma_candidate_sound(list: Seq<Seq<u8>>, s0: Seq<u8>, s1: Seq<u8>, p: int)
    requires
        0 <= p < 2,
    ensures
        sound_subset(list, subset_candidate(list, s0, s1, p)),
{
    reveal(subset_candidate);
    assert forall|c: int| 0 <= c < 3 implies #[trigger] levels6(s0, p)[c] < 64 by {
        lemma_first_min_in(level6_costs(s0[c] as int, p), 64);
    }
    assert forall|c: int| 0 <= c < 3 implies #[trigger] levels6(s1, p)[c] < 64 by {
        lemma_first_min_in(level6_costs(s1[c] as int, p), 64);
    }
}

proof fn lemma_both_bits_sound(list: Seq<Seq<u8>>, st: Option<SubsetFit>, s0: Seq<u8>, s1: Seq<u8>, budget: int)
    requires
        st matches Some(f) ==> sound_subset(list, f),
    ensures
        both_bits(list, st, s0, s1, budget) matches Some(f) ==> sound_subset(list, f),
{
    lemma_candidate_sound(list, s0, s1, 0);
    lemma_candidate_sound(list, s0, s1, 1);
}

proof fn lemma_subset_fit_sound(list: Seq<Seq<u8>>, s0: Seq<u8>, s1: Seq<u8>, budget: int)
    ensures
        subset_fit(list, s0, s1, budget) matches Some(f) ==> sound_subset(list, f),
{
    lemma_both_bits_sound(list, None, s0, s1, budget);
    if let Some(f) = both_bits(list, None, s0, s1, budget) {
        if let Some((a, b)) = ls_endpoints(list, float_weights3(f.3), 3) {
            lemma_both_bits_sound(list, Some(f), a, b, budget);
        }
    }
}

/// The stored parts of a partition's two fits.
pub open spec fn stored_parts(part: int, f0: SubsetFit, f1: SubsetFit) -> Parts1 {
    let raw = raw_indices(part, f0, f1);
    let x = flips(part, raw, 0);
    let y = flips(part, raw, 1);
    Parts1 {
        part,
        a0: stored_first(f0, x),
        a1: stored_second(f0, x),
        b0: stored_first(f1, y),
        b1: stored_second(f1, y),
        p0: f0.2,
        p1: f1.2,
        idx: stored_indices(part, raw),
    }
}

/// The fit of the subset that pixel `i` belongs to.
pub open spec fn fit_at(part: int, f0: SubsetFit, f1: SubsetFit, i: int) -> SubsetFit {
    if subset_of(part, i) == 0 {
        f0
    } else {
        f1
    }
}

proof fn lemma_subset_is_bit(part: int, i: int)
    requires
        0 <= part < 64,
        0 <= i < 16,
    ensures
        subset_of(part, i) == 0 || subset_of(part, i) == 1,
{
    lemma_digit_below(BC7_P2_SUBSET@[part] as int, 2, i as nat);
}

/// Pixel `i`'s raw index is its subset's nearest entry.
proof fn lemma_raw_index(px: Seq<Seq<u8>>, part: int, f0: SubsetFit, f1: SubsetFit, i: int)
    requires
        0 <= part < 64,
        0 <= i < 16,
        px.len() == 16,
        sound_subset(subset_texels(px, part, 0), f0),
        sound_subset(subset_texels(px, part, 1), f1),
    ensures
        ({
            let s = subset_of(part, i);
            let f = fit_at(part, f0, f1, i);
            let k = members(part, s, i as nat).len() as int;
            let list = subset_texels(px, part, s);
            let raw = raw_indices(part, f0, f1)[i] as int;
            &&& raw == f.3[k]
            &&& 0 <= raw < 8
            &&& 0 <= k < list.len()
            &&& list[k] == px[i]
            &&& fit_costs(rgb_costs(list, subset_palette(f)))[k] == rgb_distance(px[i], subset_palette(f)[raw])
        }),
{
    lemma_subset_is_bit(part, i);
    lemma_member_rank(part, i);
    let s = subset_of(part, i);
    let f = fit_at(part, f0, f1, i);
    let k = members(part, s, i as nat).len() as int;
    let list = subset_texels(px, part, s);
    let costs = rgb_costs(list, subset_palette(f));
    assert(costs[k].len() == 8);
    lemma_first_min_in(costs[k], 8);
    assert(f.3[k] == best_of(costs[k]) as u8);
}

proof fn lemma_stored_parts_fit(px: Seq<Seq<u8>>, part: int, f0: SubsetFit, f1: SubsetFit)
    requires
        0 <= part < 64,
        px.len() == 16,
        sound_subset(subset_texels(px, part, 0), f0),
        sound_subset(subset_texels(px, part, 1), f1),
    ensures
        stored_parts(part, f0, f1).fit(),
{
    law_partitions_use_both_subsets(part);
    let raw = raw_indices(part, f0, f1);
    let q = stored_parts(part, f0, f1);
    assert forall|i: int| 0 <= i < 16 implies #[trigger] q.idx[i] < 8 by {
        lemma_raw_index(px, part, f0, f1, i);
    }
    lemma_raw_index(px, part, f0, f1, 0);
    lemma_raw_index(px, part, f0, f1, fixup_of(part));
    assert forall|e: int, c: int| 0 <= e < 4 && 0 <= c < 3 implies #[trigger] q.endpoint(e)[c] < 64 by {
        assert(f0.0[c] < 64 && f0.1[c] < 64 && f1.0[c] < 64 && f1.1[c] < 64);
    }
}

proof fn lemma_mirrored(k: int, x: int, y: int)
    requires
        0 <= k < 8,
    ensures
        interp64(weights3()[7 - k], y, x) == interp64(weights3()[k], x, y),
{
    let w = weights3()[k];
    assert(weights3()[7 - k] == 64 - w);
    assert((64 - (64 - w)) * y + (64 - w) * x == (64 - w) * x + w * y);
}

/// Channel `c` of a palette entry.
proof fn lemma_palette_entry(f: SubsetFit, k: int, c: int)
    requires
        0 <= k < 8,
        0 <= c < 3,
        f.0.len() == 3,
        f.0[c] < 64,
        f.1[c] < 64,
        0 <= f.2 < 2,
    ensures
        subset_palette(f)[k][c] == interp64(
            weights3()[k],
            level6_byte(f.0[c] as int, f.2),
            level6_byte(f.1[c] as int, f.2),
        ) as u8,
{
    let (x, y) = (level6_byte(f.0[c] as int, f.2), level6_byte(f.1[c] as int, f.2));
    assert(0 <= x <= 255 && 0 <= y <= 255);
    assert(bytes6(f.0, f.2)[c] == x && bytes6(f.1, f.2)[c] == y);
}

/// The stored endpoints, low bit and index of pixel `i` are its subset's, in
/// one order or the other.
proof fn lemma_stored_for_pixel(px: Seq<Seq<u8>>, part: int, f0: SubsetFit, f1: SubsetFit, i: int)
    requires
        0 <= part < 64,
        0 <= i < 16,
        px.len() == 16,
        sound_subset(subset_texels(px, part, 0), f0),
        sound_subset(subset_texels(px, part, 1), f1),
    ensures
        ({
            let q = stored_parts(part, f0, f1);
            let f = fit_at(part, f0, f1, i);
            let s = subset_of(part, i);
            let raw = raw_indices(part, f0, f1)[i];
            &&& 0 <= raw < 8
            &&& (if s == 0 {
                q.p0
            } else {
                q.p1
            }) == f.2
            &&& (q.idx[i] == raw && q.endpoint(2 * s) == f.0 && q.endpoint(2 * s + 1) == f.1) || (q.idx[i] == 7 - raw
                && q.endpoint(2 * s) == f.1 && q.endpoint(2 * s + 1) == f.0)
        }),
{
    lemma_raw_index(px, part, f0, f1, i);
    lemma_subset_is_bit(part, i);
}

proof fn lemma_decoded_channel(px: Seq<Seq<u8>>, part: int, f0: SubsetFit, f1: SubsetFit, i: int, c: int)
    requires
        0 <= part < 64,
        0 <= i < 16,
        0 <= c < 3,
        px.len() == 16,
        sound_subset(subset_texels(px, part, 0), f0),
        sound_subset(subset_texels(px, part, 1), f1),
    ensures
        mode1_texels(stored_parts(part, f0, f1).bytes())[4 * i + c] == subset_palette(
            fit_at(part, f0, f1, i),
        )[raw_indices(part, f0, f1)[i] as int][c],
        mode1_texels(stored_parts(part, f0, f1).bytes())[4 * i + 3] == 255,
{
    lemma_stored_parts_fit(px, part, f0, f1);
    lemma_stored_for_pixel(px, part, f0, f1, i);
    let q = stored_parts(part, f0, f1);
    let f = fit_at(part, f0, f1, i);
    let raw = raw_indices(part, f0, f1)[i] as int;
    q.law_mode1_block_decodes(i, c);
    assert(f.0[c] < 64 && f.1[c] < 64);
    lemma_palette_entry(f, raw, c);
    lemma_mirrored(raw, level6_byte(f.0[c] as int, f.2), level6_byte(f.1[c] as int, f.2));
}

/// What pixel `i` decodes to is its subset's nearest entry.
proof fn lemma_decoded_pixel(px: Seq<Seq<u8>>, part: int, f0: SubsetFit, f1: SubsetFit, i: int)
    requires
        0 <= part < 64,
        0 <= i < 16,
        px.len() == 16,
        sound_subset(subset_texels(px, part, 0), f0),
        sound_subset(subset_texels(px, part, 1), f1),
    ensures
        ({
            let texel = texel_of(mode1_texels(mode1_bytes(part, f0, f1)), i);
            let entry = subset_palette(fit_at(part, f0, f1, i))[raw_indices(part, f0, f1)[i] as int];
            &&& texel[0] == entry[0]
            &&& texel[1] == entry[1]
            &&& texel[2] == entry[2]
            &&& texel[3] == 255
        }),
{
    assert(mode1_bytes(part, f0, f1) == stored_parts(part, f0, f1).bytes()) by {
        reveal(mode1_bytes);
    }
    lemma_decoded_channel(px, part, f0, f1, i, 0);
    lemma_decoded_channel(px, part, f0, f1, i, 1);
    lemma_decoded_channel(px, part, f0, f1, i, 2);
}

/// The squared distance, over red, green and blue, of a block's texels from
/// sixteen decoded ones.
pub open spec fn texels_rgb_error(px: Seq<Seq<u8>>, texels: Seq<u8>, n: nat) -> int {
    total(Seq::new(16, |i: int| rgb_distance(px[i], texel_of(texels, i))), n)
}

proof fn lemma_errors_add_up(px: Seq<Seq<u8>>, part: int, f0: SubsetFit, f1: SubsetFit, n: nat)
    requires
        0 <= part < 64,
        n <= 16,
        px.len() == 16,
        sound_subset(subset_texels(px, part, 0), f0),
        sound_subset(subset_texels(px, part, 1), f1),
    ensures
        texels_rgb_error(px, mode1_texels(mode1_bytes(part, f0, f1)), n) == total(
            fit_costs(rgb_costs(subset_texels(px, part, 0), subset_palette(f0))),
            members(part, 0, n).len(),
        ) + total(
            fit_costs(rgb_costs(subset_texels(px, part, 1), subset_palette(f1))),
            members(part, 1, n).len(),
        ),
    decreases n,
{
    if n > 0 {
        let i = n - 1;
        lemma_errors_add_up(px, part, f0, f1, i as nat);
        lemma_subset_is_bit(part, i);
        lemma_raw_index(px, part, f0, f1, i);
        lemma_decoded_pixel(px, part, f0, f1, i);
    }
}

/// The error that a mode 1 candidate reports is the squared distance of the
/// texels from those that its block decodes to, which are opaque.
pub proof fn law_mode1_score(px: Seq<Seq<u8>>, part: int, limit: int)
    requires
        px.len() == 16,
        0 <= part < 64,
    ensures
        partition_fit(px, part, limit) matches Some(st) ==> {
            &&& st.1 == texels_rgb_error(px, mode1_texels(st.0), 16)
            &&& st.1 < limit
            &&& st.0[0] % 4 == 2
            &&& forall|i: int| 0 <= i < 16 ==> (#[trigger] texel_of(mode1_texels(st.0), i))[3] == 255
        },
{
    let l0 = subset_texels(px, part, 0);
    let l1 = subset_texels(px, part, 1);
    if let Some(st) = partition_fit(px, part, limit) {
        let f0 = subset_fit(
            l0,
            brightest(l0),
            darkest(l0),
            budget_of(limit),
        ).unwrap();
        let f1 = subset_fit(
            l1,
            brightest(l1),
            darkest(l1),
            budget_of(limit - f0.4),
        ).unwrap();
        lemma_subset_fit_sound(
            l0,
            brightest(l0),
            darkest(l0),
            budget_of(limit),
        );
        lemma_subset_fit_sound(
            l1,
            brightest(l1),
            darkest(l1),
            budget_of(limit - f0.4),
        );
        lemma_errors_add_up(px, part, f0, f1, 16);
        lemma_stored_parts_fit(px, part, f0, f1);
        assert(mode1_bytes(part, f0, f1) == stored_parts(part, f0, f1).bytes()) by {
            reveal(mode1_bytes);
        }
        stored_parts(part, f0, f1).law_mode1_block_decodes(0, 0);
        assert forall|i: int| 0 <= i < 16 implies (#[trigger] texel_of(mode1_texels(st.0), i))[3] == 255 by {
            lemma_decoded_pixel(px, part, f0, f1, i);
        }
    }
}

/// For an opaque block that is the error that the decoder leaves.
pub proof fn law_mode1_score_is_decoded_error(px: Seq<Seq<u8>>, part: int, limit: int)
    requires
        px.len() == 16,
        0 <= part < 64,
        forall|i: int| 0 <= i < 16 ==> (#[trigger] px[i])[3] == 255,
    ensures
        partition_fit(px, part, limit) matches Some(st) ==> st.1 == decoded_error7(px, st.0),
{
    law_mode1_score(px, part, limit);
    if let Some(st) = partition_fit(px, part, limit) {
        reveal(decoded_error7);
        let texels = mode1_texels(st.0);
        assert(bc7_rgba(st.0) == texels);
        let want = Seq::new(16, |i: int| rgb_distance(px[i], texel_of(texels, i)));
        assert forall|i: int| 0 <= i < 16 implies #[trigger] want[i] == decoded_costs7(px, st.0)[i] by {
            let t = texel_of(texels, i);
            lemma_sq(px[i][0] - t[0]);
            lemma_sq(px[i][1] - t[1]);
            lemma_sq(px[i][2] - t[2]);
            lemma_sq(0);
            assert(t[0] - px[i][0] == -(px[i][0] - t[0]));
            assert(t[1] - px[i][1] == -(px[i][1] - t[1]));
            assert(t[2] - px[i][2] == -(px[i][2] - t[2]));
        }
        lemma_total_eq(want, decoded_costs7(px, st.0), 16);
    }
}

} // verus!
