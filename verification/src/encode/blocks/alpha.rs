//! BC4 / BC5 single- and dual-channel blocks, and the alpha half of BC3.
//!
//! A block is two endpoint bytes and sixteen 3-bit indices. Endpoints are
//! unsigned levels 0..=255 or signed-normalised levels -127..=127; either way
//! a candidate is scored in the unsigned domain, by the bytes it decodes to.

use vstd::prelude::*;

use crate::binary32::{add32, clamped, difference, div32, from_int32, less, less32, mul32, of_int, product, quotient, round_clamp_snorm, round_clamp_u8, round_clamped, sub32};
use crate::encode::blocks::bc1::{better, bc1_encoded, encode_bc1_bytes, float_sum, Scored};
use crate::encode::blocks::lsq::{absolute, dot, one_over};
use crate::encode::blocks::sweep::{sweep_gate, swept, window_sweep, worth_sweeping, REACH};
use crate::encode::blocks::{max_int, min_int, EncodeQuality};
use crate::encode::tuning::{sweeps, window_enabled};
use crate::model::{best_of, digit, digits_of, first_min, fit_costs, fit_error, fit_indices, lemma_digits_round_trip, lemma_first_min_in, lemma_first_min_unique, lemma_sq, lemma_total_bound, lemma_total_grows, le_bytes, number_of, rows, splice, sq, sq_diff, store, total};

verus! {

/// The least endpoint level.
pub open spec fn lowest(signed: bool) -> int {
    if signed {
        -127
    } else {
        0
    }
}

/// The greatest endpoint level.
pub open spec fn highest(signed: bool) -> int {
    if signed {
        127
    } else {
        255
    }
}

/// Whether `v` is an endpoint level.
pub open spec fn is_level(v: int, signed: bool) -> bool {
    lowest(signed) <= v <= highest(signed)
}

/// The signed-normalised level nearest to an unsigned byte.
pub open spec fn to_snorm(u: int) -> int {
    (u * 253 + 127) / 254 - 127
}

/// The unsigned byte nearest to a signed-normalised level.
pub open spec fn from_snorm(s: int) -> int {
    ((s + 127) * 255 + 127) / 254
}

/// The level of an unsigned sample.
pub open spec fn level_of_sample(u: u8, signed: bool) -> int {
    if signed {
        to_snorm(u as int)
    } else {
        u as int
    }
}

/// The levels of the samples.
pub open spec fn sample_levels(s: Seq<u8>, signed: bool) -> Seq<int> {
    Seq::new(s.len(), |i: int| level_of_sample(s[i], signed))
}

/// The byte that a level decodes to in the unsigned domain.
pub open spec fn unorm_of(v: int, signed: bool) -> u8 {
    if signed {
        from_snorm(v) as u8
    } else {
        v as u8
    }
}

/// The byte that stores a level.
pub open spec fn stored(v: int) -> u8 {
    if v < 0 {
        (v + 256) as u8
    } else {
        v as u8
    }
}

/// The level that a byte stores.
pub open spec fn level_stored(b: u8, signed: bool) -> int {
    if signed && b >= 128 {
        b - 256
    } else {
        b as int
    }
}

/// Integer UNORM to SNORM, `round(((u / 255) * 2 - 1) * 127)`.
pub fn unorm_u8_to_snorm_i32(u: u8) -> (v: i32)
    ensures
        v == to_snorm(u as int),
        -127 <= v <= 127,
{
    (u as i32 * 253 + 127) / 254 - 127
}

/// SNORM, held to its range, to the nearest UNORM byte.
pub fn snorm_i32_to_unorm_u8(s: i32) -> (u: u8)
    ensures
        u == from_snorm(clamped(s as int, -127, 127)),
{
    let v: i32 = if s < -127 {
        -127
    } else if s > 127 {
        127
    } else {
        s
    };
    (((v + 127) * 255 + 127) / 254) as u8
}

/// A level `w / 65536` of the way from `b` to `a`, rounded to nearest.
pub open spec fn lerp16(w: int, a: int, b: int) -> int {
    b + (w * (a - b) + 32768) / 65536
}

/// The eight levels of an endpoint pair: six steps between them where the
/// first is the larger, else four steps and the two limits.
pub open spec fn alpha_levels(a0: int, a1: int, signed: bool) -> Seq<int> {
    if a0 > a1 {
        seq![
            a0,
            a1,
            lerp16(56173, a0, a1),
            lerp16(46812, a0, a1),
            lerp16(37450, a0, a1),
            lerp16(28086, a0, a1),
            lerp16(18724, a0, a1),
            lerp16(9363, a0, a1),
        ]
    } else {
        seq![
            a0,
            a1,
            lerp16(52429, a0, a1),
            lerp16(39321, a0, a1),
            lerp16(26215, a0, a1),
            lerp16(13107, a0, a1),
            lowest(signed),
            highest(signed),
        ]
    }
}

/// The eight bytes that an endpoint pair's levels decode to.
pub open spec fn alpha_palette(a0: int, a1: int, signed: bool) -> Seq<u8> {
    Seq::new(8, |j: int| unorm_of(alpha_levels(a0, a1, signed)[j], signed))
}

fn lerp_level(w: i32, a: i32, b: i32) -> (v: i32)
    requires
        0 < w < 65536,
        -127 <= a <= 255,
        -127 <= b <= 255,
    ensures
        v == lerp16(w as int, a as int, b as int),
        (a <= v <= b) || (b <= v <= a),
{
    let d: i32 = a - b;
    proof {
        let wd = w * (a - b);
        assert(-382 * 65536 <= wd <= 382 * 65536) by (nonlinear_arith)
            requires
                wd == w * (a - b),
                0 < w < 65536,
                -382 <= a - b <= 382,
        ;
        assert(a - b >= 0 ==> 0 <= wd <= 65535 * (a - b)) by (nonlinear_arith)
            requires
                wd == w * (a - b),
                0 < w < 65536,
        ;
        assert(a - b <= 0 ==> 65535 * (a - b) <= wd <= 0) by (nonlinear_arith)
            requires
                wd == w * (a - b),
                0 < w < 65536,
        ;
        // Shifting by whole steps keeps the floor.
        assert((wd + 32768 + 65536 * 400) / 65536 == (wd + 32768) / 65536 + 400);
    }
    b + ((w * d + 32768 + 65536 * 400) / 65536 - 400)
}

/// The eight levels of an endpoint pair.
pub fn alpha_levels_of(a0: i32, a1: i32, signed: bool) -> (r: [i32; 8])
    requires
        is_level(a0 as int, signed),
        is_level(a1 as int, signed),
    ensures
        forall|j: int| 0 <= j < 8 ==> #[trigger] r@[j] == alpha_levels(a0 as int, a1 as int, signed)[j],
        forall|j: int| 0 <= j < 8 ==> is_level(#[trigger] r@[j] as int, signed),
{
    if a0 > a1 {
        [
            a0,
            a1,
            lerp_level(56173, a0, a1),
            lerp_level(46812, a0, a1),
            lerp_level(37450, a0, a1),
            lerp_level(28086, a0, a1),
            lerp_level(18724, a0, a1),
            lerp_level(9363, a0, a1),
        ]
    } else {
        [
            a0,
            a1,
            lerp_level(52429, a0, a1),
            lerp_level(39321, a0, a1),
            lerp_level(26215, a0, a1),
            lerp_level(13107, a0, a1),
            if signed {
                -127
            } else {
                0
            },
            if signed {
                127
            } else {
                255
            },
        ]
    }
}

/// The eight bytes that an endpoint pair's levels decode to.
pub fn alpha_palette_of(a0: i32, a1: i32, signed: bool) -> (r: [u8; 8])
    requires
        is_level(a0 as int, signed),
        is_level(a1 as int, signed),
    ensures
        r@ == alpha_palette(a0 as int, a1 as int, signed),
{
    let lv: [i32; 8] = alpha_levels_of(a0, a1, signed);
    let mut r: [u8; 8] = [0u8; 8];
    let mut j: usize = 0;
    while j < 8
        invariant
            j <= 8,
            forall|k: int| 0 <= k < 8 ==> is_level(#[trigger] lv@[k] as int, signed),
            forall|k: int| 0 <= k < 8 ==> #[trigger] lv@[k] == alpha_levels(a0 as int, a1 as int, signed)[k],
            forall|k: int| 0 <= k < j ==> #[trigger] r@[k] == alpha_palette(a0 as int, a1 as int, signed)[k],
        decreases 8 - j,
    {
        r[j] = if signed {
            snorm_i32_to_unorm_u8(lv[j])
        } else {
            lv[j] as u8
        };
        j = j + 1;
    }
    proof {
        assert(r@ =~= alpha_palette(a0 as int, a1 as int, signed));
    }
    r
}

/// Each sample's squared difference from each palette byte.
pub open spec fn sample_costs(s: Seq<u8>, pal: Seq<u8>) -> Seq<Seq<int>> {
    Seq::new(s.len(), |i: int| Seq::new(pal.len(), |j: int| sq(pal[j] - s[i])))
}

/// What fitting a byte palette to samples can cost.
pub proof fn lemma_sample_fit(s: Seq<u8>, pal: Seq<u8>)
    requires
        s.len() == 16,
        0 < pal.len() <= 8,
    ensures
        forall|i: int| 0 <= i < 16 ==> 0 <= #[trigger] fit_costs(sample_costs(s, pal))[i] <= 65025,
        forall|i: int| 0 <= i < 16 ==> #[trigger] fit_indices(sample_costs(s, pal))[i] < pal.len(),
        0 <= fit_error(sample_costs(s, pal)) <= 1040400,
{
    let costs = sample_costs(s, pal);
    assert forall|i: int| 0 <= i < 16 implies 0 <= #[trigger] fit_costs(costs)[i] <= 65025 by {
        lemma_first_min_in(costs[i], pal.len());
        lemma_sq(pal[best_of(costs[i])] - s[i]);
    }
    assert forall|i: int| 0 <= i < 16 implies #[trigger] fit_indices(costs)[i] < pal.len() by {
        lemma_first_min_in(costs[i], pal.len());
    }
    lemma_total_bound(fit_costs(costs), 16, 65025);
}

/// The nearest of eight palette bytes for each sample, and the whole error.
pub fn alpha_select_scalar(pal: &[u8; 8], samples: &[u8; 16]) -> (r: ([u8; 16], i32))
    ensures
        r.0@ == fit_indices(sample_costs(samples@, pal@)),
        r.1 == fit_error(sample_costs(samples@, pal@)),
        0 <= r.1 <= 1040400,
        forall|i: int| 0 <= i < 16 ==> #[trigger] r.0@[i] < 8,
{
    let ghost costs = sample_costs(samples@, pal@);
    proof {
        lemma_sample_fit(samples@, pal@);
    }
    let mut idx: [u8; 16] = [0u8; 16];
    let mut err: i32 = 0;
    let mut i: usize = 0;
    while i < 16
        invariant
            i <= 16,
            costs == sample_costs(samples@, pal@),
            forall|i: int| 0 <= i < 16 ==> 0 <= #[trigger] fit_costs(costs)[i] <= 65025,
            forall|i: int| 0 <= i < 16 ==> #[trigger] fit_indices(costs)[i] < 8,
            forall|k: int| 0 <= k < i ==> #[trigger] idx@[k] == fit_indices(costs)[k],
            err == total(fit_costs(costs), i as nat),
            0 <= err <= i * 65025,
        decreases 16 - i,
    {
        let s: u8 = samples[i];
        let mut best: usize = 0;
        let mut best_d: i32 = sq_diff(pal[0], s);
        let mut j: usize = 1;
        while j < 8
            invariant
                1 <= j <= 8,
                i < 16,
                best < j,
                s == samples@[i as int],
                costs == sample_costs(samples@, pal@),
                best == first_min(costs[i as int], j as nat),
                best_d == costs[i as int][best as int],
                0 <= best_d <= 65025,
            decreases 8 - j,
        {
            let d: i32 = sq_diff(pal[j], s);
            proof {
                assert(costs[i as int][j as int] == d);
            }
            if d < best_d {
                best_d = d;
                best = j;
            }
            j = j + 1;
        }
        proof {
            assert(fit_costs(costs)[i as int] == best_d);
        }
        idx[i] = best as u8;
        err = err + best_d;
        i = i + 1;
    }
    proof {
        assert(idx@ =~= fit_indices(costs));
    }
    (idx, err)
}

/// The eight bytes of a block: two endpoints, then sixteen 3-bit indices.
pub open spec fn alpha_bytes(b0: u8, b1: u8, idx: Seq<u8>) -> Seq<u8> {
    seq![b0, b1] + le_bytes(number_of(idx, 8, 0), 6)
}

/// Sixteen 3-bit indices as one word.
pub fn pack_index_bits(idx: &[u8; 16]) -> (v: u64)
    requires
        forall|i: int| 0 <= i < 16 ==> #[trigger] idx@[i] < 8,
    ensures
        v == number_of(idx@, 8, 0),
        v < 0x1_0000_0000_0000,
{
    let mut v: u64 = 0;
    let mut bound: u64 = 1;
    let mut i: usize = 16;
    proof {
        vstd::arithmetic::power2::lemma2_to64();
    }
    while i > 0
        invariant
            i <= 16,
            v == number_of(idx@, 8, i as nat),
            v < bound,
            bound == vstd::arithmetic::power2::pow2((3 * (16 - i)) as nat),
            bound <= 0x1_0000_0000_0000,
            forall|i: int| 0 <= i < 16 ==> #[trigger] idx@[i] < 8,
        decreases i,
    {
        proof {
            let e = (3 * (16 - i)) as nat;
            vstd::arithmetic::power2::lemma_pow2_adds(e, 3);
            vstd::arithmetic::power2::lemma2_to64();
            vstd::arithmetic::power2::lemma2_to64_rest();
            if e + 3 < 48 {
                vstd::arithmetic::power2::lemma_pow2_strictly_increases(e + 3, 48);
            }
        }
        i = i - 1;
        v = idx[i] as u64 + 8 * v;
        bound = bound * 8;
    }
    proof {
        vstd::arithmetic::power2::lemma2_to64_rest();
    }
    v
}

/// The eight bytes of a block.
pub fn pack_alpha_out(b0: u8, b1: u8, idx: &[u8; 16]) -> (out: [u8; 8])
    requires
        forall|i: int| 0 <= i < 16 ==> #[trigger] idx@[i] < 8,
    ensures
        out@ == alpha_bytes(b0, b1, idx@),
{
    let bits: u64 = pack_index_bits(idx);
    let mut out: [u8; 8] = [0u8; 8];
    out[0] = b0;
    out[1] = b1;
    let mut t: u64 = bits;
    let mut i: usize = 0;
    while i < 6
        invariant
            i <= 6,
            out@[0] == b0,
            out@[1] == b1,
            forall|k: nat| k < 6 - i ==> digit(t as int, 256, k) == #[trigger] digit(bits as int, 256, (i + k) as nat),
            forall|k: int| 2 <= k < i + 2 ==> #[trigger] out@[k] == digit(bits as int, 256, (k - 2) as nat) as u8,
        decreases 6 - i,
    {
        proof {
            assert(digit(t as int, 256, 0) == digit(bits as int, 256, (i + 0) as nat));
        }
        out[i + 2] = (t % 256) as u8;
        proof {
            assert forall|k: nat| k < 6 - (i + 1) implies digit((t / 256) as int, 256, k) == #[trigger] digit(
                bits as int,
                256,
                (i + 1 + k) as nat,
            ) by {
                assert(digit(t as int, 256, k + 1) == digit(bits as int, 256, (i + (k + 1)) as nat));
            }
        }
        t = t / 256;
        i = i + 1;
    }
    proof {
        assert(out@ =~= alpha_bytes(b0, b1, idx@));
    }
    out
}

/// The index word of a block.
pub open spec fn alpha_index_word(b: Seq<u8>) -> int {
    b[2] + 256 * b[3] + 65536 * b[4] + 16777216 * b[5] + 4294967296 * b[6] + 1099511627776 * b[7]
}

/// The sixteen indices of a block.
pub open spec fn alpha_indices(b: Seq<u8>) -> Seq<u8> {
    digits_of(alpha_index_word(b), 8, 16)
}

/// The sixteen indices of a block.
pub fn alpha_index_bits(b: &[u8; 8]) -> (idx: [u8; 16])
    ensures
        idx@ == alpha_indices(b@),
        forall|i: int| 0 <= i < 16 ==> #[trigger] idx@[i] < 8,
{
    let word: u64 = b[2] as u64 + 256 * (b[3] as u64) + 65536 * (b[4] as u64) + 16777216 * (b[5] as u64) + 4294967296 * (
    b[6] as u64) + 1099511627776 * (b[7] as u64);
    let mut idx: [u8; 16] = [0u8; 16];
    let mut t: u64 = word;
    let mut i: usize = 0;
    while i < 16
        invariant
            i <= 16,
            forall|k: nat| k < 16 - i ==> digit(t as int, 8, k) == #[trigger] digit(word as int, 8, (i + k) as nat),
            forall|k: int| 0 <= k < i ==> #[trigger] idx@[k] == digit(word as int, 8, k as nat),
            forall|k: int| 0 <= k < i ==> #[trigger] idx@[k] < 8,
        decreases 16 - i,
    {
        proof {
            assert(digit(t as int, 8, 0) == digit(word as int, 8, (i + 0) as nat));
        }
        idx[i] = (t % 8) as u8;
        proof {
            assert forall|k: nat| k < 16 - (i + 1) implies digit((t / 8) as int, 8, k) == #[trigger] digit(
                word as int,
                8,
                (i + 1 + k) as nat,
            ) by {
                assert(digit(t as int, 8, k + 1) == digit(word as int, 8, (i + (k + 1)) as nat));
            }
        }
        t = t / 8;
        i = i + 1;
    }
    proof {
        assert(idx@ =~= alpha_indices(b@));
    }
    idx
}

/// The level that an endpoint byte stores.
pub fn stored_level(b: u8, signed: bool) -> (v: i32)
    ensures
        v == level_stored(b, signed),
{
    if signed && b >= 128 {
        b as i32 - 256
    } else {
        b as i32
    }
}

fn stored_byte(v: i32) -> (b: u8)
    requires
        -127 <= v <= 255,
    ensures
        b == stored(v as int),
{
    if v < 0 {
        (v + 256) as u8
    } else {
        v as u8
    }
}

/// The best block of an endpoint pair.
#[verifier::opaque]
pub open spec fn alpha_block(s: Seq<u8>, a0: int, a1: int, signed: bool) -> Scored {
    let costs = sample_costs(s, alpha_palette(a0, a1, signed));
    (alpha_bytes(stored(a0), stored(a1), fit_indices(costs)), fit_error(costs))
}

/// The squared error of the bytes that a block decodes to.
#[verifier::opaque]
pub open spec fn alpha_decoded_error(s: Seq<u8>, b: Seq<u8>, signed: bool) -> int {
    total(alpha_decoded_costs(s, b, signed), 16)
}

/// Each sample's squared error in a decoded block.
pub open spec fn alpha_decoded_costs(s: Seq<u8>, b: Seq<u8>, signed: bool) -> Seq<int> {
    let pal = alpha_palette(level_stored(b[0], signed), level_stored(b[1], signed), signed);
    Seq::new(16, |i: int| sq(pal[alpha_indices(b)[i] as int] - s[i]))
}

/// Which of two palette bytes is closer to `s` is decided at their middle.
proof fn lemma_closer(v: int, w: int, s: int)
    requires
        v < w,
    ensures
        2 * s < v + w ==> sq(v - s) < sq(w - s),
        2 * s == v + w ==> sq(v - s) == sq(w - s),
        2 * s > v + w ==> sq(v - s) > sq(w - s),
{
    reveal(sq);
    let gap = (w - v) * (w + v - 2 * s);
    assert((w - s) * (w - s) - (v - s) * (v - s) == gap) by (nonlinear_arith)
        requires
            gap == (w - v) * (w + v - 2 * s),
    ;
    assert(2 * s < v + w ==> gap > 0) by (nonlinear_arith)
        requires
            gap == (w - v) * (w + v - 2 * s),
            v < w,
    ;
    assert(2 * s == v + w ==> gap == 0) by (nonlinear_arith)
        requires
            gap == (w - v) * (w + v - 2 * s),
    ;
    assert(2 * s > v + w ==> gap < 0) by (nonlinear_arith)
        requires
            gap == (w - v) * (w + v - 2 * s),
            v < w,
    ;
}

/// A sample up to the threshold of two palette bytes is for the first, one
/// above it for the second; ties go to the smaller position.
proof fn lemma_threshold(pal: Seq<u8>, l: u8, u: u8, s: u8)
    requires
        pal[l as int] < pal[u as int],
    ensures
        s <= threshold(pal, l, u) ==> sq(pal[l as int] - s) < sq(pal[u as int] - s) || (sq(pal[l as int] - s) == sq(
            pal[u as int] - s,
        ) && l <= u),
        s > threshold(pal, l, u) ==> sq(pal[u as int] - s) < sq(pal[l as int] - s) || (sq(pal[u as int] - s) == sq(
            pal[l as int] - s,
        ) && u <= l),
{
    lemma_closer(pal[l as int] as int, pal[u as int] as int, s as int);
}

/// Thresholds grow with the palette bytes.
proof fn lemma_thresholds_grow(pal: Seq<u8>, f: u8, l: u8, u: u8)
    requires
        pal[f as int] < pal[l as int] < pal[u as int],
    ensures
        threshold(pal, f, l) <= threshold(pal, l, u),
{
}

/// Positions of the six-step palette in ascending order of value.
pub const ALPHA_ORDER6: [u8; 8] = [1, 7, 6, 5, 4, 3, 2, 0];

/// Positions of the four-step palette in ascending order of value.
pub const ALPHA_ORDER4: [u8; 8] = [6, 0, 2, 3, 4, 5, 1, 7];

/// `order` lists the positions of `pal` in ascending order of value.
pub open spec fn ascending(pal: Seq<u8>, order: Seq<u8>) -> bool {
    &&& pal.len() == 8
    &&& order.len() == 8
    &&& forall|k: int| 0 <= k < 8 ==> #[trigger] order[k] < 8
    &&& forall|k: int, l: int| 0 <= k < l < 8 ==> pal[#[trigger] order[k] as int] <= pal[#[trigger] order[l] as int]
    &&& forall|k: int, l: int| 0 <= k < l < 8 ==> #[trigger] order[k] != #[trigger] order[l]
    &&& forall|j: u8| j < 8 ==> #[trigger] order.contains(j)
}

/// Chooses the nearest palette byte by thresholds between the distinct bytes
/// in ascending order.
pub struct AlphaSelect {
    thr: [i32; 7],
    lut: [u8; 8],
    n: usize,
}

/// The greatest sample that the lower of two neighbours takes.
spec fn threshold(pal: Seq<u8>, a: u8, b: u8) -> int {
    let both = pal[a as int] + pal[b as int];
    if both % 2 == 1 || a < b {
        both / 2
    } else {
        both / 2 - 1
    }
}

/// One of the first `n` positions listed holds the same byte as position `j`,
/// and is not later.
#[verifier::opaque]
spec fn covered(pal: Seq<u8>, lut: Seq<u8>, n: int, j: int) -> bool {
    exists|k: int| 0 <= k < n && pal[#[trigger] lut[k] as int] == pal[j] && lut[k] <= j
}

proof fn lemma_covered_by(pal: Seq<u8>, lut: Seq<u8>, n: int, j: int, k: int)
    requires
        0 <= k < n,
        pal[lut[k] as int] == pal[j],
        lut[k] <= j,
    ensures
        covered(pal, lut, n, j),
{
    reveal(covered);
}

proof fn lemma_covering(pal: Seq<u8>, lut: Seq<u8>, n: int, j: int) -> (k: int)
    requires
        covered(pal, lut, n, j),
    ensures
        0 <= k < n,
        pal[lut[k] as int] == pal[j],
        lut[k] <= j,
{
    reveal(covered);
    choose|k: int| 0 <= k < n && pal[#[trigger] lut[k] as int] == pal[j] && lut[k] <= j
}

impl AlphaSelect {
    /// The selector belongs to the palette `pal`.
    pub closed spec fn selects(&self, pal: Seq<u8>) -> bool {
        let lut = self.lut@;
        &&& pal.len() == 8
        &&& 1 <= self.n <= 8
        &&& forall|k: int| 0 <= k < self.n ==> #[trigger] lut[k] < 8
        &&& forall|k: int, l: int|
            0 <= k < l < self.n ==> pal[#[trigger] lut[k] as int] < pal[#[trigger] lut[l] as int]
        &&& forall|j: int| 0 <= j < 8 ==> #[trigger] covered(pal, lut, self.n as int, j)
        &&& forall|k: int| 0 <= k < self.n - 1 ==> #[trigger] self.thr@[k] == threshold(pal, lut[k], lut[k + 1])
    }

    /// The selector of a palette whose ascending order is known.
    pub fn build(pal: &[u8; 8], order: &[u8; 8]) -> (sel: AlphaSelect)
        requires
            ascending(pal@, order@),
        ensures
            sel.selects(pal@),
    {
        let mut lut: [u8; 8] = [0u8; 8];
        let mut n: usize = 0;
        let mut i: usize = 0;
        while i < 8
            invariant
                i <= 8,
                n <= i,
                i > 0 ==> n > 0,
                ascending(pal@, order@),
                forall|k: int| 0 <= k < n ==> #[trigger] lut@[k] < 8,
                forall|k: int, l: int|
                    0 <= k < l < n ==> pal@[#[trigger] lut@[k] as int] < pal@[#[trigger] lut@[l] as int],
                i > 0 ==> pal@[lut@[n - 1] as int] == pal@[order@[i - 1] as int],
                forall|t: int| 0 <= t < i ==> covered(pal@, lut@, n as int, #[trigger] order@[t] as int),
            decreases 8 - i,
        {
            let o: u8 = order[i];
            let v: u8 = pal[o as usize];
            let ghost before = lut@;
            if n > 0 && pal[lut[n - 1] as usize] == v {
                if o < lut[n - 1] {
                    lut[n - 1] = o;
                }
                proof {
                    assert forall|t: int| 0 <= t < i + 1 implies covered(
                        pal@,
                        lut@,
                        n as int,
                        #[trigger] order@[t] as int,
                    ) by {
                        if t < i {
                            let k = lemma_covering(pal@, before, n as int, order@[t] as int);
                            lemma_covered_by(pal@, lut@, n as int, order@[t] as int, k);
                        } else {
                            lemma_covered_by(pal@, lut@, n as int, order@[t] as int, n - 1);
                        }
                    }
                }
            } else {
                proof {
                    if n > 0 {
                        assert(pal@[order@[i - 1] as int] <= pal@[order@[i as int] as int]);
                    }
                }
                lut[n] = o;
                proof {
                    assert forall|t: int| 0 <= t < i + 1 implies covered(
                        pal@,
                        lut@,
                        n + 1,
                        #[trigger] order@[t] as int,
                    ) by {
                        if t < i {
                            let k = lemma_covering(pal@, before, n as int, order@[t] as int);
                            lemma_covered_by(pal@, lut@, n + 1, order@[t] as int, k);
                        } else {
                            lemma_covered_by(pal@, lut@, n + 1, order@[t] as int, n as int);
                        }
                    }
                }
                n = n + 1;
            }
            i = i + 1;
        }
        proof {
            assert forall|j: int| 0 <= j < 8 implies #[trigger] covered(pal@, lut@, n as int, j) by {
                assert(order@.contains(j as u8));
                let t = choose|t: int| 0 <= t < 8 && #[trigger] order@[t] == j as u8;
                assert(order@[t] == j);
            }
        }
        let mut thr: [i32; 7] = [0i32; 7];
        let mut k: usize = 0;
        while k + 1 < n
            invariant
                1 <= n <= 8,
                k < n,
                forall|k: int| 0 <= k < n ==> #[trigger] lut@[k] < 8,
                forall|l: int| 0 <= l < k ==> #[trigger] thr@[l] == threshold(pal@, lut@[l], lut@[l + 1]),
            decreases n - k,
        {
            let a: u8 = lut[k];
            let b: u8 = lut[k + 1];
            let both: i32 = pal[a as usize] as i32 + pal[b as usize] as i32;
            thr[k] = if both % 2 == 1 || a < b {
                both / 2
            } else {
                both / 2 - 1
            };
            k = k + 1;
        }
        let sel = AlphaSelect { thr, lut, n };
        proof {
            assert forall|k: int| 0 <= k < sel.n - 1 implies #[trigger] sel.thr@[k] == threshold(
                pal@,
                sel.lut@[k],
                sel.lut@[k + 1],
            ) by {
                assert(thr@[k] == threshold(pal@, lut@[k], lut@[k + 1]));
            }
        }
        sel
    }

    /// The position of the nearest palette byte, the first among equals.
    pub fn select(&self, pal: &[u8; 8], s: u8) -> (j: u8)
        requires
            self.selects(pal@),
        ensures
            j == best_of(Seq::new(8, |j: int| sq(pal@[j] - s))),
            j < 8,
    {
        let mut rank: usize = 0;
        while rank + 1 < self.n && s as i32 > self.thr[rank]
            invariant
                self.selects(pal@),
                rank < self.n <= 8,
                forall|k: int| 0 <= k < rank ==> s > #[trigger] self.thr@[k],
            decreases self.n - rank,
        {
            rank = rank + 1;
        }
        proof {
            self.lemma_select(pal@, s, rank as int);
        }
        self.lut[rank]
    }

    proof fn lemma_select(&self, pal: Seq<u8>, s: u8, rank: int)
        requires
            self.selects(pal),
            0 <= rank < self.n,
            forall|k: int| 0 <= k < rank ==> s > #[trigger] self.thr@[k],
            rank + 1 < self.n ==> s <= self.thr@[rank],
        ensures
            self.lut@[rank] == best_of(Seq::new(8, |j: int| sq(pal[j] - s))),
    {
        let costs = Seq::new(8, |j: int| sq(pal[j] - s));
        let lut = self.lut@;
        let m = lut[rank] as int;
        assert forall|k: int| 0 <= k < self.n implies costs[m] < costs[#[trigger] lut[k] as int] || (costs[m]
            == costs[lut[k] as int] && m <= lut[k]) by {
            if k < rank {
                self.lemma_below(pal, s, rank, k);
            } else if k > rank {
                self.lemma_above(pal, s, rank, k);
            }
        }
        assert forall|j: int| 0 <= j < 8 implies costs[m] <= #[trigger] costs[j] by {
            let k = lemma_covering(pal, lut, self.n as int, j);
            assert(costs[lut[k] as int] == costs[j]);
        }
        assert forall|j: int| 0 <= j < m implies costs[m] < #[trigger] costs[j] by {
            let k = lemma_covering(pal, lut, self.n as int, j);
            assert(costs[lut[k] as int] == costs[j]);
        }
        lemma_first_min_unique(costs, 8, m);
    }

    proof fn lemma_below(&self, pal: Seq<u8>, s: u8, rank: int, k: int)
        requires
            self.selects(pal),
            0 <= k < rank < self.n,
            forall|k: int| 0 <= k < rank ==> s > #[trigger] self.thr@[k],
        ensures
            ({
                let m = self.lut@[rank];
                let l = self.lut@[k];
                sq(pal[m as int] - s) < sq(pal[l as int] - s) || (sq(pal[m as int] - s) == sq(pal[l as int] - s) && m
                    <= l)
            }),
        decreases rank - k,
    {
        let l = self.lut@[k];
        let u = self.lut@[k + 1];
        assert(self.thr@[k] == threshold(pal, l, u));
        assert(pal[l as int] < pal[u as int]);
        lemma_threshold(pal, l, u, s);
        if k + 1 < rank {
            self.lemma_below(pal, s, rank, k + 1);
        }
    }

    proof fn lemma_above(&self, pal: Seq<u8>, s: u8, rank: int, k: int)
        requires
            self.selects(pal),
            0 <= rank < k < self.n,
            s <= self.thr@[rank],
        ensures
            s <= threshold(pal, self.lut@[k - 1], self.lut@[k]),
            ({
                let m = self.lut@[rank];
                let l = self.lut@[k];
                sq(pal[m as int] - s) < sq(pal[l as int] - s) || (sq(pal[m as int] - s) == sq(pal[l as int] - s) && m
                    <= l)
            }),
        decreases k - rank,
    {
        let l = self.lut@[k - 1];
        let u = self.lut@[k];
        assert(self.thr@[k - 1] == threshold(pal, l, u));
        assert(pal[l as int] < pal[u as int]);
        if rank < k - 1 {
            self.lemma_above(pal, s, rank, k - 1);
            let f = self.lut@[k - 2];
            assert(pal[f as int] < pal[l as int]);
            lemma_thresholds_grow(pal, f, l, u);
        }
        lemma_threshold(pal, l, u, s);
    }
}

/// The six-step palette ascends in the order `ALPHA_ORDER6`, the four-step
/// palette in the order `ALPHA_ORDER4`.
pub proof fn lemma_palette_order(a0: u8, a1: u8)
    ensures
        a0 > a1 ==> ascending(alpha_palette(a0 as int, a1 as int, false), ALPHA_ORDER6@),
        a0 <= a1 ==> ascending(alpha_palette(a0 as int, a1 as int, false), ALPHA_ORDER4@),
{
    let pal = alpha_palette(a0 as int, a1 as int, false);
    let lv = alpha_levels(a0 as int, a1 as int, false);
    assert forall|j: int| 0 <= j < 8 implies 0 <= #[trigger] lv[j] <= 255 && pal[j] == lv[j] by {
        let d = a0 - a1;
        assert(lv[0] == a0 && lv[1] == a1);
        if a0 > a1 {
            assert(0 <= (56173 * d + 32768) / 65536 <= d);
            assert(0 <= (46812 * d + 32768) / 65536 <= d);
            assert(0 <= (37450 * d + 32768) / 65536 <= d);
            assert(0 <= (28086 * d + 32768) / 65536 <= d);
            assert(0 <= (18724 * d + 32768) / 65536 <= d);
            assert(0 <= (9363 * d + 32768) / 65536 <= d);
        } else {
            assert(d <= (52429 * d + 32768) / 65536 <= 0);
            assert(d <= (39321 * d + 32768) / 65536 <= 0);
            assert(d <= (26215 * d + 32768) / 65536 <= 0);
            assert(d <= (13107 * d + 32768) / 65536 <= 0);
        }
    }
    if a0 > a1 {
        let o = ALPHA_ORDER6@;
        assert(o =~= seq![1u8, 7u8, 6u8, 5u8, 4u8, 3u8, 2u8, 0u8]);
        let d = a0 - a1;
        assert(lv[1] <= lv[7] <= lv[6] <= lv[5] <= lv[4] <= lv[3] <= lv[2] <= lv[0]);
        assert(o[0] == 1 && o[1] == 7 && o[2] == 6 && o[3] == 5 && o[4] == 4 && o[5] == 3 && o[6] == 2 && o[7] == 0);
        assert forall|j: u8| j < 8 implies #[trigger] o.contains(j) by {
            let k: int = if j == 1 {
                0
            } else if j == 0 {
                7
            } else {
                8 - j
            };
            assert(o[k] == j);
        }
    } else {
        let o = ALPHA_ORDER4@;
        assert(o =~= seq![6u8, 0u8, 2u8, 3u8, 4u8, 5u8, 1u8, 7u8]);
        assert(lv[6] <= lv[0] <= lv[2] <= lv[3] <= lv[4] <= lv[5] <= lv[1] <= lv[7]);
        assert(o[0] == 6 && o[1] == 0 && o[2] == 2 && o[3] == 3 && o[4] == 4 && o[5] == 5 && o[6] == 1 && o[7] == 7);
        assert forall|j: u8| j < 8 implies #[trigger] o.contains(j) by {
            let k: int = if j == 0 {
                1
            } else if j == 1 {
                6
            } else if j == 6 {
                0
            } else {
                j as int
            };
            assert(o[k] == j);
        }
    }
}

/// The indices and the error of an unsigned endpoint pair; none where the
/// error reaches the limit.
fn pack_alpha_indices_err_scalar(a0: u8, a1: u8, pal: &[u8; 8], samples: &[u8; 16], err_limit: i32) -> (r: Option<
    ([u8; 16], i32),
>)
    requires
        pal@ == alpha_palette(a0 as int, a1 as int, false),
    ensures
        r is Some <==> fit_error(sample_costs(samples@, pal@)) < err_limit,
        r matches Some((idx, err)) ==> idx@ == fit_indices(sample_costs(samples@, pal@)) && err == fit_error(
            sample_costs(samples@, pal@),
        ) && 0 <= err <= 1040400 && forall|i: int| 0 <= i < 16 ==> #[trigger] idx@[i] < 8,
{
    let ghost costs = sample_costs(samples@, pal@);
    proof {
        lemma_palette_order(a0, a1);
        lemma_sample_fit(samples@, pal@);
    }
    let sel: AlphaSelect = if a0 > a1 {
        AlphaSelect::build(pal, &ALPHA_ORDER6)
    } else {
        AlphaSelect::build(pal, &ALPHA_ORDER4)
    };
    let mut idx: [u8; 16] = [0u8; 16];
    let mut err: i32 = 0;
    let mut i: usize = 0;
    while i < 16
        invariant
            i <= 16,
            sel.selects(pal@),
            costs == sample_costs(samples@, pal@),
            forall|i: int| 0 <= i < 16 ==> 0 <= #[trigger] fit_costs(costs)[i] <= 65025,
            forall|i: int| 0 <= i < 16 ==> #[trigger] fit_indices(costs)[i] < 8,
            forall|k: int| 0 <= k < i ==> #[trigger] idx@[k] == fit_indices(costs)[k],
            err == total(fit_costs(costs), i as nat),
            0 <= err <= i * 65025,
        decreases 16 - i,
    {
        let s: u8 = samples[i];
        let best: u8 = sel.select(pal, s);
        let d: i32 = sq_diff(pal[best as usize], s);
        proof {
            assert(costs[i as int] =~= Seq::new(8, |j: int| sq(pal@[j] - s)));
            assert(fit_indices(costs)[i as int] == best);
            assert(fit_costs(costs)[i as int] == d);
        }
        idx[i] = best;
        err = err + d;
        if err >= err_limit {
            proof {
                lemma_total_grows(fit_costs(costs), (i + 1) as nat, 16);
            }
            return None;
        }
        i = i + 1;
    }
    if err >= err_limit {
        return None;
    }
    proof {
        assert(idx@ =~= fit_indices(costs));
    }
    Some((idx, err))
}

/// The best block of an endpoint pair, and its error; none where the error
/// reaches the limit.
pub fn pack_alpha_scored(a0: i32, a1: i32, signed: bool, samples: &[u8; 16], err_limit: i32) -> (r: Option<([u8; 8], i32)>)
    requires
        is_level(a0 as int, signed),
        is_level(a1 as int, signed),
    ensures
        r is Some <==> alpha_block(samples@, a0 as int, a1 as int, signed).1 < err_limit,
        r matches Some((b, e)) ==> (b@, e as int) == alpha_block(samples@, a0 as int, a1 as int, signed) && 0 <= e
            <= 1040400,
{
    proof {
        reveal(alpha_block);
    }
    let pal: [u8; 8] = alpha_palette_of(a0, a1, signed);
    if signed {
        let (idx, err) = alpha_select_scalar(&pal, samples);
        if err >= err_limit {
            return None;
        }
        Some((pack_alpha_out(stored_byte(a0), stored_byte(a1), &idx), err))
    } else {
        match pack_alpha_indices_err_scalar(a0 as u8, a1 as u8, &pal, samples, err_limit) {
            None => None,
            Some((idx, err)) => Some((pack_alpha_out(stored_byte(a0), stored_byte(a1), &idx), err)),
        }
    }
}

/// The block in hand, or the endpoint pair's where that errs less. A pair of
/// equal endpoints is no candidate.
pub open spec fn consider(s: Seq<u8>, st: Scored, a0: int, a1: int, signed: bool) -> Scored {
    if a0 == a1 {
        st
    } else {
        better(st, alpha_block(s, a0, a1, signed))
    }
}

/// Takes the endpoint pair's block where it errs less than the block in hand.
pub fn consider_alpha(a0: i32, a1: i32, signed: bool, samples: &[u8; 16], best: &mut [u8; 8], best_err: &mut i32)
    requires
        is_level(a0 as int, signed),
        is_level(a1 as int, signed),
        0 <= *old(best_err) <= 1040400,
    ensures
        (final(best)@, *final(best_err) as int) == consider(
            samples@,
            (old(best)@, *old(best_err) as int),
            a0 as int,
            a1 as int,
            signed,
        ),
        0 <= *final(best_err) <= *old(best_err),
{
    if a0 == a1 {
        return;
    }
    if let Some((b, e)) = pack_alpha_scored(a0, a1, signed, samples, *best_err) {
        *best = b;
        *best_err = e;
    }
}

/// The error that a pair's block is scored by is the error that it decodes to.
pub proof fn law_alpha_score(s: Seq<u8>, a0: int, a1: int, signed: bool)
    requires
        s.len() == 16,
        is_level(a0, signed),
        is_level(a1, signed),
    ensures
        alpha_block(s, a0, a1, signed).0.len() == 8,
        level_stored(alpha_block(s, a0, a1, signed).0[0], signed) == a0,
        level_stored(alpha_block(s, a0, a1, signed).0[1], signed) == a1,
        alpha_block(s, a0, a1, signed).1 == alpha_decoded_error(s, alpha_block(s, a0, a1, signed).0, signed),
        0 <= alpha_block(s, a0, a1, signed).1 <= 1040400,
{
    reveal(alpha_block);
    reveal(alpha_decoded_error);
    let pal = alpha_palette(a0, a1, signed);
    let costs = sample_costs(s, pal);
    lemma_sample_fit(s, pal);
    let idx = fit_indices(costs);
    let b = alpha_bytes(stored(a0), stored(a1), idx);
    let v = number_of(idx, 8, 0);
    lemma_word_bound(idx, 0);
    vstd::arithmetic::power2::lemma2_to64_rest();
    lemma_six_bytes(v);
    assert(alpha_index_word(b) == v);
    lemma_digits_round_trip(idx, 8);
    assert forall|i: int| 0 <= i < 16 implies #[trigger] alpha_decoded_costs(s, b, signed)[i] == fit_costs(costs)[i] by {
        lemma_first_min_in(costs[i], 8);
        assert(idx[i] == best_of(costs[i]));
    }
    assert(alpha_decoded_costs(s, b, signed) =~= fit_costs(costs));
}

proof fn lemma_word_bound(idx: Seq<u8>, i: nat)
    requires
        idx.len() == 16,
        i <= 16,
        forall|k: int| 0 <= k < 16 ==> #[trigger] idx[k] < 8,
    ensures
        0 <= number_of(idx, 8, i) < vstd::arithmetic::power2::pow2((3 * (16 - i)) as nat),
    decreases 16 - i,
{
    vstd::arithmetic::power2::lemma2_to64();
    if i < 16 {
        lemma_word_bound(idx, i + 1);
        let e = (3 * (15 - i)) as nat;
        vstd::arithmetic::power2::lemma_pow2_adds(e, 3);
    }
}

proof fn lemma_six_bytes(v: int)
    requires
        0 <= v < 0x1_0000_0000_0000,
    ensures
        ({
            let b = le_bytes(v, 6);
            b[0] + 256 * b[1] + 65536 * b[2] + 16777216 * b[3] + 4294967296 * b[4] + 1099511627776 * b[5] == v
        }),
{
    let v1 = v / 256;
    let v2 = v1 / 256;
    let v3 = v2 / 256;
    let v4 = v3 / 256;
    let v5 = v4 / 256;
    reveal_with_fuel(digit, 7);
    assert(digit(v, 256, 0) == v % 256);
    assert(digit(v, 256, 1) == v1 % 256);
    assert(digit(v, 256, 2) == v2 % 256);
    assert(digit(v, 256, 3) == v3 % 256);
    assert(digit(v, 256, 4) == v4 % 256);
    assert(digit(v, 256, 5) == v5 % 256);
}

/// The least of the first `n` numbers, or `init`.
pub open spec fn seq_low(lv: Seq<int>, init: int, n: nat) -> int
    decreases n,
{
    if n == 0 {
        init
    } else {
        min_int(seq_low(lv, init, (n - 1) as nat), lv[n - 1])
    }
}

/// The greatest of the first `n` numbers, or `init`.
pub open spec fn seq_high(lv: Seq<int>, init: int, n: nat) -> int
    decreases n,
{
    if n == 0 {
        init
    } else {
        max_int(seq_high(lv, init, (n - 1) as nat), lv[n - 1])
    }
}

/// The least level of the samples.
pub open spec fn low_level(s: Seq<u8>, signed: bool) -> int {
    seq_low(sample_levels(s, signed), highest(signed), 16)
}

/// The greatest level of the samples.
pub open spec fn high_level(s: Seq<u8>, signed: bool) -> int {
    seq_high(sample_levels(s, signed), lowest(signed), 16)
}

/// The different numbers among the first `n`, in order of first appearance.
pub open spec fn distinct(lv: Seq<int>, n: nat) -> Seq<int>
    decreases n,
{
    if n == 0 {
        Seq::empty()
    } else {
        let d = distinct(lv, (n - 1) as nat);
        if d.contains(lv[n - 1]) {
            d
        } else {
            d.push(lv[n - 1])
        }
    }
}

/// The levels of the samples, with the least and the greatest.
pub fn levels_of(samples: &[u8; 16], signed: bool) -> (r: ([i32; 16], i32, i32))
    ensures
        forall|i: int| 0 <= i < 16 ==> #[trigger] r.0@[i] == sample_levels(samples@, signed)[i],
        forall|i: int| 0 <= i < 16 ==> is_level(#[trigger] r.0@[i] as int, signed),
        r.1 == low_level(samples@, signed),
        r.2 == high_level(samples@, signed),
        lowest(signed) <= r.1 <= r.2 <= highest(signed),
{
    let ghost lv = sample_levels(samples@, signed);
    let mut vals: [i32; 16] = [0i32; 16];
    let mut lo: i32 = if signed {
        127
    } else {
        255
    };
    let mut hi: i32 = if signed {
        -127
    } else {
        0
    };
    let mut i: usize = 0;
    while i < 16
        invariant
            i <= 16,
            lv == sample_levels(samples@, signed),
            lo == seq_low(lv, highest(signed), i as nat),
            hi == seq_high(lv, lowest(signed), i as nat),
            lowest(signed) <= lo <= highest(signed),
            lowest(signed) <= hi <= highest(signed),
            i > 0 ==> lo <= hi,
            forall|k: int| 0 <= k < i ==> #[trigger] vals@[k] == lv[k],
            forall|k: int| 0 <= k < i ==> is_level(#[trigger] vals@[k] as int, signed),
        decreases 16 - i,
    {
        let v: i32 = if signed {
            unorm_u8_to_snorm_i32(samples[i])
        } else {
            samples[i] as i32
        };
        proof {
            assert(lv[i as int] == v);
        }
        vals[i] = v;
        if v < lo {
            lo = v;
        }
        if v > hi {
            hi = v;
        }
        i = i + 1;
    }
    (vals, lo, hi)
}

/// How many different numbers there are, counting no further than one past
/// `cap`, and the different numbers themselves, as many as `cap`.
pub fn unique_values_capped(vals: &[i32; 16], cap: usize) -> (r: (usize, [i32; 16]))
    requires
        cap < 16,
    ensures
        ({
            let d = distinct(vals@.map_values(|v: i32| v as int), 16);
            &&& r.0 == min_int(d.len() as int, cap + 1)
            &&& r.0 <= cap ==> forall|k: int| 0 <= k < r.0 ==> #[trigger] r.1@[k] == d[k]
            &&& r.0 <= cap ==> forall|k: int| 0 <= k < r.0 ==> vals@.contains(#[trigger] r.1@[k])
        }),
{
    let ghost lv = vals@.map_values(|v: i32| v as int);
    let mut uniq: [i32; 16] = [0i32; 16];
    let mut n: usize = 0;
    let mut i: usize = 0;
    while i < 16
        invariant
            i <= 16,
            n <= cap < 16,
            lv == vals@.map_values(|v: i32| v as int),
            n == distinct(lv, i as nat).len(),
            forall|k: int| 0 <= k < n ==> #[trigger] uniq@[k] == distinct(lv, i as nat)[k],
            forall|k: int| 0 <= k < n ==> vals@.contains(#[trigger] uniq@[k]),
        decreases 16 - i,
    {
        let s: i32 = vals[i];
        let ghost d = distinct(lv, i as nat);
        let mut found: bool = false;
        let mut k: usize = 0;
        while k < n && !found
            invariant
                k <= n < 16,
                n == d.len(),
                forall|k: int| 0 <= k < n ==> #[trigger] uniq@[k] == d[k],
                found ==> d.contains(s as int),
                !found ==> forall|j: int| 0 <= j < k ==> #[trigger] d[j] != s,
            decreases n - k + (if found { 0int } else { 1 }),
        {
            if uniq[k] == s {
                found = true;
                proof {
                    assert(d[k as int] == s);
                }
            } else {
                k = k + 1;
            }
        }
        proof {
            assert(lv[i as int] == s);
            if !found {
                assert(!d.contains(s as int));
            }
            assert(vals@.contains(s));
        }
        if !found {
            if n >= cap {
                proof {
                    lemma_distinct_grows(lv, (i + 1) as nat, 16);
                }
                return (cap + 1, uniq);
            }
            uniq[n] = s;
            n = n + 1;
        }
        i = i + 1;
    }
    (n, uniq)
}

proof fn lemma_distinct_grows(lv: Seq<int>, m: nat, n: nat)
    requires
        m <= n,
    ensures
        distinct(lv, m).len() <= distinct(lv, n).len(),
    decreases n,
{
    if m < n {
        lemma_distinct_grows(lv, m, (n - 1) as nat);
    }
}

/// Pairs of the value `u[i]` with the first `j` values.
pub open spec fn pairs_with(s: Seq<u8>, st: Scored, u: Seq<int>, i: int, j: nat, signed: bool) -> Scored
    decreases j,
{
    if j == 0 {
        st
    } else {
        consider(s, pairs_with(s, st, u, i, (j - 1) as nat, signed), u[i], u[j - 1], signed)
    }
}

/// All ordered pairs of different values, the first from the first `i`.
pub open spec fn all_pairs(s: Seq<u8>, st: Scored, u: Seq<int>, i: nat, signed: bool) -> Scored
    decreases i,
{
    if i == 0 {
        st
    } else {
        pairs_with(s, all_pairs(s, st, u, (i - 1) as nat, signed), u, i - 1, u.len(), signed)
    }
}

/// Tries every ordered pair of the different values as endpoints.
pub fn consider_unique_pairs(
    samples: &[u8; 16],
    signed: bool,
    uniq: &[i32; 16],
    n: usize,
    best: &mut [u8; 8],
    best_err: &mut i32,
)
    requires
        n <= 16,
        forall|k: int| 0 <= k < n ==> is_level(#[trigger] uniq@[k] as int, signed),
        0 <= *old(best_err) <= 1040400,
    ensures
        (final(best)@, *final(best_err) as int) == all_pairs(
            samples@,
            (old(best)@, *old(best_err) as int),
            Seq::new(n as nat, |k: int| uniq@[k] as int),
            n as nat,
            signed,
        ),
        0 <= *final(best_err) <= *old(best_err),
{
    let ghost u = Seq::new(n as nat, |k: int| uniq@[k] as int);
    let ghost start = (best@, *best_err as int);
    let mut i: usize = 0;
    while i < n
        invariant
            i <= n <= 16,
            u == Seq::new(n as nat, |k: int| uniq@[k] as int),
            forall|k: int| 0 <= k < n ==> is_level(#[trigger] uniq@[k] as int, signed),
            0 <= *best_err <= *old(best_err) <= 1040400,
            (best@, *best_err as int) == all_pairs(samples@, start, u, i as nat, signed),
        decreases n - i,
    {
        let ghost row = (best@, *best_err as int);
        let mut j: usize = 0;
        while j < n
            invariant
                i < n <= 16,
                j <= n,
                u == Seq::new(n as nat, |k: int| uniq@[k] as int),
                forall|k: int| 0 <= k < n ==> is_level(#[trigger] uniq@[k] as int, signed),
                0 <= *best_err <= *old(best_err) <= 1040400,
                (best@, *best_err as int) == pairs_with(samples@, row, u, i as int, j as nat, signed),
            decreases n - j,
        {
            consider_alpha(uniq[i], uniq[j], signed, samples, best, best_err);
            j = j + 1;
        }
        i = i + 1;
    }
}

/// The weight, towards the second endpoint, of a six-step index.
pub open spec fn alpha_weight(i: u8) -> u32 {
    if i == 0 {
        of_int(0)
    } else if i == 1 {
        of_int(1)
    } else {
        quotient(of_int(i - 1), of_int(7))
    }
}

/// The weights of sixteen six-step indices.
pub open spec fn alpha_weights(idx: Seq<u8>) -> Seq<u32> {
    Seq::new(16, |i: int| alpha_weight(idx[i]))
}

/// Numbers in single precision.
pub open spec fn float_values(lv: Seq<int>) -> Seq<u32> {
    Seq::new(16, |i: int| of_int(lv[i]))
}

/// Sixteen ones in single precision.
pub open spec fn float_ones() -> Seq<u32> {
    Seq::new(16, |i: int| of_int(1))
}

/// The least-squares endpoints of sixteen levels under the weights; none where
/// the weights do not determine them.
pub open spec fn alpha_solution(lv: Seq<int>, ws: Seq<u32>, signed: bool) -> Option<(int, int)> {
    let xs = float_values(lv);
    let n = float_sum(float_ones(), 16);
    let sw = float_sum(ws, 16);
    let sw2 = dot(ws, ws, 16);
    let sx = float_sum(xs, 16);
    let sxw = dot(xs, ws, 16);
    let det = difference(product(n, sw2), product(sw, sw));
    if less(absolute(det), one_over(1000)) {
        None
    } else {
        Some((
            round_clamped(
                quotient(difference(product(sx, sw2), product(sxw, sw)), det),
                lowest(signed),
                highest(signed),
            ),
            round_clamped(
                quotient(difference(product(n, sxw), product(sw, sx)), det),
                lowest(signed),
                highest(signed),
            ),
        ))
    }
}

/// The least-squares endpoints of a six-step block's indices.
pub open spec fn alpha_ls(lv: Seq<int>, b: Seq<u8>, signed: bool) -> Option<(int, int)> {
    if level_stored(b[0], signed) <= level_stored(b[1], signed) {
        None
    } else {
        alpha_solution(lv, alpha_weights(alpha_indices(b)), signed)
    }
}

fn alpha_weights_of(idx: &[u8; 16]) -> (ws: [u32; 16])
    requires
        forall|i: int| 0 <= i < 16 ==> #[trigger] idx@[i] < 8,
    ensures
        ws@ == alpha_weights(idx@),
{
    let zero: u32 = from_int32(0);
    let one: u32 = from_int32(1);
    let seven: u32 = from_int32(7);
    let mut ws: [u32; 16] = [0u32; 16];
    let mut i: usize = 0;
    while i < 16
        invariant
            i <= 16,
            zero == of_int(0),
            one == of_int(1),
            seven == of_int(7),
            forall|k: int| 0 <= k < i ==> #[trigger] ws@[k] == alpha_weight(idx@[k]),
        decreases 16 - i,
    {
        let v: u8 = idx[i];
        ws[i] = if v == 0 {
            zero
        } else if v == 1 {
            one
        } else {
            div32(from_int32(v as i64 - 1), seven)
        };
        i = i + 1;
    }
    proof {
        assert(ws@ =~= alpha_weights(idx@));
    }
    ws
}

/// The least-squares endpoints of a six-step block's indices; none for a
/// four-step block or where the indices do not determine them.
pub fn ls_alpha_endpoints(vals: &[i32; 16], b: &[u8; 8], signed: bool) -> (r: Option<(i32, i32)>)
    ensures
        r matches Some((e0, e1)) ==> alpha_ls(vals@.map_values(|v: i32| v as int), b@, signed) == Some(
            (e0 as int, e1 as int),
        ) && is_level(e0 as int, signed) && is_level(e1 as int, signed),
        r is None ==> alpha_ls(vals@.map_values(|v: i32| v as int), b@, signed) is None,
{
    if stored_level(b[0], signed) <= stored_level(b[1], signed) {
        return None;
    }
    let ghost lv = vals@.map_values(|v: i32| v as int);
    let idx: [u8; 16] = alpha_index_bits(b);
    let ws: [u32; 16] = alpha_weights_of(&idx);
    let ghost xs = float_values(lv);
    let one: u32 = from_int32(1);
    let mut n: u32 = from_int32(0);
    let mut sw: u32 = n;
    let mut sw2: u32 = n;
    let mut sx: u32 = n;
    let mut sxw: u32 = n;
    let mut i: usize = 0;
    while i < 16
        invariant
            i <= 16,
            one == of_int(1),
            lv == vals@.map_values(|v: i32| v as int),
            xs == float_values(lv),
            n == float_sum(float_ones(), i as nat),
            sw == float_sum(ws@, i as nat),
            sw2 == dot(ws@, ws@, i as nat),
            sx == float_sum(xs, i as nat),
            sxw == dot(xs, ws@, i as nat),
        decreases 16 - i,
    {
        let w: u32 = ws[i];
        let x: u32 = from_int32(vals[i] as i64);
        proof {
            assert(xs[i as int] == x);
            assert(float_ones()[i as int] == one);
        }
        sw = add32(sw, w);
        sw2 = add32(sw2, mul32(w, w));
        sx = add32(sx, x);
        sxw = add32(sxw, mul32(x, w));
        n = add32(n, one);
        i = i + 1;
    }
    let det: u32 = sub32(mul32(n, sw2), mul32(sw, sw));
    let size: u32 = if det >= 0x8000_0000 {
        det - 0x8000_0000
    } else {
        det
    };
    if less32(size, div32(one, from_int32(1000))) {
        return None;
    }
    let e0: u32 = div32(sub32(mul32(sx, sw2), mul32(sxw, sw)), det);
    let e1: u32 = div32(sub32(mul32(n, sxw), mul32(sw, sx)), det);
    if signed {
        Some((round_clamp_snorm(e0), round_clamp_snorm(e1)))
    } else {
        Some((round_clamp_u8(e0) as i32, round_clamp_u8(e1) as i32))
    }
}

/// Least-squares refine, at most `n` rounds, while the error falls.
pub open spec fn alpha_ls_rounds(s: Seq<u8>, st: Scored, n: nat, signed: bool) -> Scored
    decreases n,
{
    if n == 0 {
        st
    } else {
        match alpha_ls(sample_levels(s, signed), st.0, signed) {
            None => st,
            Some((a, b)) => {
                let next = consider(s, consider(s, st, a, b, signed), b, a, signed);
                if next.1 == 0 || next.1 >= st.1 {
                    next
                } else {
                    alpha_ls_rounds(s, next, (n - 1) as nat, signed)
                }
            },
        }
    }
}

/// A level moved and held to the range.
pub open spec fn moved(v: int, d: int, signed: bool) -> int {
    clamped(v + d, lowest(signed), highest(signed))
}

/// Moves of the first endpoint, `k` of them from `-d` up, that keep the block's
/// kind.
pub open spec fn first_moves(s: Seq<u8>, st: Scored, b0: int, b1: int, d: int, k: nat, signed: bool) -> Scored
    decreases k,
{
    if k == 0 {
        st
    } else {
        let before = first_moves(s, st, b0, b1, d, (k - 1) as nat, signed);
        let off = k - 1 - d;
        let a0 = moved(b0, off, signed);
        if off == 0 || (a0 > b1) != (b0 > b1) {
            before
        } else {
            consider(s, before, a0, b1, signed)
        }
    }
}

/// Moves of the second endpoint, `k` of them from `-d` up, that keep the
/// block's kind.
pub open spec fn second_moves(s: Seq<u8>, st: Scored, b0: int, b1: int, d: int, k: nat, signed: bool) -> Scored
    decreases k,
{
    if k == 0 {
        st
    } else {
        let before = second_moves(s, st, b0, b1, d, (k - 1) as nat, signed);
        let off = k - 1 - d;
        let a1 = moved(b1, off, signed);
        if off == 0 || (b0 > a1) != (b0 > b1) {
            before
        } else {
            consider(s, before, b0, a1, signed)
        }
    }
}

/// Moves of both endpoints: the first by `off`, the second by the first `k`
/// offsets from `-d` up.
pub open spec fn window_row(s: Seq<u8>, st: Scored, b0: int, b1: int, d: int, off: int, k: nat, signed: bool) -> Scored
    decreases k,
{
    if k == 0 {
        st
    } else {
        let before = window_row(s, st, b0, b1, d, off, (k - 1) as nat, signed);
        if off == 0 && k - 1 - d == 0 {
            before
        } else {
            consider(s, before, moved(b0, off, signed), moved(b1, k - 1 - d, signed), signed)
        }
    }
}

/// Moves of both endpoints: the first by the first `k` offsets from `-d` up.
pub open spec fn window(s: Seq<u8>, st: Scored, b0: int, b1: int, d: int, k: nat, signed: bool) -> Scored
    decreases k,
{
    if k == 0 {
        st
    } else {
        window_row(
            s,
            window(s, st, b0, b1, d, (k - 1) as nat, signed),
            b0,
            b1,
            d,
            k - 1 - d,
            (2 * d + 1) as nat,
            signed,
        )
    }
}

/// The endpoint search around the block in hand, out to distance `d`: one
/// endpoint at a time, or both at once.
pub open spec fn neighbourhood(s: Seq<u8>, st: Scored, d: int, axis_aligned: bool, signed: bool) -> Scored {
    let k = (2 * d + 1) as nat;
    let b0 = level_stored(st.0[0], signed);
    let b1 = level_stored(st.0[1], signed);
    if axis_aligned {
        let mid = first_moves(s, st, b0, b1, d, k, signed);
        second_moves(s, mid, level_stored(mid.0[0], signed), level_stored(mid.0[1], signed), d, k, signed)
    } else {
        window(s, st, b0, b1, d, k, signed)
    }
}

pub(crate) fn moved_level(v: i32, d: i32, signed: bool) -> (r: i32)
    requires
        -128 <= v <= 255,
        -8 <= d <= 8,
    ensures
        r == moved(v as int, d as int, signed),
        is_level(r as int, signed),
{
    let lo: i32 = if signed {
        -127
    } else {
        0
    };
    let hi: i32 = if signed {
        127
    } else {
        255
    };
    if v + d < lo {
        lo
    } else if v + d > hi {
        hi
    } else {
        v + d
    }
}

/// Whether a block's endpoint bytes are levels.
pub open spec fn has_levels(b: Seq<u8>, signed: bool) -> bool {
    &&& b.len() == 8
    &&& is_level(level_stored(b[0], signed), signed)
    &&& is_level(level_stored(b[1], signed), signed)
}

pub proof fn lemma_consider_levels(s: Seq<u8>, st: Scored, a0: int, a1: int, signed: bool)
    requires
        s.len() == 16,
        has_levels(st.0, signed),
        is_level(a0, signed),
        is_level(a1, signed),
    ensures
        has_levels(consider(s, st, a0, a1, signed).0, signed),
{
    law_alpha_score(s, a0, a1, signed);
}

/// Searches the endpoints around the block in hand, out to distance `d`.
pub fn refine_alpha_neighborhood(
    samples: &[u8; 16],
    signed: bool,
    best: &mut [u8; 8],
    best_err: &mut i32,
    d: i32,
    axis_aligned: bool,
)
    requires
        0 <= d <= 8,
        0 <= *old(best_err) <= 1040400,
        has_levels(old(best)@, signed),
    ensures
        (final(best)@, *final(best_err) as int) == neighbourhood(
            samples@,
            (old(best)@, *old(best_err) as int),
            d as int,
            axis_aligned,
            signed,
        ),
        0 <= *final(best_err) <= *old(best_err),
{
    if axis_aligned {
        move_first(samples, signed, best, best_err, d);
        move_second(samples, signed, best, best_err, d);
    } else {
        move_both(samples, signed, best, best_err, d);
    }
}

fn move_first(samples: &[u8; 16], signed: bool, best: &mut [u8; 8], best_err: &mut i32, d: i32)
    requires
        0 <= d <= 8,
        0 <= *old(best_err) <= 1040400,
        has_levels(old(best)@, signed),
    ensures
        (final(best)@, *final(best_err) as int) == first_moves(
            samples@,
            (old(best)@, *old(best_err) as int),
            level_stored(old(best)@[0], signed),
            level_stored(old(best)@[1], signed),
            d as int,
            (2 * d + 1) as nat,
            signed,
        ),
        0 <= *final(best_err) <= *old(best_err),
        has_levels(final(best)@, signed),
{
    let ghost start = (best@, *best_err as int);
    let b0: i32 = stored_level(best[0], signed);
    let b1: i32 = stored_level(best[1], signed);
    let mut off: i32 = -d;
    while off <= d
        invariant
            0 <= d <= 8,
            -d <= off <= d + 1,
            is_level(b0 as int, signed),
            is_level(b1 as int, signed),
            has_levels(best@, signed),
            0 <= *best_err <= *old(best_err) <= 1040400,
            (best@, *best_err as int) == first_moves(
                samples@,
                start,
                b0 as int,
                b1 as int,
                d as int,
                (off + d) as nat,
                signed,
            ),
        decreases d + 1 - off,
    {
        let a0: i32 = moved_level(b0, off, signed);
        if off != 0 && (a0 > b1) == (b0 > b1) {
            proof {
                lemma_consider_levels(samples@, (best@, *best_err as int), a0 as int, b1 as int, signed);
            }
            consider_alpha(a0, b1, signed, samples, best, best_err);
        }
        off = off + 1;
    }
}

fn move_second(samples: &[u8; 16], signed: bool, best: &mut [u8; 8], best_err: &mut i32, d: i32)
    requires
        0 <= d <= 8,
        0 <= *old(best_err) <= 1040400,
        has_levels(old(best)@, signed),
    ensures
        (final(best)@, *final(best_err) as int) == second_moves(
            samples@,
            (old(best)@, *old(best_err) as int),
            level_stored(old(best)@[0], signed),
            level_stored(old(best)@[1], signed),
            d as int,
            (2 * d + 1) as nat,
            signed,
        ),
        0 <= *final(best_err) <= *old(best_err),
{
    let ghost start = (best@, *best_err as int);
    let b0: i32 = stored_level(best[0], signed);
    let b1: i32 = stored_level(best[1], signed);
    let mut off: i32 = -d;
    while off <= d
        invariant
            0 <= d <= 8,
            -d <= off <= d + 1,
            is_level(b0 as int, signed),
            is_level(b1 as int, signed),
            0 <= *best_err <= *old(best_err) <= 1040400,
            (best@, *best_err as int) == second_moves(
                samples@,
                start,
                b0 as int,
                b1 as int,
                d as int,
                (off + d) as nat,
                signed,
            ),
        decreases d + 1 - off,
    {
        let a1: i32 = moved_level(b1, off, signed);
        if off != 0 && (b0 > a1) == (b0 > b1) {
            consider_alpha(b0, a1, signed, samples, best, best_err);
        }
        off = off + 1;
    }
}

fn move_both(samples: &[u8; 16], signed: bool, best: &mut [u8; 8], best_err: &mut i32, d: i32)
    requires
        0 <= d <= 8,
        0 <= *old(best_err) <= 1040400,
        has_levels(old(best)@, signed),
    ensures
        (final(best)@, *final(best_err) as int) == window(
            samples@,
            (old(best)@, *old(best_err) as int),
            level_stored(old(best)@[0], signed),
            level_stored(old(best)@[1], signed),
            d as int,
            (2 * d + 1) as nat,
            signed,
        ),
        0 <= *final(best_err) <= *old(best_err),
{
    let ghost start = (best@, *best_err as int);
    let b0: i32 = stored_level(best[0], signed);
    let b1: i32 = stored_level(best[1], signed);
    let mut off: i32 = -d;
    while off <= d
        invariant
            0 <= d <= 8,
            -d <= off <= d + 1,
            is_level(b0 as int, signed),
            is_level(b1 as int, signed),
            0 <= *best_err <= *old(best_err) <= 1040400,
            (best@, *best_err as int) == window(
                samples@,
                start,
                b0 as int,
                b1 as int,
                d as int,
                (off + d) as nat,
                signed,
            ),
        decreases d + 1 - off,
    {
        let ghost row = (best@, *best_err as int);
        let mut off1: i32 = -d;
        while off1 <= d
            invariant
                0 <= d <= 8,
                -d <= off <= d,
                -d <= off1 <= d + 1,
                is_level(b0 as int, signed),
                is_level(b1 as int, signed),
                0 <= *best_err <= *old(best_err) <= 1040400,
                (best@, *best_err as int) == window_row(
                    samples@,
                    row,
                    b0 as int,
                    b1 as int,
                    d as int,
                    off as int,
                    (off1 + d) as nat,
                    signed,
                ),
            decreases d + 1 - off1,
        {
            if off != 0 || off1 != 0 {
                consider_alpha(
                    moved_level(b0, off, signed),
                    moved_level(b1, off1, signed),
                    signed,
                    samples,
                    best,
                    best_err,
                );
            }
            off1 = off1 + 1;
        }
        off = off + 1;
    }
}

/// The residual per unit of span: `err * 16 / span`.
pub open spec fn residual_score(err: int, span: int) -> int {
    (err * 16) / max_int(span, 1)
}

/// The residual per unit of span: `null_err * 16 / span`.
pub fn neighborhood_score(null_err: i32, span: i32) -> (r: i32)
    requires
        0 <= null_err <= 1040400,
    ensures
        r == residual_score(null_err as int, span as int),
{
    let d: i32 = if span > 1 {
        span
    } else {
        1
    };
    null_err * 16 / d
}

/// Whether the residual is too small, for the span, to search the
/// neighbourhood.
pub fn skip_neighborhood(null_err: i32, score: i32) -> (r: bool)
    ensures
        r == (null_err <= 4 || score <= 10),
{
    null_err <= 4 || score <= 10
}

/// How far the neighbourhood search goes for a residual.
pub open spec fn search_distance(err: int) -> int {
    if err > 64 {
        2
    } else if err > 8 {
        1
    } else {
        0
    }
}

/// Least squares, then the neighbourhood search, each where the residual
/// promises to repay it. `n` is the number of different levels, six standing
/// for more than five.
pub open spec fn refined(s: Seq<u8>, st: Scored, n: int, span: int, q: EncodeQuality, signed: bool) -> Scored {
    let fast = q == EncodeQuality::Fast;
    let st1 = if st.1 > 8 && (fast || n > 2) {
        alpha_ls_rounds(s, st, 4, signed)
    } else {
        st
    };
    let d = search_distance(st1.1);
    if fast || (n <= 5 && st1.1 <= 24) || d == 0 || st1.1 <= 4 || residual_score(st1.1, span) <= 10 {
        st1
    } else {
        neighbourhood(s, st1, d, n > 5, signed)
    }
}

/// Least squares, then the neighbourhood search, each where the residual
/// promises to repay it.
pub fn refine_alpha(
    samples: &[u8; 16],
    vals: &[i32; 16],
    signed: bool,
    n_unique: usize,
    span: i32,
    q: EncodeQuality,
    best: &mut [u8; 8],
    best_err: &mut i32,
)
    requires
        0 <= *old(best_err) <= 1040400,
        has_levels(old(best)@, signed),
        forall|i: int| 0 <= i < 16 ==> #[trigger] vals@[i] == sample_levels(samples@, signed)[i],
    ensures
        (final(best)@, *final(best_err) as int) == refined(
            samples@,
            (old(best)@, *old(best_err) as int),
            n_unique as int,
            span as int,
            q,
            signed,
        ),
        0 <= *final(best_err) <= *old(best_err),
{
    let fast: bool = q == EncodeQuality::Fast;
    if *best_err > 8 && (fast || n_unique > 2) {
        let ghost start = (best@, *best_err as int);
        proof {
            assert(vals@.map_values(|v: i32| v as int) =~= sample_levels(samples@, signed));
        }
        let mut left: u32 = 4;
        while left > 0
            invariant_except_break
                alpha_ls_rounds(samples@, start, 4, signed) == alpha_ls_rounds(
                    samples@,
                    (best@, *best_err as int),
                    left as nat,
                    signed,
                ),
            invariant
                0 <= *best_err <= *old(best_err) <= 1040400,
                has_levels(best@, signed),
                vals@.map_values(|v: i32| v as int) == sample_levels(samples@, signed),
            ensures
                0 <= *best_err <= *old(best_err),
                has_levels(best@, signed),
                (best@, *best_err as int) == alpha_ls_rounds(samples@, start, 4, signed),
            decreases left,
        {
            match ls_alpha_endpoints(vals, best, signed) {
                None => {
                    break;
                },
                Some((r0, r1)) => {
                    let prev: i32 = *best_err;
                    proof {
                        lemma_consider_levels(samples@, (best@, *best_err as int), r0 as int, r1 as int, signed);
                    }
                    consider_alpha(r0, r1, signed, samples, best, best_err);
                    proof {
                        lemma_consider_levels(samples@, (best@, *best_err as int), r1 as int, r0 as int, signed);
                    }
                    consider_alpha(r1, r0, signed, samples, best, best_err);
                    left = left - 1;
                    if *best_err == 0 || *best_err >= prev {
                        break;
                    }
                },
            }
        }
    }
    if fast || (n_unique <= 5 && *best_err <= 24) {
        return;
    }
    let d: i32 = if *best_err > 64 {
        2
    } else if *best_err > 8 {
        1
    } else {
        0
    };
    if d == 0 {
        return;
    }
    let score: i32 = neighborhood_score(*best_err, span);
    if skip_neighborhood(*best_err, score) {
        return;
    }
    refine_alpha_neighborhood(samples, signed, best, best_err, d, n_unique > 5);
}

/// The block that encoding sixteen samples gives, and its error.
///
/// Equal samples need one pair. Otherwise both orders of the extreme levels
/// are tried, then all pairs of the levels where there are few, or the
/// extremes drawn in by one where there are many, then the refinements.
pub open spec fn alpha_searched(s: Seq<u8>, q: EncodeQuality, signed: bool) -> Scored {
    let lo = low_level(s, signed);
    let hi = high_level(s, signed);
    let first = alpha_block(s, hi, lo, signed);
    if lo == hi {
        first
    } else {
        let st = consider(s, first, lo, hi, signed);
        let u = distinct(sample_levels(s, signed), 16);
        let n = min_int(u.len() as int, 6);
        let span = hi - lo;
        let st1 = if q == EncodeQuality::Fast {
            st
        } else if n <= 5 {
            if st.1 > 4 && (n <= 4 || st.1 > 16) {
                all_pairs(s, st, u, u.len(), signed)
            } else {
                st
            }
        } else if span > 4 {
            consider(s, consider(s, st, hi - 1, lo + 1, signed), lo + 1, hi - 1, signed)
        } else {
            st
        };
        refined(s, st1, n, span, q, signed)
    }
}

/// The block that encoding sixteen samples gives, and its error: the search,
/// then the wide sweep where it is on and promises to repay its cost.
pub open spec fn alpha_encoded(s: Seq<u8>, q: EncodeQuality, signed: bool) -> Scored {
    let st = alpha_searched(s, q, signed);
    if sweeps(signed) && q != EncodeQuality::Fast && worth_sweeping(
        high_level(s, signed) - low_level(s, signed),
        st.1,
        signed,
    ) {
        swept(s, st, signed)
    } else {
        st
    }
}

/// Searches the block of sixteen samples: its bytes, its error and the span of
/// the levels.
fn search_alpha_block(samples: &[u8; 16], q: EncodeQuality, signed: bool) -> (r: ([u8; 8], i32, i32))
    ensures
        (r.0@, r.1 as int) == alpha_searched(samples@, q, signed),
        r.2 == high_level(samples@, signed) - low_level(samples@, signed),
{
    let (vals, lo, hi) = levels_of(samples, signed);
    proof {
        law_alpha_score(samples@, hi as int, lo as int, signed);
    }
    let mut best: [u8; 8] = [0u8; 8];
    let mut best_err: i32 = 0;
    if let Some((b, e)) = pack_alpha_scored(hi, lo, signed, samples, i32::MAX) {
        best = b;
        best_err = e;
    }
    if lo == hi {
        return (best, best_err, 0);
    }
    proof {
        lemma_consider_levels(samples@, (best@, best_err as int), lo as int, hi as int, signed);
    }
    consider_alpha(lo, hi, signed, samples, &mut best, &mut best_err);
    let span: i32 = hi - lo;
    let (n_unique, uniq) = unique_values_capped(&vals, 5);
    let ghost u = distinct(sample_levels(samples@, signed), 16);
    proof {
        assert(vals@.map_values(|v: i32| v as int) =~= sample_levels(samples@, signed));
        if n_unique <= 5 {
            assert(Seq::new(n_unique as nat, |k: int| uniq@[k] as int) =~= u);
            assert forall|k: int| 0 <= k < n_unique implies is_level(#[trigger] uniq@[k] as int, signed) by {
                let i = choose|i: int| 0 <= i < 16 && vals@[i] == uniq@[k];
                assert(is_level(vals@[i] as int, signed));
            }
        }
    }
    if q != EncodeQuality::Fast {
        if n_unique <= 5 {
            if best_err > 4 && (n_unique <= 4 || best_err > 16) {
                proof {
                    lemma_all_pairs_levels(samples@, (best@, best_err as int), u, u.len(), signed);
                }
                consider_unique_pairs(samples, signed, &uniq, n_unique, &mut best, &mut best_err);
            }
        } else if span > 4 {
            proof {
                lemma_consider_levels(samples@, (best@, best_err as int), hi - 1, lo + 1, signed);
            }
            consider_alpha(hi - 1, lo + 1, signed, samples, &mut best, &mut best_err);
            proof {
                lemma_consider_levels(samples@, (best@, best_err as int), lo + 1, hi - 1, signed);
            }
            consider_alpha(lo + 1, hi - 1, signed, samples, &mut best, &mut best_err);
        }
    }
    refine_alpha(samples, &vals, signed, n_unique, span, q, &mut best, &mut best_err);
    (best, best_err, span)
}

/// Encodes sixteen samples as a block of two endpoints and 3-bit indices.
pub fn encode_alpha_block(samples: &[u8; 16], q: EncodeQuality, signed: bool) -> (r: [u8; 8])
    ensures
        r@ == alpha_encoded(samples@, q, signed).0,
{
    let (mut best, mut best_err, span) = search_alpha_block(samples, q, signed);
    proof {
        lemma_alpha_searched(samples@, q, signed);
    }
    if window_enabled(signed) && q != EncodeQuality::Fast && sweep_gate(span, best_err, signed) {
        window_sweep(samples, signed, &mut best, &mut best_err);
    }
    best
}

proof fn lemma_pairs_with_levels(s: Seq<u8>, st: Scored, u: Seq<int>, i: int, j: nat, signed: bool)
    requires
        s.len() == 16,
        has_levels(st.0, signed),
        0 <= i < u.len(),
        j <= u.len(),
        forall|k: int| 0 <= k < u.len() ==> is_level(#[trigger] u[k], signed),
    ensures
        has_levels(pairs_with(s, st, u, i, j, signed).0, signed),
    decreases j,
{
    if j > 0 {
        lemma_pairs_with_levels(s, st, u, i, (j - 1) as nat, signed);
        lemma_consider_levels(s, pairs_with(s, st, u, i, (j - 1) as nat, signed), u[i], u[j - 1], signed);
    }
}

proof fn lemma_all_pairs_levels(s: Seq<u8>, st: Scored, u: Seq<int>, i: nat, signed: bool)
    requires
        s.len() == 16,
        has_levels(st.0, signed),
        i <= u.len(),
        forall|k: int| 0 <= k < u.len() ==> is_level(#[trigger] u[k], signed),
    ensures
        has_levels(all_pairs(s, st, u, i, signed).0, signed),
    decreases i,
{
    if i > 0 {
        lemma_all_pairs_levels(s, st, u, (i - 1) as nat, signed);
        lemma_pairs_with_levels(s, all_pairs(s, st, u, (i - 1) as nat, signed), u, i - 1, u.len(), signed);
    }
}

/// What every candidate block is: eight bytes with endpoint levels, scored by
/// the error that they decode to.
pub open spec fn sound_alpha(s: Seq<u8>, st: Scored, signed: bool) -> bool {
    &&& has_levels(st.0, signed)
    &&& st.1 == alpha_decoded_error(s, st.0, signed)
    &&& 0 <= st.1 <= 1040400
}

pub proof fn lemma_consider_sound(s: Seq<u8>, st: Scored, a0: int, a1: int, signed: bool)
    requires
        s.len() == 16,
        sound_alpha(s, st, signed),
        is_level(a0, signed),
        is_level(a1, signed),
    ensures
        sound_alpha(s, consider(s, st, a0, a1, signed), signed),
        consider(s, st, a0, a1, signed).1 <= st.1,
{
    law_alpha_score(s, a0, a1, signed);
}

proof fn lemma_pairs_sound(s: Seq<u8>, st: Scored, u: Seq<int>, i: nat, j: nat, signed: bool)
    requires
        s.len() == 16,
        sound_alpha(s, st, signed),
        i < u.len(),
        j <= u.len(),
        forall|k: int| 0 <= k < u.len() ==> is_level(#[trigger] u[k], signed),
    ensures
        sound_alpha(s, pairs_with(s, st, u, i as int, j, signed), signed),
        pairs_with(s, st, u, i as int, j, signed).1 <= st.1,
    decreases j,
{
    if j > 0 {
        lemma_pairs_sound(s, st, u, i, (j - 1) as nat, signed);
        lemma_consider_sound(
            s,
            pairs_with(s, st, u, i as int, (j - 1) as nat, signed),
            u[i as int],
            u[j - 1],
            signed,
        );
    }
}

pub proof fn lemma_all_pairs_sound(s: Seq<u8>, st: Scored, u: Seq<int>, i: nat, signed: bool)
    requires
        s.len() == 16,
        sound_alpha(s, st, signed),
        i <= u.len(),
        forall|k: int| 0 <= k < u.len() ==> is_level(#[trigger] u[k], signed),
    ensures
        sound_alpha(s, all_pairs(s, st, u, i, signed), signed),
        all_pairs(s, st, u, i, signed).1 <= st.1,
    decreases i,
{
    if i > 0 {
        lemma_all_pairs_sound(s, st, u, (i - 1) as nat, signed);
        lemma_pairs_sound(s, all_pairs(s, st, u, (i - 1) as nat, signed), u, (i - 1) as nat, u.len(), signed);
    }
}

proof fn lemma_round_clamped_range(b: u32, signed: bool)
    ensures
        is_level(round_clamped(b, lowest(signed), highest(signed)), signed),
{
    reveal(round_clamped);
}

proof fn lemma_ls_rounds_sound(s: Seq<u8>, st: Scored, n: nat, signed: bool)
    requires
        s.len() == 16,
        sound_alpha(s, st, signed),
    ensures
        sound_alpha(s, alpha_ls_rounds(s, st, n, signed), signed),
        alpha_ls_rounds(s, st, n, signed).1 <= st.1,
    decreases n,
{
    if n > 0 {
        let lv = sample_levels(s, signed);
        if let Some((a, b)) = alpha_ls(lv, st.0, signed) {
            let ws = alpha_weights(alpha_indices(st.0));
            let xs = float_values(lv);
            let k = float_sum(float_ones(), 16);
            let sw = float_sum(ws, 16);
            let sw2 = dot(ws, ws, 16);
            let sx = float_sum(xs, 16);
            let sxw = dot(xs, ws, 16);
            let det = difference(product(k, sw2), product(sw, sw));
            lemma_round_clamped_range(quotient(difference(product(sx, sw2), product(sxw, sw)), det), signed);
            lemma_round_clamped_range(quotient(difference(product(k, sxw), product(sw, sx)), det), signed);
            lemma_consider_sound(s, st, a, b, signed);
            let mid = consider(s, st, a, b, signed);
            lemma_consider_sound(s, mid, b, a, signed);
            lemma_ls_rounds_sound(s, consider(s, mid, b, a, signed), (n - 1) as nat, signed);
        }
    }
}

proof fn lemma_first_moves_sound(s: Seq<u8>, st: Scored, b0: int, b1: int, d: int, k: nat, signed: bool)
    requires
        s.len() == 16,
        sound_alpha(s, st, signed),
        is_level(b0, signed),
        is_level(b1, signed),
    ensures
        sound_alpha(s, first_moves(s, st, b0, b1, d, k, signed), signed),
        first_moves(s, st, b0, b1, d, k, signed).1 <= st.1,
    decreases k,
{
    if k > 0 {
        lemma_first_moves_sound(s, st, b0, b1, d, (k - 1) as nat, signed);
        lemma_consider_sound(
            s,
            first_moves(s, st, b0, b1, d, (k - 1) as nat, signed),
            moved(b0, k - 1 - d, signed),
            b1,
            signed,
        );
    }
}

proof fn lemma_second_moves_sound(s: Seq<u8>, st: Scored, b0: int, b1: int, d: int, k: nat, signed: bool)
    requires
        s.len() == 16,
        sound_alpha(s, st, signed),
        is_level(b0, signed),
        is_level(b1, signed),
    ensures
        sound_alpha(s, second_moves(s, st, b0, b1, d, k, signed), signed),
        second_moves(s, st, b0, b1, d, k, signed).1 <= st.1,
    decreases k,
{
    if k > 0 {
        lemma_second_moves_sound(s, st, b0, b1, d, (k - 1) as nat, signed);
        lemma_consider_sound(
            s,
            second_moves(s, st, b0, b1, d, (k - 1) as nat, signed),
            b0,
            moved(b1, k - 1 - d, signed),
            signed,
        );
    }
}

proof fn lemma_window_row_sound(s: Seq<u8>, st: Scored, b0: int, b1: int, d: int, off: int, k: nat, signed: bool)
    requires
        s.len() == 16,
        sound_alpha(s, st, signed),
    ensures
        sound_alpha(s, window_row(s, st, b0, b1, d, off, k, signed), signed),
        window_row(s, st, b0, b1, d, off, k, signed).1 <= st.1,
    decreases k,
{
    if k > 0 {
        lemma_window_row_sound(s, st, b0, b1, d, off, (k - 1) as nat, signed);
        lemma_consider_sound(
            s,
            window_row(s, st, b0, b1, d, off, (k - 1) as nat, signed),
            moved(b0, off, signed),
            moved(b1, k - 1 - d, signed),
            signed,
        );
    }
}

proof fn lemma_window_sound(s: Seq<u8>, st: Scored, b0: int, b1: int, d: int, k: nat, signed: bool)
    requires
        s.len() == 16,
        sound_alpha(s, st, signed),
    ensures
        sound_alpha(s, window(s, st, b0, b1, d, k, signed), signed),
        window(s, st, b0, b1, d, k, signed).1 <= st.1,
    decreases k,
{
    if k > 0 {
        lemma_window_sound(s, st, b0, b1, d, (k - 1) as nat, signed);
        lemma_window_row_sound(
            s,
            window(s, st, b0, b1, d, (k - 1) as nat, signed),
            b0,
            b1,
            d,
            k - 1 - d,
            (2 * d + 1) as nat,
            signed,
        );
    }
}

pub proof fn lemma_refined_sound(s: Seq<u8>, st: Scored, n: int, span: int, q: EncodeQuality, signed: bool)
    requires
        s.len() == 16,
        sound_alpha(s, st, signed),
    ensures
        sound_alpha(s, refined(s, st, n, span, q, signed), signed),
        refined(s, st, n, span, q, signed).1 <= st.1,
{
    let fast = q == EncodeQuality::Fast;
    lemma_ls_rounds_sound(s, st, 4, signed);
    let st1 = if st.1 > 8 && (fast || n > 2) {
        alpha_ls_rounds(s, st, 4, signed)
    } else {
        st
    };
    let d = search_distance(st1.1);
    let k = (2 * d + 1) as nat;
    let b0 = level_stored(st1.0[0], signed);
    let b1 = level_stored(st1.0[1], signed);
    lemma_first_moves_sound(s, st1, b0, b1, d, k, signed);
    let mid = first_moves(s, st1, b0, b1, d, k, signed);
    lemma_second_moves_sound(
        s,
        mid,
        level_stored(mid.0[0], signed),
        level_stored(mid.0[1], signed),
        d,
        k,
        signed,
    );
    lemma_window_sound(s, st1, b0, b1, d, k, signed);
}

pub proof fn lemma_levels_in_range(s: Seq<u8>, signed: bool, n: nat)
    requires
        s.len() == 16,
        n <= 16,
    ensures
        is_level(seq_low(sample_levels(s, signed), highest(signed), n), signed),
        is_level(seq_high(sample_levels(s, signed), lowest(signed), n), signed),
        n > 0 ==> seq_low(sample_levels(s, signed), highest(signed), n) <= seq_high(
            sample_levels(s, signed),
            lowest(signed),
            n,
        ),
        forall|k: int| 0 <= k < distinct(sample_levels(s, signed), n).len() ==> is_level(
            #[trigger] distinct(sample_levels(s, signed), n)[k],
            signed,
        ),
    decreases n,
{
    if n > 0 {
        lemma_levels_in_range(s, signed, (n - 1) as nat);
        let lv = sample_levels(s, signed);
        let before = distinct(lv, (n - 1) as nat);
        assert(is_level(lv[n - 1], signed));
        assert forall|k: int| 0 <= k < distinct(lv, n).len() implies is_level(#[trigger] distinct(lv, n)[k], signed) by {
            if k < before.len() {
                assert(distinct(lv, n)[k] == before[k]);
            }
        }
    }
}

pub proof fn lemma_alpha_searched(s: Seq<u8>, q: EncodeQuality, signed: bool)
    requires
        s.len() == 16,
    ensures
        sound_alpha(s, alpha_searched(s, q, signed), signed),
        alpha_searched(s, q, signed).1 <= alpha_block(s, high_level(s, signed), low_level(s, signed), signed).1,
{
    let lo = low_level(s, signed);
    let hi = high_level(s, signed);
    lemma_levels_in_range(s, signed, 16);
    law_alpha_score(s, hi, lo, signed);
    let first = alpha_block(s, hi, lo, signed);
    if lo != hi {
        lemma_consider_sound(s, first, lo, hi, signed);
        let st = consider(s, first, lo, hi, signed);
        let u = distinct(sample_levels(s, signed), 16);
        lemma_all_pairs_sound(s, st, u, u.len(), signed);
        lemma_consider_sound(s, st, hi - 1, lo + 1, signed);
        lemma_consider_sound(s, consider(s, st, hi - 1, lo + 1, signed), lo + 1, hi - 1, signed);
        let n = min_int(u.len() as int, 6);
        let span = hi - lo;
        let st1 = if q == EncodeQuality::Fast {
            st
        } else if n <= 5 {
            if st.1 > 4 && (n <= 4 || st.1 > 16) {
                all_pairs(s, st, u, u.len(), signed)
            } else {
                st
            }
        } else if span > 4 {
            consider(s, consider(s, st, hi - 1, lo + 1, signed), lo + 1, hi - 1, signed)
        } else {
            st
        };
        lemma_refined_sound(s, st1, n, span, q, signed);
    }
}

pub proof fn lemma_alpha_encoded(s: Seq<u8>, q: EncodeQuality, signed: bool)
    requires
        s.len() == 16,
    ensures
        sound_alpha(s, alpha_encoded(s, q, signed), signed),
        alpha_encoded(s, q, signed).1 <= alpha_searched(s, q, signed).1,
        alpha_encoded(s, q, signed).1 <= alpha_block(s, high_level(s, signed), low_level(s, signed), signed).1,
{
    lemma_alpha_searched(s, q, signed);
    let st = alpha_searched(s, q, signed);
    lemma_window_sound(
        s,
        st,
        level_stored(st.0[0], signed),
        level_stored(st.0[1], signed),
        REACH as int,
        (2 * REACH + 1) as nat,
        signed,
    );
}

/// The search never ends with more error than the plain minimum and maximum
/// endpoints have.
pub proof fn law_alpha_never_worse_than_seed(s: Seq<u8>, q: EncodeQuality, signed: bool)
    requires
        s.len() == 16,
    ensures
        alpha_decoded_error(s, alpha_encoded(s, q, signed).0, signed) <= alpha_decoded_error(
            s,
            alpha_block(s, high_level(s, signed), low_level(s, signed), signed).0,
            signed,
        ),
{
    lemma_alpha_encoded(s, q, signed);
    lemma_levels_in_range(s, signed, 16);
    law_alpha_score(s, high_level(s, signed), low_level(s, signed), signed);
}

/// The squared error of the bytes that a block decodes to.
pub fn alpha_sse(samples: &[u8; 16], b: &[u8; 8], signed: bool) -> (err: i32)
    requires
        has_levels(b@, signed),
    ensures
        err == alpha_decoded_error(samples@, b@, signed),
{
    proof {
        reveal(alpha_decoded_error);
    }
    let pal: [u8; 8] = alpha_palette_of(stored_level(b[0], signed), stored_level(b[1], signed), signed);
    let idx: [u8; 16] = alpha_index_bits(b);
    let ghost want = alpha_decoded_costs(samples@, b@, signed);
    let mut err: i32 = 0;
    let mut i: usize = 0;
    while i < 16
        invariant
            i <= 16,
            pal@ == alpha_palette(level_stored(b@[0], signed), level_stored(b@[1], signed), signed),
            idx@ == alpha_indices(b@),
            forall|i: int| 0 <= i < 16 ==> #[trigger] idx@[i] < 8,
            want == alpha_decoded_costs(samples@, b@, signed),
            err == total(want, i as nat),
            0 <= err <= i * 65025,
        decreases 16 - i,
    {
        let d: i32 = sq_diff(pal[idx[i] as usize], samples[i]);
        proof {
            assert(want[i as int] == d);
        }
        err = err + d;
        i = i + 1;
    }
    err
}

/// The block that the flat path gives: the extreme levels as endpoints, and for
/// signed samples also in the other order.
pub open spec fn alpha_flat(s: Seq<u8>, signed: bool) -> Scored {
    let lo = low_level(s, signed);
    let hi = high_level(s, signed);
    let first = alpha_block(s, hi, lo, signed);
    if signed {
        consider(s, first, lo, hi, signed)
    } else {
        first
    }
}

/// Encodes sixteen samples with the extreme levels as endpoints.
pub fn encode_alpha_block_flat(samples: &[u8; 16], signed: bool) -> (r: [u8; 8])
    ensures
        r@ == alpha_flat(samples@, signed).0,
{
    let (_vals, lo, hi) = levels_of(samples, signed);
    proof {
        law_alpha_score(samples@, hi as int, lo as int, signed);
    }
    let mut best: [u8; 8] = [0u8; 8];
    let mut best_err: i32 = 0;
    if let Some((b, e)) = pack_alpha_scored(hi, lo, signed, samples, i32::MAX) {
        best = b;
        best_err = e;
    }
    if signed {
        consider_alpha(lo, hi, signed, samples, &mut best, &mut best_err);
    }
    best
}

/// One channel of a block.
pub open spec fn column(px: Seq<Seq<u8>>, c: int) -> Seq<u8> {
    Seq::new(16, |i: int| px[i][c])
}

/// One channel of a block.
pub fn channel_of(px: &[[u8; 4]; 16], c: usize) -> (s: [u8; 16])
    requires
        c < 4,
    ensures
        s@ == column(rows(*px), c as int),
{
    let mut s: [u8; 16] = [0u8; 16];
    let mut i: usize = 0;
    while i < 16
        invariant
            i <= 16,
            c < 4,
            forall|k: int| 0 <= k < i ==> #[trigger] s@[k] == rows(*px)[k][c as int],
        decreases 16 - i,
    {
        s[i] = px[i][c];
        i = i + 1;
    }
    proof {
        assert(s@ =~= column(rows(*px), c as int));
    }
    s
}

/// Encodes the red channel of one block as BC4.
pub fn encode_bc4(px: &[[u8; 4]; 16], signed: bool, q: EncodeQuality, out: &mut [u8])
    requires
        old(out)@.len() >= 8,
    ensures
        final(out)@ == splice(old(out)@, 0, alpha_encoded(column(rows(*px), 0), q, signed).0),
        alpha_encoded(column(rows(*px), 0), q, signed).0.len() == 8,
{
    let s: [u8; 16] = channel_of(px, 0);
    let b: [u8; 8] = encode_alpha_block(&s, q, signed);
    store(out, 0, &b);
}

/// Encodes the red and green channels of one block as BC5.
pub fn encode_bc5(px: &[[u8; 4]; 16], signed: bool, q: EncodeQuality, out: &mut [u8])
    requires
        old(out)@.len() >= 16,
    ensures
        final(out)@ == splice(
            old(out)@,
            0,
            alpha_encoded(column(rows(*px), 0), q, signed).0 + alpha_encoded(column(rows(*px), 1), q, signed).0,
        ),
        alpha_encoded(column(rows(*px), 0), q, signed).0.len() == 8,
        alpha_encoded(column(rows(*px), 1), q, signed).0.len() == 8,
{
    let r: [u8; 16] = channel_of(px, 0);
    let g: [u8; 16] = channel_of(px, 1);
    let a: [u8; 8] = encode_alpha_block(&r, q, signed);
    let b: [u8; 8] = encode_alpha_block(&g, q, signed);
    store(out, 0, &a);
    store(out, 8, &b);
    proof {
        assert(out@ =~= splice(old(out)@, 0, a@ + b@));
    }
}

/// Encodes the red channel of one block as BC4, extreme levels only.
pub fn encode_bc4_flat(px: &[[u8; 4]; 16], signed: bool, out: &mut [u8])
    requires
        old(out)@.len() >= 8,
    ensures
        final(out)@ == splice(old(out)@, 0, alpha_flat(column(rows(*px), 0), signed).0),
        alpha_flat(column(rows(*px), 0), signed).0.len() == 8,
{
    let s: [u8; 16] = channel_of(px, 0);
    let b: [u8; 8] = encode_alpha_block_flat(&s, signed);
    store(out, 0, &b);
}

/// Encodes the red and green channels of one block as BC5, extreme levels only.
pub fn encode_bc5_flat(px: &[[u8; 4]; 16], signed: bool, out: &mut [u8])
    requires
        old(out)@.len() >= 16,
    ensures
        final(out)@ == splice(
            old(out)@,
            0,
            alpha_flat(column(rows(*px), 0), signed).0 + alpha_flat(column(rows(*px), 1), signed).0,
        ),
        alpha_flat(column(rows(*px), 0), signed).0.len() == 8,
        alpha_flat(column(rows(*px), 1), signed).0.len() == 8,
{
    let r: [u8; 16] = channel_of(px, 0);
    let g: [u8; 16] = channel_of(px, 1);
    let a: [u8; 8] = encode_alpha_block_flat(&r, signed);
    let b: [u8; 8] = encode_alpha_block_flat(&g, signed);
    store(out, 0, &a);
    store(out, 8, &b);
    proof {
        assert(out@ =~= splice(old(out)@, 0, a@ + b@));
    }
}

/// Encodes one block as BC3: an alpha block, then a BC1 colour block.
pub fn encode_bc3(px: &[[u8; 4]; 16], q: EncodeQuality, out: &mut [u8])
    requires
        old(out)@.len() >= 16,
    ensures
        final(out)@ == splice(
            old(out)@,
            0,
            alpha_encoded(column(rows(*px), 3), q, false).0 + bc1_encoded(rows(*px), q).0,
        ),
        alpha_encoded(column(rows(*px), 3), q, false).0.len() == 8,
        bc1_encoded(rows(*px), q).0.len() == 8,
{
    let s: [u8; 16] = channel_of(px, 3);
    let a: [u8; 8] = encode_alpha_block(&s, q, false);
    let b: [u8; 8] = encode_bc1_bytes(px, q);
    store(out, 0, &a);
    store(out, 8, &b);
    proof {
        assert(out@ =~= splice(old(out)@, 0, a@ + b@));
    }
}

} // verus!
