//! BC6H for unsigned half-floats, one subset with 10-bit endpoints and 4-bit
//! indices.
//!
//! All of it works on the bit patterns of halves: for numbers that are not
//! negative the pattern grows with the number, and what a block decodes to is a
//! pattern, so targets and palette entries compare as integers.

use vstd::arithmetic::power2::pow2;
use vstd::prelude::*;

use crate::binary32::{lemma_units_split, rounded, units};
use crate::content::product3;
use crate::encode::blocks::bc7::{index_fields, inverted, invert_indices, weight4, weights4, write_indices};
use crate::encode::blocks::rdo::{joined, lemma_block_position};
use crate::encode::blocks::{block_count, blocks_across, max_int, min_int, BitWriter};
use crate::error::Error;
use crate::model::{best_of, bit_string, first_min, fit_costs, fit_error, fit_indices, le_bytes, lemma_first_min_in, lemma_total_eq, power_of_two, splice, sq, store, total};
use crate::rounding::lemma_rounded_exact;

verus! {

/// The largest finite half, as a single-precision pattern.
pub const HALF_MAX: u32 = 0x477F_E000;

/// The unsigned half nearest to a single-precision number, both as patterns:
/// halves round up in magnitude. Negative numbers and NaN give zero, numbers
/// above the range the largest finite half, and numbers below `2^-24` zero.
pub open spec fn half_of(v: u32) -> int {
    if v == 0 || v > 0x7F80_0000 {
        0
    } else {
        let b = min_int(v as int, HALF_MAX as int);
        let e = b / 0x80_0000;
        if e < 103 {
            0
        } else if e < 113 {
            let s = (126 - e) as nat;
            (b % 0x80_0000 + 0x80_0000 + pow2((s - 1) as nat)) / (pow2(s) as int)
        } else {
            min_int((b + 4096) / 8192 - 114688, 0x7BFF)
        }
    }
}

pub proof fn lemma_half_small(m: int, s: nat)
    requires
        0x80_0000 <= m < 0x100_0000,
        14 <= s <= 23,
    ensures
        0 <= (m + pow2((s - 1) as nat)) / (pow2(s) as int) <= 1024,
        16384 <= pow2(s) <= 0x80_0000,
        pow2((s - 1) as nat) < pow2(s),
{
    vstd::arithmetic::power2::lemma2_to64();
    let p = pow2(s) as int;
    let h = pow2((s - 1) as nat) as int;
    assert(p == 2 * h) by {
        vstd::arithmetic::power2::lemma_pow2_unfold(s);
    }
    if s > 14 {
        vstd::arithmetic::power2::lemma_pow2_strictly_increases(14, s);
    }
    if s < 23 {
        vstd::arithmetic::power2::lemma_pow2_strictly_increases(s, 23);
    }
    assert(m + h <= 1024 * p + (p - 1));
    assert((m + h) / p <= 1024) by (nonlinear_arith)
        requires
            m + h <= 1024 * p + (p - 1),
            p > 0,
    ;
    assert((m + h) / p >= 0) by (nonlinear_arith)
        requires
            m + h >= 0,
            p > 0,
    ;
}

/// The unsigned half nearest to a single-precision number, both as patterns.
pub fn f32_to_half_uf16(v: u32) -> (h: u16)
    ensures
        h == half_of(v),
        h <= 0x7BFF,
{
    if v == 0 || v > 0x7F80_0000 {
        return 0;
    }
    let b: u32 = if v < HALF_MAX {
        v
    } else {
        HALF_MAX
    };
    let e: u32 = b / 0x80_0000;
    if e < 103 {
        return 0;
    }
    if e < 113 {
        let m: u32 = b % 0x80_0000 + 0x80_0000;
        let s: u32 = 126 - e;
        proof {
            lemma_half_small(m as int, s as nat);
        }
        let p: u32 = power_of_two(s) as u32;
        let r: u32 = power_of_two(s - 1) as u32;
        return ((m + r) / p) as u16;
    }
    let h: u32 = (b + 4096) / 8192 - 114688;
    if h > 0x7BFF {
        0x7BFF
    } else {
        h as u16
    }
}

/// The single-precision pattern of the unsigned finite half `h`: below `0x400`
/// a half counts steps of `2^-24`, which are `2^125` units each; above, the
/// exponent is rebased.
pub open spec fn single_of(h: int) -> u32 {
    if h < 0x400 {
        rounded((h * pow2(125)) as nat, 1) as u32
    } else {
        ((h + 114688) * 8192) as u32
    }
}

/// A half below `0x400`, brought up by `k` bits, is the significand of its
/// single-precision pattern.
proof fn lemma_single_small(h: int, k: nat)
    requires
        14 <= k <= 23,
        0x80_0000 <= h * pow2(k) < 0x100_0000,
        0 < h < 0x400,
    ensures
        single_of(h) == (125 - k) * 0x80_0000 + h * pow2(k),
        half_of(single_of(h)) == h,
{
    let q = (h * pow2(k)) as nat;
    let e = (125 - k) as nat;
    let p = e * 0x80_0000 + q;
    lemma_units_split(e, q);
    vstd::arithmetic::power2::lemma_pow2_adds(k, e);
    assert(h * pow2(125) == q * pow2(e)) by (nonlinear_arith)
        requires
            q == h * pow2(k),
            pow2(125) == pow2(k) * pow2(e),
    ;
    lemma_rounded_exact(p, 1);
    assert(units(p) * 1 == (h * pow2(125)) as nat);
    assert(single_of(h) == p);
    assert(p / 0x80_0000 == e + 1 && p % 0x80_0000 == q - 0x80_0000);
    lemma_half_small(q as int, k);
    let (d, r) = (pow2(k) as int, pow2((k - 1) as nat) as int);
    assert((h * d + r) / d == h) by (nonlinear_arith)
        requires
            0 <= r < d,
    ;
}

/// A half is kept by its single-precision pattern: converted back it is the
/// same half.
pub proof fn law_halves_are_kept(h: int)
    requires
        0 <= h <= 0x7BFF,
    ensures
        half_of(single_of(h)) == h,
{
    vstd::arithmetic::power2::lemma2_to64();
    if h == 0 {
        reveal(units);
        lemma_rounded_exact(0, 1);
        assert(h * pow2(125) == 0) by (nonlinear_arith)
            requires
                h == 0,
        ;
    } else if h < 0x400 {
        assert(pow2(14) == 0x4000 && pow2(15) == 0x8000 && pow2(16) == 0x1_0000 && pow2(17) == 0x2_0000);
        assert(pow2(18) == 0x4_0000 && pow2(19) == 0x8_0000 && pow2(20) == 0x10_0000 && pow2(21) == 0x20_0000);
        assert(pow2(22) == 0x40_0000 && pow2(23) == 0x80_0000);
        if h >= 512 {
            lemma_single_small(h, 14);
        } else if h >= 256 {
            lemma_single_small(h, 15);
        } else if h >= 128 {
            lemma_single_small(h, 16);
        } else if h >= 64 {
            lemma_single_small(h, 17);
        } else if h >= 32 {
            lemma_single_small(h, 18);
        } else if h >= 16 {
            lemma_single_small(h, 19);
        } else if h >= 8 {
            lemma_single_small(h, 20);
        } else if h >= 4 {
            lemma_single_small(h, 21);
        } else if h >= 2 {
            lemma_single_small(h, 22);
        } else {
            lemma_single_small(h, 23);
        }
    }
}

/// Larger numbers have halves that are not smaller.
pub proof fn law_half_is_monotone(a: u32, b: u32)
    requires
        a <= b <= 0x7F80_0000,
    ensures
        half_of(a) <= half_of(b),
{
    let x = min_int(a as int, HALF_MAX as int);
    let y = min_int(b as int, HALF_MAX as int);
    let ex = x / 0x80_0000;
    let ey = y / 0x80_0000;
    if 103 <= ey < 113 {
        lemma_half_small(y % 0x80_0000 + 0x80_0000, (126 - ey) as nat);
    }
    if 103 <= ex < 113 && a != 0 {
        let s = (126 - ex) as nat;
        let mx = x % 0x80_0000 + 0x80_0000;
        lemma_half_small(mx, s);
        if ey == ex {
            let my = y % 0x80_0000 + 0x80_0000;
            let h = pow2((s - 1) as nat) as int;
            vstd::arithmetic::div_mod::lemma_div_is_ordered(mx + h, my + h, pow2(s) as int);
        } else if ey < 113 {
            lemma_subnormal_step(mx, y % 0x80_0000 + 0x80_0000, s, (126 - ey) as nat);
        } else {
            assert((y + 4096) / 8192 - 114688 >= 1024);
        }
    }
}

proof fn lemma_subnormal_step(m: int, n: int, s: nat, t: nat)
    requires
        0x80_0000 <= m < 0x100_0000,
        0x80_0000 <= n < 0x100_0000,
        14 <= t < s <= 23,
    ensures
        (m + pow2((s - 1) as nat)) / (pow2(s) as int) <= (n + pow2((t - 1) as nat)) / (pow2(t) as int),
{
    let (ps, hs) = (pow2(s) as int, pow2((s - 1) as nat) as int);
    let (pt, ht) = (pow2(t) as int, pow2((t - 1) as nat) as int);
    lemma_half_small(m, s);
    lemma_half_small(n, t);
    vstd::arithmetic::power2::lemma_pow2_unfold(s);
    let k = 0x100_0000int;
    let u = (24 - s) as nat;
    vstd::arithmetic::power2::lemma_pow2_adds(s, u);
    vstd::arithmetic::power2::lemma2_to64();
    let q = pow2(u) as int;
    assert(k == ps * q);
    assert(ps == 2 * hs);
    assert((m + hs) / ps <= q) by (nonlinear_arith)
        requires
            m < ps * q,
            ps == 2 * hs,
            ps > 0,
    ;
    let v = (24 - t) as nat;
    vstd::arithmetic::power2::lemma_pow2_adds(t, v);
    vstd::arithmetic::power2::lemma_pow2_unfold(v);
    let r = pow2(v) as int;
    let g = pow2((v - 1) as nat) as int;
    assert(r == 2 * g);
    assert(k == pt * r);
    if u < v - 1 {
        vstd::arithmetic::power2::lemma_pow2_strictly_increases(u, (v - 1) as nat);
    }
    assert(q <= g);
    assert((n + ht) / pt >= g) by (nonlinear_arith)
        requires
            2 * n >= pt * r,
            r == 2 * g,
            ht >= 0,
            pt > 0,
    ;
}

/// The 16-bit level that a 10-bit endpoint stands for.
pub open spec fn level10(q: int) -> int {
    if q == 0 {
        0
    } else if q == 1023 {
        0xFFFF
    } else {
        (q * 65536 + 32768) / 1024
    }
}

/// The half, as a pattern, that a 16-bit level stands for.
pub open spec fn half_of_level(v: int) -> int {
    v * 31 / 64
}

/// The 16-bit level that a 10-bit endpoint stands for.
pub fn unquantize10(q: i32) -> (v: i32)
    requires
        0 <= q < 1024,
    ensures
        v == level10(q as int),
        0 <= v <= 65535,
{
    if q == 0 {
        0
    } else if q == 1023 {
        0xFFFF
    } else {
        (q * 65536 + 32768) / 1024
    }
}

/// The half that a 16-bit level stands for.
pub fn half_from_interp(v: i32) -> (h: i32)
    requires
        0 <= v <= 65535,
    ensures
        h == half_of_level(v as int),
        0 <= h <= 31743,
{
    v * 31 / 64
}

/// The 10-bit endpoints tried for a target: two on either side of the estimate.
pub open spec fn tried10(t: int) -> (int, int) {
    (max_int(t / 31 - 2, 0), min_int(t / 31 + 2, 1023))
}

/// The squared distances of the tried endpoints from a target.
pub open spec fn costs10(t: int) -> Seq<int> {
    let (lo, hi) = tried10(t);
    Seq::new((hi - lo + 1) as nat, |k: int| sq(half_of_level(level10(lo + k)) - t))
}

/// The 10-bit endpoint whose half is nearest to a target, the first among
/// equals; zero where the target is above every endpoint tried.
pub open spec fn nearest10(t: int) -> int {
    let (lo, hi) = tried10(t);
    if lo > hi {
        0
    } else {
        lo + best_of(costs10(t))
    }
}

/// The 10-bit endpoint whose half is nearest to a target.
pub fn quantize10_for_half(target: i32) -> (q: i32)
    requires
        0 <= target <= 65504,
    ensures
        q == nearest10(target as int),
        0 <= q < 1024,
{
    let est: i32 = target / 31;
    let lo: i32 = if est > 2 {
        est - 2
    } else {
        0
    };
    let hi: i32 = if est + 2 < 1023 {
        est + 2
    } else {
        1023
    };
    if lo > hi {
        return 0;
    }
    let ghost costs = costs10(target as int);
    let mut best: i32 = lo;
    let mut best_e: i64 = i64::MAX;
    let mut q: i32 = lo;
    while q <= hi
        invariant
            0 <= target <= 65504,
            (lo as int, hi as int) == tried10(target as int),
            lo <= hi <= 1023,
            lo <= q <= hi + 1,
            0 <= lo,
            costs == costs10(target as int),
            q == lo ==> best == lo && best_e == i64::MAX,
            q > lo ==> lo <= best < q && best - lo == first_min(costs, (q - lo) as nat) && best_e == costs[best - lo],
        decreases hi + 1 - q,
    {
        let d: i64 = (half_from_interp(unquantize10(q)) - target) as i64;
        proof {
            reveal(sq);
            assert(0 <= d * d <= 65504 * 65504) by (nonlinear_arith)
                requires
                    -65504 <= d <= 65504,
            ;
            assert(costs[q - lo] == d * d);
        }
        let e: i64 = d * d;
        if e < best_e {
            best_e = e;
            best = q;
        }
        q = q + 1;
    }
    best
}

/// Three integers.
pub open spec fn ints3(a: [i32; 3]) -> Seq<int> {
    Seq::new(3, |c: int| a@[c] as int)
}

/// Sixteen triples of integers.
pub open spec fn triples(a: [[i32; 3]; 16]) -> Seq<Seq<int>> {
    Seq::new(16, |i: int| ints3(a@[i]))
}

/// Patterns of halves: sixteen triples in range.
pub open spec fn are_halves(h: Seq<Seq<int>>) -> bool {
    &&& h.len() == 16
    &&& forall|i: int| 0 <= i < 16 ==> (#[trigger] h[i]).len() == 3
    &&& forall|i: int, c: int| 0 <= i < 16 && 0 <= c < 3 ==> 0 <= #[trigger] h[i][c] <= 31743
}

/// Entry `k` of the palette of a channel's endpoints.
pub open spec fn entry11(a: int, b: int, k: int) -> int {
    half_of_level((level10(a) * (64 - weights4()[k]) + level10(b) * weights4()[k] + 32) / 64)
}

/// The palette of an endpoint pair.
pub open spec fn palette11(qw: Seq<int>, qx: Seq<int>) -> Seq<Seq<int>> {
    Seq::new(16, |k: int| Seq::new(3, |c: int| entry11(qw[c], qx[c], k)))
}

pub proof fn lemma_entry(a: int, b: int, k: int)
    requires
        0 <= a < 1024,
        0 <= b < 1024,
        0 <= k < 16,
    ensures
        0 <= weights4()[k] <= 64,
        0 <= level10(a) * (64 - weights4()[k]) <= 65535 * 64,
        0 <= level10(b) * weights4()[k] <= 65535 * 64,
        0 <= level10(a) * (64 - weights4()[k]) + level10(b) * weights4()[k] <= 65535 * 64,
        0 <= entry11(a, b, k) <= 31743,
{
    let w = weights4()[k];
    let (x, y) = (level10(a), level10(b));
    assert(0 <= x <= 65535 && 0 <= y <= 65535);
    assert(0 <= w <= 64);
    assert(0 <= x * (64 - w) && 0 <= y * w && x * (64 - w) + y * w <= 65535 * 64) by (nonlinear_arith)
        requires
            0 <= x <= 65535,
            0 <= y <= 65535,
            0 <= w <= 64,
    ;
}

/// The palette of an endpoint pair.
pub fn palette(qw: [i32; 3], qx: [i32; 3]) -> (pal: [[i32; 3]; 16])
    requires
        forall|c: int| 0 <= c < 3 ==> 0 <= #[trigger] qw@[c] < 1024,
        forall|c: int| 0 <= c < 3 ==> 0 <= #[trigger] qx@[c] < 1024,
    ensures
        triples(pal) == palette11(ints3(qw), ints3(qx)),
        are_halves(triples(pal)),
{
    let mut pal: [[i32; 3]; 16] = [[0i32; 3]; 16];
    let mut k: usize = 0;
    while k < 16
        invariant
            k <= 16,
            forall|c: int| 0 <= c < 3 ==> 0 <= #[trigger] qw@[c] < 1024,
            forall|c: int| 0 <= c < 3 ==> 0 <= #[trigger] qx@[c] < 1024,
            forall|j: int, c: int|
                0 <= j < k && 0 <= c < 3 ==> #[trigger] pal@[j]@[c] == entry11(qw@[c] as int, qx@[c] as int, j),
        decreases 16 - k,
    {
        let w: i32 = weight4(k) as i32;
        let mut e: [i32; 3] = [0i32; 3];
        let mut c: usize = 0;
        while c < 3
            invariant
                c <= 3,
                k < 16,
                w == weights4()[k as int],
                forall|c: int| 0 <= c < 3 ==> 0 <= #[trigger] qw@[c] < 1024,
                forall|c: int| 0 <= c < 3 ==> 0 <= #[trigger] qx@[c] < 1024,
                forall|d: int| 0 <= d < c ==> #[trigger] e@[d] == entry11(qw@[d] as int, qx@[d] as int, k as int),
            decreases 3 - c,
        {
            proof {
                lemma_entry(qw@[c as int] as int, qx@[c as int] as int, k as int);
            }
            let x: i32 = unquantize10(qw[c]) * (64 - w);
            let y: i32 = unquantize10(qx[c]) * w;
            e[c] = half_from_interp((x + y + 32) / 64);
            c = c + 1;
        }
        pal[k] = e;
        k = k + 1;
    }
    proof {
        assert forall|j: int| 0 <= j < 16 implies triples(pal)[j] == palette11(ints3(qw), ints3(qx))[j] by {
            assert(triples(pal)[j] =~= palette11(ints3(qw), ints3(qx))[j]);
        }
        assert(triples(pal) =~= palette11(ints3(qw), ints3(qx)));
        assert forall|i: int, c: int| 0 <= i < 16 && 0 <= c < 3 implies 0 <= #[trigger] triples(pal)[i][c] <= 31743 by {
            lemma_entry(qw@[c] as int, qx@[c] as int, i);
            assert(pal@[i]@[c] == entry11(qw@[c] as int, qx@[c] as int, i));
        }
    }
    pal
}

/// Counted from the other end, the palette of the swapped pair is the palette
/// of the pair.
pub proof fn law_swapped_endpoints_mirror_the_palette(qw: Seq<int>, qx: Seq<int>, k: int)
    requires
        0 <= k < 16,
    ensures
        palette11(qx, qw)[15 - k] == palette11(qw, qx)[k],
{
    assert(weights4()[15 - k] == 64 - weights4()[k]);
    assert forall|c: int| 0 <= c < 3 implies palette11(qx, qw)[15 - k][c] == palette11(qw, qx)[k][c] by {
        let w = weights4()[k];
        let (x, y) = (level10(qw[c]), level10(qx[c]));
        assert(y * (64 - (64 - w)) + x * (64 - w) == x * (64 - w) + y * w);
    }
    assert(palette11(qx, qw)[15 - k] =~= palette11(qw, qx)[k]);
}

/// The squared distance of two triples.
pub open spec fn distance3(p: Seq<int>, q: Seq<int>) -> int {
    sq(p[0] - q[0]) + sq(p[1] - q[1]) + sq(p[2] - q[2])
}

/// The squared distance of each texel from each palette entry.
pub open spec fn costs11(h: Seq<Seq<int>>, pal: Seq<Seq<int>>) -> Seq<Seq<int>> {
    Seq::new(16, |i: int| Seq::new(16, |k: int| distance3(pal[k], h[i])))
}

fn distance(p: &[i32; 3], q: &[i32; 3]) -> (d: i64)
    requires
        forall|c: int| 0 <= c < 3 ==> 0 <= #[trigger] p@[c] <= 31743,
        forall|c: int| 0 <= c < 3 ==> 0 <= #[trigger] q@[c] <= 31743,
    ensures
        d == distance3(ints3(*p), ints3(*q)),
        0 <= d <= 3022854147,
{
    let x: i64 = (p[0] - q[0]) as i64;
    let y: i64 = (p[1] - q[1]) as i64;
    let z: i64 = (p[2] - q[2]) as i64;
    proof {
        reveal(sq);
        assert(0 <= x * x <= 1007618049) by (nonlinear_arith)
            requires
                -31743 <= x <= 31743,
        ;
        assert(0 <= y * y <= 1007618049) by (nonlinear_arith)
            requires
                -31743 <= y <= 31743,
        ;
        assert(0 <= z * z <= 1007618049) by (nonlinear_arith)
            requires
                -31743 <= z <= 31743,
        ;
    }
    x * x + y * y + z * z
}

fn nearest_entry(px: &[i32; 3], pal: &[[i32; 3]; 16], Ghost(costs): Ghost<Seq<int>>) -> (r: (u8, i64))
    requires
        are_halves(triples(*pal)),
        forall|c: int| 0 <= c < 3 ==> 0 <= #[trigger] px@[c] <= 31743,
        costs == Seq::new(16, |k: int| distance3(triples(*pal)[k], ints3(*px))),
    ensures
        r.0 == best_of(costs),
        r.0 < 16,
        r.1 == costs[r.0 as int],
        0 <= r.1 <= 3022854147,
{
    proof {
        assert forall|k: int, c: int| 0 <= k < 16 && 0 <= c < 3 implies 0 <= #[trigger] pal@[k]@[c] <= 31743 by {
            assert(triples(*pal)[k][c] == pal@[k]@[c]);
        }
    }
    let mut best: usize = 0;
    let mut best_e: i64 = distance(&pal[0], px);
    let mut k: usize = 1;
    while k < 16
        invariant
            1 <= k <= 16,
            best < k,
            forall|k: int, c: int| 0 <= k < 16 && 0 <= c < 3 ==> 0 <= #[trigger] pal@[k]@[c] <= 31743,
            forall|c: int| 0 <= c < 3 ==> 0 <= #[trigger] px@[c] <= 31743,
            costs == Seq::new(16, |k: int| distance3(triples(*pal)[k], ints3(*px))),
            best == first_min(costs, k as nat),
            best_e == costs[best as int],
            0 <= best_e <= 3022854147,
        decreases 16 - k,
    {
        let e: i64 = distance(&pal[k], px);
        proof {
            assert(costs[k as int] == e);
        }
        if e < best_e {
            best_e = e;
            best = k;
        }
        k = k + 1;
    }
    (best as u8, best_e)
}

/// The nearest palette entry of each texel, the first among equals, and the
/// whole squared error.
pub fn fit(halves: &[[i32; 3]; 16], pal: &[[i32; 3]; 16]) -> (r: ([u8; 16], i64))
    requires
        are_halves(triples(*halves)),
        are_halves(triples(*pal)),
    ensures
        r.0@ == fit_indices(costs11(triples(*halves), triples(*pal))),
        r.1 == fit_error(costs11(triples(*halves), triples(*pal))),
        forall|i: int| 0 <= i < 16 ==> #[trigger] r.0@[i] < 16,
        0 <= r.1 <= 16 * 3022854147,
{
    let ghost costs = costs11(triples(*halves), triples(*pal));
    let mut idx: [u8; 16] = [0u8; 16];
    let mut err: i64 = 0;
    let mut i: usize = 0;
    while i < 16
        invariant
            i <= 16,
            are_halves(triples(*halves)),
            are_halves(triples(*pal)),
            costs == costs11(triples(*halves), triples(*pal)),
            forall|k: int| 0 <= k < i ==> #[trigger] idx@[k] == fit_indices(costs)[k],
            forall|k: int| 0 <= k < i ==> #[trigger] idx@[k] < 16,
            err == total(fit_costs(costs), i as nat),
            0 <= err <= i * 3022854147,
        decreases 16 - i,
    {
        proof {
            assert forall|c: int| 0 <= c < 3 implies 0 <= #[trigger] halves@[i as int]@[c] <= 31743 by {
                assert(triples(*halves)[i as int][c] == halves@[i as int]@[c]);
            }
            assert(costs[i as int] =~= Seq::new(16, |k: int| distance3(triples(*pal)[k], ints3(halves@[i as int]))));
        }
        let (k, e) = nearest_entry(&halves[i], pal, Ghost(costs[i as int]));
        proof {
            assert(fit_indices(costs)[i as int] == k);
            assert(fit_costs(costs)[i as int] == e);
        }
        idx[i] = k;
        err = err + e;
        i = i + 1;
    }
    proof {
        assert(idx@ =~= fit_indices(costs));
    }
    (idx, err)
}

/// Endpoints, indices and error of a fit.
pub type Fit11 = (Seq<int>, Seq<int>, Seq<u8>, int);

/// The quantised endpoints of a triple.
pub open spec fn quantised3(e: Seq<int>) -> Seq<int> {
    Seq::new(3, |c: int| nearest10(e[c]))
}

/// The fit of an endpoint pair. The first index must be below eight, since its
/// high bit is not stored; where it is not, the pair changes places.
pub open spec fn fit11(h: Seq<Seq<int>>, e0: Seq<int>, e1: Seq<int>) -> Fit11 {
    let (qw, qx) = (quantised3(e0), quantised3(e1));
    let costs = costs11(h, palette11(qw, qx));
    let idx = fit_indices(costs);
    if idx[0] > 7 {
        (qx, qw, inverted(idx, 15), fit_error(costs))
    } else {
        (qw, qx, idx, fit_error(costs))
    }
}

/// A candidate block.
pub struct Candidate {
    pub qw: [i32; 3],
    pub qx: [i32; 3],
    pub idx: [u8; 16],
    pub err: i64,
}

impl Candidate {
    /// The fit that the candidate holds.
    pub open spec fn view(&self) -> Fit11 {
        (ints3(self.qw), ints3(self.qx), self.idx@, self.err as int)
    }

    /// The candidate's levels and indices are in range.
    pub open spec fn wf(&self) -> bool {
        &&& forall|c: int| 0 <= c < 3 ==> 0 <= #[trigger] self.qw@[c] < 1024
        &&& forall|c: int| 0 <= c < 3 ==> 0 <= #[trigger] self.qx@[c] < 1024
        &&& forall|i: int| 0 <= i < 16 ==> #[trigger] self.idx@[i] < 16
        &&& self.idx@[0] < 8
        &&& self.err >= 0
    }
}

fn quantise3(e: [i32; 3]) -> (q: [i32; 3])
    requires
        forall|c: int| 0 <= c < 3 ==> 0 <= #[trigger] e@[c] <= 65504,
    ensures
        ints3(q) == quantised3(ints3(e)),
        forall|c: int| 0 <= c < 3 ==> 0 <= #[trigger] q@[c] < 1024,
{
    let q: [i32; 3] = [quantize10_for_half(e[0]), quantize10_for_half(e[1]), quantize10_for_half(e[2])];
    proof {
        assert(ints3(q) =~= quantised3(ints3(e)));
    }
    q
}

/// Quantises an endpoint pair, fits the indices, and puts the anchor in order.
pub fn try_pair(halves: &[[i32; 3]; 16], e0: [i32; 3], e1: [i32; 3]) -> (r: Candidate)
    requires
        are_halves(triples(*halves)),
        forall|c: int| 0 <= c < 3 ==> 0 <= #[trigger] e0@[c] <= 65504,
        forall|c: int| 0 <= c < 3 ==> 0 <= #[trigger] e1@[c] <= 65504,
    ensures
        r@ == fit11(triples(*halves), ints3(e0), ints3(e1)),
        r.wf(),
{
    let qw: [i32; 3] = quantise3(e0);
    let qx: [i32; 3] = quantise3(e1);
    let pal: [[i32; 3]; 16] = palette(qw, qx);
    let (idx, err) = fit(halves, &pal);
    if idx[0] > 7 {
        Candidate { qw: qx, qx: qw, idx: invert_indices(idx, 15), err }
    } else {
        Candidate { qw, qx, idx, err }
    }
}

/// The error of a fit is the squared distance of the texels from the entries
/// that its stored endpoints and indices stand for.
pub proof fn law_bc6h_score(h: Seq<Seq<int>>, e0: Seq<int>, e1: Seq<int>)
    ensures
        ({
            let f = fit11(h, e0, e1);
            f.3 == total(Seq::new(16, |i: int| distance3(palette11(f.0, f.1)[f.2[i] as int], h[i])), 16)
        }),
        fit11(h, e0, e1).2[0] < 8,
{
    let (qw, qx) = (quantised3(e0), quantised3(e1));
    let pal = palette11(qw, qx);
    let costs = costs11(h, pal);
    let idx = fit_indices(costs);
    let f = fit11(h, e0, e1);
    let want = Seq::new(16, |i: int| distance3(palette11(f.0, f.1)[f.2[i] as int], h[i]));
    assert forall|i: int| 0 <= i < 16 implies #[trigger] fit_costs(costs)[i] == want[i] by {
        lemma_first_min_in(costs[i], 16);
        let k = best_of(costs[i]);
        assert(idx[i] == k);
        law_swapped_endpoints_mirror_the_palette(qw, qx, k);
        assert(costs[i][k] == distance3(pal[k], h[i]));
    }
    assert(idx[0] < 16) by {
        lemma_first_min_in(costs[0], 16);
    }
    lemma_total_eq(fit_costs(costs), want, 16);
}

/// `64 * num / den` rounded half up, kept between zero and the largest half
/// value.
pub open spec fn clamped_ratio(num: int, den: int) -> int {
    let (n, d) = if den < 0 {
        (-num, -den)
    } else {
        (num, den)
    };
    if n <= 0 {
        0
    } else {
        min_int((128 * n + d) / (2 * d), 65504)
    }
}

/// The weights that indices stand for, in 64ths.
pub open spec fn weights_of(idx: Seq<u8>) -> Seq<int> {
    Seq::new(16, |i: int| weights4()[idx[i] as int])
}

/// The normal equations of a least-squares fit, the weights in 64ths.
pub open spec fn normal_terms(w: Seq<int>) -> (int, int, int) {
    (
        total(Seq::new(16, |i: int| (64 - w[i]) * (64 - w[i])), 16),
        total(Seq::new(16, |i: int| (64 - w[i]) * w[i]), 16),
        total(Seq::new(16, |i: int| w[i] * w[i]), 16),
    )
}

/// The right-hand sides for one channel.
pub open spec fn normal_sides(h: Seq<Seq<int>>, w: Seq<int>, c: int) -> (int, int) {
    (
        total(Seq::new(16, |i: int| (64 - w[i]) * h[i][c]), 16),
        total(Seq::new(16, |i: int| w[i] * h[i][c]), 16),
    )
}

/// The endpoints that fit best to given indices; none where the indices do not
/// determine two endpoints.
pub open spec fn ls11(h: Seq<Seq<int>>, idx: Seq<u8>) -> Option<(Seq<int>, Seq<int>)> {
    let w = weights_of(idx);
    let (a00, a01, a11) = normal_terms(w);
    let det = a00 * a11 - a01 * a01;
    if -16 <= det <= 16 {
        None
    } else {
        Some(
            (
                Seq::new(
                    3,
                    |c: int| clamped_ratio(a11 * normal_sides(h, w, c).0 - a01 * normal_sides(h, w, c).1, det),
                ),
                Seq::new(
                    3,
                    |c: int| clamped_ratio(a00 * normal_sides(h, w, c).1 - a01 * normal_sides(h, w, c).0, det),
                ),
            ),
        )
    }
}

fn ratio(num: i64, den: i64) -> (r: i32)
    requires
        -0x1000_0000_0000 <= num <= 0x1000_0000_0000,
        den != 0,
        -0x4_0000_0000 <= den <= 0x4_0000_0000,
    ensures
        r == clamped_ratio(num as int, den as int),
        0 <= r <= 65504,
{
    let (n, d): (i64, i64) = if den < 0 {
        (-num, -den)
    } else {
        (num, den)
    };
    if n <= 0 {
        return 0;
    }
    let v: i64 = (128 * n + d) / (2 * d);
    proof {
        assert(v >= 0) by (nonlinear_arith)
            requires
                v == (128 * n + d) / (2 * d),
                n > 0,
                d > 0,
        ;
    }
    if v > 65504 {
        65504
    } else {
        v as i32
    }
}

fn sums_of_weights(idx: &[u8; 16]) -> (r: (i64, i64, i64))
    requires
        forall|i: int| 0 <= i < 16 ==> #[trigger] idx@[i] < 16,
    ensures
        (r.0 as int, r.1 as int, r.2 as int) == normal_terms(weights_of(idx@)),
        0 <= r.0 <= 65536,
        0 <= r.1 <= 65536,
        0 <= r.2 <= 65536,
{
    let ghost w = weights_of(idx@);
    let ghost s00 = Seq::new(16, |i: int| (64 - w[i]) * (64 - w[i]));
    let ghost s01 = Seq::new(16, |i: int| (64 - w[i]) * w[i]);
    let ghost s11 = Seq::new(16, |i: int| w[i] * w[i]);
    let mut a00: i64 = 0;
    let mut a01: i64 = 0;
    let mut a11: i64 = 0;
    let mut i: usize = 0;
    while i < 16
        invariant
            i <= 16,
            forall|i: int| 0 <= i < 16 ==> #[trigger] idx@[i] < 16,
            w == weights_of(idx@),
            s00 == Seq::new(16, |i: int| (64 - w[i]) * (64 - w[i])),
            s01 == Seq::new(16, |i: int| (64 - w[i]) * w[i]),
            s11 == Seq::new(16, |i: int| w[i] * w[i]),
            a00 == total(s00, i as nat),
            a01 == total(s01, i as nat),
            a11 == total(s11, i as nat),
            0 <= a00 <= 4096 * i,
            0 <= a01 <= 4096 * i,
            0 <= a11 <= 4096 * i,
        decreases 16 - i,
    {
        let k: i64 = weight4(idx[i] as usize) as i64;
        let u: i64 = 64 - k;
        proof {
            assert(0 <= u * u <= 4096 && 0 <= u * k <= 4096 && 0 <= k * k <= 4096) by (nonlinear_arith)
                requires
                    0 <= u <= 64,
                    0 <= k <= 64,
            ;
        }
        a00 = a00 + u * u;
        a01 = a01 + u * k;
        a11 = a11 + k * k;
        i = i + 1;
    }
    (a00, a01, a11)
}

fn sums_of_channel(halves: &[[i32; 3]; 16], idx: &[u8; 16], c: usize) -> (r: (i64, i64))
    requires
        c < 3,
        are_halves(triples(*halves)),
        forall|i: int| 0 <= i < 16 ==> #[trigger] idx@[i] < 16,
    ensures
        (r.0 as int, r.1 as int) == normal_sides(triples(*halves), weights_of(idx@), c as int),
        0 <= r.0 <= 0x200_0000,
        0 <= r.1 <= 0x200_0000,
{
    let ghost h = triples(*halves);
    let ghost w = weights_of(idx@);
    let ghost s0 = Seq::new(16, |i: int| (64 - w[i]) * h[i][c as int]);
    let ghost s1 = Seq::new(16, |i: int| w[i] * h[i][c as int]);
    let mut b0: i64 = 0;
    let mut b1: i64 = 0;
    let mut i: usize = 0;
    while i < 16
        invariant
            i <= 16,
            c < 3,
            h == triples(*halves),
            are_halves(h),
            forall|i: int| 0 <= i < 16 ==> #[trigger] idx@[i] < 16,
            w == weights_of(idx@),
            s0 == Seq::new(16, |i: int| (64 - w[i]) * h[i][c as int]),
            s1 == Seq::new(16, |i: int| w[i] * h[i][c as int]),
            b0 == total(s0, i as nat),
            b1 == total(s1, i as nat),
            0 <= b0 <= 2031552 * i,
            0 <= b1 <= 2031552 * i,
        decreases 16 - i,
    {
        let k: i64 = weight4(idx[i] as usize) as i64;
        let u: i64 = 64 - k;
        let x: i64 = halves[i][c] as i64;
        proof {
            assert(h[i as int][c as int] == x);
            assert(0 <= u * x <= 2031552 && 0 <= k * x <= 2031552) by (nonlinear_arith)
                requires
                    0 <= u <= 64,
                    0 <= k <= 64,
                    0 <= x <= 31743,
            ;
        }
        b0 = b0 + u * x;
        b1 = b1 + k * x;
        i = i + 1;
    }
    (b0, b1)
}

proof fn lemma_product_bound(a: int, b: int, m: int, n: int)
    requires
        0 <= a <= m,
        0 <= b <= n,
    ensures
        0 <= a * b <= m * n,
{
    assert(0 <= a * b <= m * n) by (nonlinear_arith)
        requires
            0 <= a <= m,
            0 <= b <= n,
    ;
}

/// The endpoints that fit best to given indices.
pub fn ls_endpoints(halves: &[[i32; 3]; 16], idx: &[u8; 16]) -> (r: Option<([i32; 3], [i32; 3])>)
    requires
        are_halves(triples(*halves)),
        forall|i: int| 0 <= i < 16 ==> #[trigger] idx@[i] < 16,
    ensures
        r is None ==> ls11(triples(*halves), idx@) is None,
        r matches Some((a, b)) ==> ls11(triples(*halves), idx@) == Some((ints3(a), ints3(b))) && (forall|c: int|
            0 <= c < 3 ==> 0 <= #[trigger] a@[c] <= 65504) && (forall|c: int| 0 <= c < 3 ==> 0 <= #[trigger] b@[c] <= 65504),
{
    let ghost h = triples(*halves);
    let ghost w = weights_of(idx@);
    let (a00, a01, a11) = sums_of_weights(idx);
    proof {
        lemma_product_bound(a00 as int, a11 as int, 65536, 65536);
        lemma_product_bound(a01 as int, a01 as int, 65536, 65536);
    }
    let det: i64 = a00 * a11 - a01 * a01;
    if det >= -16 && det <= 16 {
        return None;
    }
    let mut e0: [i32; 3] = [0i32; 3];
    let mut e1: [i32; 3] = [0i32; 3];
    let mut c: usize = 0;
    while c < 3
        invariant
            c <= 3,
            h == triples(*halves),
            are_halves(h),
            forall|i: int| 0 <= i < 16 ==> #[trigger] idx@[i] < 16,
            w == weights_of(idx@),
            (a00 as int, a01 as int, a11 as int) == normal_terms(w),
            0 <= a00 <= 65536,
            0 <= a01 <= 65536,
            0 <= a11 <= 65536,
            det == a00 * a11 - a01 * a01,
            det != 0,
            -0x4_0000_0000 <= det <= 0x4_0000_0000,
            forall|k: int|
                0 <= k < c ==> #[trigger] e0@[k] == clamped_ratio(
                    a11 * normal_sides(h, w, k).0 - a01 * normal_sides(h, w, k).1,
                    det as int,
                ),
            forall|k: int|
                0 <= k < c ==> #[trigger] e1@[k] == clamped_ratio(
                    a00 * normal_sides(h, w, k).1 - a01 * normal_sides(h, w, k).0,
                    det as int,
                ),
            forall|k: int| 0 <= k < c ==> 0 <= #[trigger] e0@[k] <= 65504,
            forall|k: int| 0 <= k < c ==> 0 <= #[trigger] e1@[k] <= 65504,
        decreases 3 - c,
    {
        let (b0, b1) = sums_of_channel(halves, idx, c);
        proof {
            lemma_product_bound(a11 as int, b0 as int, 65536, 0x200_0000);
            lemma_product_bound(a01 as int, b1 as int, 65536, 0x200_0000);
            lemma_product_bound(a00 as int, b1 as int, 65536, 0x200_0000);
            lemma_product_bound(a01 as int, b0 as int, 65536, 0x200_0000);
        }
        e0[c] = ratio(a11 * b0 - a01 * b1, det);
        e1[c] = ratio(a00 * b1 - a01 * b0, det);
        c = c + 1;
    }
    proof {
        let want = ls11(h, idx@).unwrap();
        assert(ints3(e0) =~= want.0);
        assert(ints3(e1) =~= want.1);
    }
    Some((e0, e1))
}

/// The largest value of a channel over the first `n` texels.
pub open spec fn top_of(h: Seq<Seq<int>>, c: int, n: nat) -> int
    decreases n,
{
    if n == 0 {
        0
    } else {
        max_int(top_of(h, c, (n - 1) as nat), h[n - 1][c])
    }
}

/// The smallest value of a channel over the first `n` texels.
pub open spec fn bottom_of(h: Seq<Seq<int>>, c: int, n: nat) -> int
    decreases n,
{
    if n == 0 {
        31743
    } else {
        min_int(bottom_of(h, c, (n - 1) as nat), h[n - 1][c])
    }
}

/// The first fit of a block: between the channels' extremes.
pub open spec fn seed11(h: Seq<Seq<int>>) -> Fit11 {
    fit11(h, Seq::new(3, |c: int| top_of(h, c, 16)), Seq::new(3, |c: int| bottom_of(h, c, 16)))
}

/// The fit of a block: the first fit, or its least-squares refit where that is
/// better.
pub open spec fn chosen11(h: Seq<Seq<int>>) -> Fit11 {
    let base = seed11(h);
    if base.3 > 0 {
        match ls11(h, base.2) {
            Some((a, b)) => if fit11(h, a, b).3 < base.3 {
                fit11(h, a, b)
            } else {
                base
            },
            None => base,
        }
    } else {
        base
    }
}

/// The refit never makes a block worse.
pub proof fn law_bc6h_never_worse_than_seed(h: Seq<Seq<int>>)
    ensures
        chosen11(h).3 <= seed11(h).3,
{
}

/// The bit fields of a block.
pub open spec fn fields11(f: Fit11) -> Seq<(int, nat)> {
    seq![
        (3int, 5nat),
        (f.0[0], 10),
        (f.0[1], 10),
        (f.0[2], 10),
        (f.1[0], 10),
        (f.1[1], 10),
        (f.1[2], 10),
    ] + index_fields(f.2, 4)
}

/// The sixteen bytes of a block.
#[verifier::opaque]
pub open spec fn bytes11(f: Fit11) -> Seq<u8> {
    le_bytes(bit_string(fields11(f), 0), 16)
}

/// The halves of sixteen texels, alpha left out.
pub open spec fn halves_of(px: Seq<Seq<u32>>) -> Seq<Seq<int>> {
    Seq::new(16, |i: int| Seq::new(3, |c: int| half_of(px[i][c])))
}

/// The sixteen bytes that a block of texels encodes to.
pub open spec fn bc6h_encoded(px: Seq<Seq<u32>>) -> Seq<u8> {
    bytes11(chosen11(halves_of(px)))
}

/// The texels of a block of single-precision patterns.
pub open spec fn float_rows(px: [[u32; 4]; 16]) -> Seq<Seq<u32>> {
    Seq::new(16, |i: int| px@[i]@)
}

fn to_halves(pixels: &[[u32; 4]; 16]) -> (r: [[i32; 3]; 16])
    ensures
        triples(r) == halves_of(float_rows(*pixels)),
        are_halves(triples(r)),
{
    let mut r: [[i32; 3]; 16] = [[0i32; 3]; 16];
    let mut i: usize = 0;
    while i < 16
        invariant
            i <= 16,
            forall|k: int, c: int|
                0 <= k < i && 0 <= c < 3 ==> #[trigger] r@[k]@[c] == half_of(pixels@[k]@[c]) && 0 <= r@[k]@[c] <= 31743,
        decreases 16 - i,
    {
        r[i] = [
            f32_to_half_uf16(pixels[i][0]) as i32,
            f32_to_half_uf16(pixels[i][1]) as i32,
            f32_to_half_uf16(pixels[i][2]) as i32,
        ];
        i = i + 1;
    }
    proof {
        assert forall|k: int| 0 <= k < 16 implies triples(r)[k] == halves_of(float_rows(*pixels))[k] by {
            assert(triples(r)[k] =~= halves_of(float_rows(*pixels))[k]);
        }
        assert(triples(r) =~= halves_of(float_rows(*pixels)));
        assert forall|i: int, c: int| 0 <= i < 16 && 0 <= c < 3 implies 0 <= #[trigger] triples(r)[i][c] <= 31743 by {
            assert(triples(r)[i][c] == r@[i]@[c]);
        }
    }
    r
}

fn extremes(halves: &[[i32; 3]; 16], c: usize) -> (r: (i32, i32))
    requires
        c < 3,
        are_halves(triples(*halves)),
    ensures
        r.0 == top_of(triples(*halves), c as int, 16),
        r.1 == bottom_of(triples(*halves), c as int, 16),
        0 <= r.0 <= 31743,
        0 <= r.1 <= 31743,
{
    let ghost h = triples(*halves);
    let mut hi: i32 = 0;
    let mut lo: i32 = 31743;
    let mut i: usize = 0;
    while i < 16
        invariant
            i <= 16,
            c < 3,
            h == triples(*halves),
            are_halves(h),
            hi == top_of(h, c as int, i as nat),
            lo == bottom_of(h, c as int, i as nat),
            0 <= hi <= 31743,
            0 <= lo <= 31743,
        decreases 16 - i,
    {
        let v: i32 = halves[i][c];
        proof {
            assert(h[i as int][c as int] == v);
        }
        if v > hi {
            hi = v;
        }
        if v < lo {
            lo = v;
        }
        i = i + 1;
    }
    (hi, lo)
}

fn choose_fit(halves: &[[i32; 3]; 16]) -> (r: Candidate)
    requires
        are_halves(triples(*halves)),
    ensures
        r@ == chosen11(triples(*halves)),
        r.wf(),
{
    let (h0, l0) = extremes(halves, 0);
    let (h1, l1) = extremes(halves, 1);
    let (h2, l2) = extremes(halves, 2);
    let hi: [i32; 3] = [h0, h1, h2];
    let lo: [i32; 3] = [l0, l1, l2];
    proof {
        let h = triples(*halves);
        assert(ints3(hi) =~= Seq::new(3, |c: int| top_of(h, c, 16)));
        assert(ints3(lo) =~= Seq::new(3, |c: int| bottom_of(h, c, 16)));
    }
    let base: Candidate = try_pair(halves, hi, lo);
    if base.err > 0 {
        if let Some((a, b)) = ls_endpoints(halves, &base.idx) {
            let refit: Candidate = try_pair(halves, a, b);
            if refit.err < base.err {
                return refit;
            }
        }
    }
    base
}

fn pack(f: &Candidate) -> (out: [u8; 16])
    requires
        f.wf(),
    ensures
        out@ == bytes11(f@),
{
    proof {
        reveal(bytes11);
    }
    let mut bw: BitWriter = BitWriter::new();
    bw.write_bits(3, 5);
    bw.write_bits(f.qw[0] as u32, 10);
    bw.write_bits(f.qw[1] as u32, 10);
    bw.write_bits(f.qw[2] as u32, 10);
    bw.write_bits(f.qx[0] as u32, 10);
    bw.write_bits(f.qx[1] as u32, 10);
    bw.write_bits(f.qx[2] as u32, 10);
    write_indices(&mut bw, &f.idx, 4);
    proof {
        let (w, x) = (ints3(f.qw), ints3(f.qx));
        assert(w[0] == f.qw@[0] && w[1] == f.qw@[1] && w[2] == f.qw@[2]);
        assert(x[0] == f.qx@[0] && x[1] == f.qx@[1] && x[2] == f.qx@[2]);
        assert(bw@ =~= fields11(f@));
    }
    bw.into_array()
}

/// Encodes one block of single-precision RGBA patterns; alpha is left out.
pub fn encode_block_uf16(pixels: &[[u32; 4]; 16]) -> (out: [u8; 16])
    ensures
        out@ == bc6h_encoded(float_rows(*pixels)),
{
    let halves: [[i32; 3]; 16] = to_halves(pixels);
    let f: Candidate = choose_fit(&halves);
    pack(&f)
}

/// Texel `i` of block `(bx, by)`: positions past the edge repeat the edge.
pub open spec fn float_texel(rgba: Seq<u32>, w: int, h: int, bx: int, by: int, i: int) -> Seq<u32> {
    let x = min_int(4 * bx + i % 4, w - 1);
    let y = min_int(4 * by + i / 4, h - 1);
    Seq::new(4, |c: int| rgba[(y * w + x) * 4 + c])
}

/// The sixteen texels of block number `i` of an image.
pub open spec fn float_block_at(rgba: Seq<u32>, w: int, h: int, i: int) -> Seq<Seq<u32>> {
    Seq::new(16, |t: int| float_texel(rgba, w, h, i % block_count(w), i / block_count(w), t))
}

/// What an image encodes to.
pub open spec fn bc6h_payload(rgba: Seq<u32>, w: int, h: int) -> Seq<u8> {
    joined(
        Seq::new((block_count(w) * block_count(h)) as nat, |i: int| bc6h_encoded(float_block_at(rgba, w, h, i))),
        16,
    )
}

/// Whether the encode of an image succeeds, and if not, why.
pub open spec fn bc6h_encode_outcome(len: int, w: int, h: int, out_len: int) -> Result<(), Error> {
    let need = block_count(w) * block_count(h) * 16;
    if w == 0 || h == 0 {
        Err(Error::InvalidField("zero image dimension"))
    } else if len < w * h * 4 {
        Err(Error::TruncatedData)
    } else if need > usize::MAX {
        Err(Error::OutOfBounds)
    } else if out_len < need {
        Err(Error::TruncatedData)
    } else {
        Ok(())
    }
}

fn gather_floats(rgba: &[u32], w: usize, h: usize, bx: usize, by: usize) -> (px: [[u32; 4]; 16])
    requires
        w > 0,
        h > 0,
        rgba@.len() >= w * h * 4,
        4 * bx < w,
        4 * by < h,
    ensures
        forall|i: int|
            0 <= i < 16 ==> (#[trigger] px@[i])@ == float_texel(rgba@, w as int, h as int, bx as int, by as int, i),
{
    let len: usize = rgba.len();
    let mut px: [[u32; 4]; 16] = [[0u32; 4]; 16];
    let mut i: usize = 0;
    while i < 16
        invariant
            i <= 16,
            len == rgba@.len(),
            w > 0,
            h > 0,
            rgba@.len() >= w * h * 4,
            4 * bx < w,
            4 * by < h,
            forall|k: int|
                0 <= k < i ==> (#[trigger] px@[k])@ =~= float_texel(rgba@, w as int, h as int, bx as int, by as int, k),
        decreases 16 - i,
    {
        let col: usize = i % 4;
        let row: usize = i / 4;
        let x: usize = if col < w - 4 * bx {
            4 * bx + col
        } else {
            w - 1
        };
        let y: usize = if row < h - 4 * by {
            4 * by + row
        } else {
            h - 1
        };
        proof {
            assert(y * w + x < w * h && y * w >= 0) by (nonlinear_arith)
                requires
                    0 <= x < w,
                    0 <= y < h,
            ;
        }
        let k: usize = (y * w + x) * 4;
        px[i] = [rgba[k], rgba[k + 1], rgba[k + 2], rgba[k + 3]];
        i = i + 1;
    }
    px
}

/// Encodes an image of single-precision RGBA patterns into `out`.
pub fn encode_slice_uf16(rgba: &[u32], width: u32, height: u32, out: &mut [u8]) -> (r: Result<(), Error>)
    ensures
        r == bc6h_encode_outcome(rgba@.len() as int, width as int, height as int, old(out)@.len() as int),
        r is Ok ==> final(out)@ == splice(old(out)@, 0, bc6h_payload(rgba@, width as int, height as int)),
        r is Err ==> final(out)@ == old(out)@,
{
    if width == 0 || height == 0 {
        return Err(Error::InvalidField("zero image dimension"));
    }
    let w: usize = width as usize;
    let h: usize = height as usize;
    let len: usize = rgba.len();
    match product3(w, h, 4) {
        Err(_) => {
            return Err(Error::TruncatedData);
        },
        Ok(n) => {
            if len < n {
                return Err(Error::TruncatedData);
            }
        },
    }
    let bx_n: usize = blocks_across(w);
    let by_n: usize = blocks_across(h);
    let out_len: usize = out.len();
    match product3(bx_n, by_n, 16) {
        Err(e) => {
            return Err(e);
        },
        Ok(need) => {
            if out_len < need {
                return Err(Error::TruncatedData);
            }
        },
    }
    let ghost n = bx_n * by_n;
    let ghost want = bc6h_payload(rgba@, w as int, h as int);
    proof {
        assert(n >= 0) by (nonlinear_arith)
            requires
                n == bx_n * by_n,
        ;
    }
    let mut by: usize = 0;
    while by < by_n
        invariant
            by <= by_n,
            w == width,
            h == height,
            w > 0,
            h > 0,
            bx_n == block_count(w as int),
            by_n == block_count(h as int),
            n == bx_n * by_n,
            n * 16 <= out_len,
            out_len == out@.len(),
            out@.len() == old(out)@.len(),
            rgba@.len() >= w * h * 4,
            want == bc6h_payload(rgba@, w as int, h as int),
            want.len() == n * 16,
            forall|k: int| 0 <= k < (by * bx_n) * 16 ==> #[trigger] out@[k] == want[k],
            forall|k: int| (by * bx_n) * 16 <= k < out@.len() ==> #[trigger] out@[k] == old(out)@[k],
        decreases by_n - by,
    {
        let mut bx: usize = 0;
        while bx < bx_n
            invariant
                by < by_n,
                bx <= bx_n,
                w == width,
                h == height,
                w > 0,
                h > 0,
                bx_n == block_count(w as int),
                by_n == block_count(h as int),
                n == bx_n * by_n,
                n * 16 <= out_len,
                out_len == out@.len(),
                out@.len() == old(out)@.len(),
                rgba@.len() >= w * h * 4,
                want == bc6h_payload(rgba@, w as int, h as int),
                want.len() == n * 16,
                forall|k: int| 0 <= k < (by * bx_n + bx) * 16 ==> #[trigger] out@[k] == want[k],
                forall|k: int| (by * bx_n + bx) * 16 <= k < out@.len() ==> #[trigger] out@[k] == old(out)@[k],
            decreases bx_n - bx,
        {
            proof {
                let i = by * bx_n + bx;
                assert(0 <= by * bx_n && i + 1 <= bx_n * by_n) by (nonlinear_arith)
                    requires
                        i == by * bx_n + bx,
                        0 <= bx < bx_n,
                        0 <= by < by_n,
                ;
                lemma_block_position(bx_n as int, bx as int, by as int);
            }
            let px: [[u32; 4]; 16] = gather_floats(rgba, w, h, bx, by);
            let b: [u8; 16] = encode_block_uf16(&px);
            let i: usize = by * bx_n + bx;
            let ghost before = out@;
            store(out, i * 16, vstd::array::array_as_slice(&b));
            proof {
                assert(float_rows(px) =~= float_block_at(rgba@, w as int, h as int, i as int));
                assert forall|k: int| 0 <= k < (i + 1) * 16 implies #[trigger] out@[k] == want[k] by {
                    if k < i * 16 {
                        assert(before[k] == want[k]);
                    } else {
                        assert(k / 16 == i && k % 16 == k - 16 * i);
                        assert(out@[k] == b@[k - 16 * i]);
                    }
                }
                assert forall|k: int| (i + 1) * 16 <= k < out@.len() implies #[trigger] out@[k] == old(out)@[k] by {
                    assert(out@[k] == before[k]);
                }
            }
            bx = bx + 1;
        }
        proof {
            assert((by + 1) * bx_n == by * bx_n + bx_n) by (nonlinear_arith);
        }
        by = by + 1;
    }
    proof {
        assert(by_n * bx_n == bx_n * by_n) by (nonlinear_arith);
        assert(out@ =~= splice(old(out)@, 0, want));
    }
    Ok(())
}

} // verus!
