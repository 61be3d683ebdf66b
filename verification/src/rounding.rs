//! How rounding orders single-precision results.

use vstd::arithmetic::power2::{lemma_pow2_pos, lemma_pow2_unfold, pow2};
use vstd::prelude::*;

use crate::binary32::{ceiling_i32, less, lemma_mid2_increases, lemma_nearest_unique, lemma_units_increases, lemma_units_split, lemma_units_step, mag, mid2, nan, nearest, neg, of_int, product, rounded, sum, units, value, INF};

verus! {

/// One, in units.
pub open spec fn one() -> int {
    pow2(149) as int
}

/// Whether `n / d` units lie above the midpoint below the pattern `r`.
spec fn reaches(n: nat, d: nat, r: nat) -> bool {
    r > 0 ==> (if r % 2 == 0 {
        mid2((r - 1) as nat) * d <= 2 * n
    } else {
        mid2((r - 1) as nat) * d < 2 * n
    })
}

proof fn lemma_nearest_from(n: nat, d: nat, r: nat)
    requires
        r <= INF,
        reaches(n, d, r),
    ensures
        exists|s: nat| nearest(n, d, s),
    decreases INF - r,
{
    if nearest(n, d, r) {
    } else {
        assert(r < INF);
        assert((r + 1 - 1) as nat == r);
        assert(reaches(n, d, r + 1));
        lemma_nearest_from(n, d, r + 1);
    }
}

/// Every quotient has a nearest pattern.
pub proof fn lemma_rounded(n: nat, d: nat)
    ensures
        nearest(n, d, rounded(n, d)),
        rounded(n, d) <= INF,
{
    lemma_nearest_from(n, d, 0);
}

pub proof fn lemma_units_order(a: nat, b: nat)
    requires
        a <= b,
    ensures
        units(a) <= units(b),
{
    if a < b {
        lemma_units_increases(a, b);
    }
}

/// Rounding keeps the order.
pub proof fn lemma_rounded_monotone(n1: nat, d1: nat, n2: nat, d2: nat)
    requires
        d1 > 0,
        d2 > 0,
        n1 * d2 <= n2 * d1,
    ensures
        rounded(n1, d1) <= rounded(n2, d2),
        units(rounded(n1, d1)) <= units(rounded(n2, d2)),
{
    let a = rounded(n1, d1);
    let b = rounded(n2, d2);
    lemma_rounded(n1, d1);
    lemma_rounded(n2, d2);
    if b < a {
        let c = (a - 1) as nat;
        let (x, y) = (mid2(c) as int, mid2(b) as int);
        if b < c {
            lemma_mid2_increases(b, c);
        }
        assert(y <= x);
        assert(x * d1 <= 2 * n1);
        assert(2 * n2 <= y * d2);
        assert(x * d1 * d2 <= 2 * n1 * d2 && 2 * n2 * d1 <= y * d2 * d1 && y * d2 * d1 <= x * d1 * d2) by (nonlinear_arith)
            requires
                x * d1 <= 2 * n1,
                2 * n2 <= y * d2,
                y <= x,
                d1 > 0,
                d2 > 0,
        ;
        assert(2 * n1 * d2 <= 2 * n2 * d1) by (nonlinear_arith)
            requires
                n1 * d2 <= n2 * d1,
        ;
        // All of these are equal, so both sides are at one midpoint, which goes
        // to the even pattern.
        assert(x * d1 * d2 == y * d2 * d1);
        assert(x == y) by (nonlinear_arith)
            requires
                x * d1 * d2 == y * d2 * d1,
                d1 > 0,
                d2 > 0,
        ;
        assert(b == c);
        assert(x * d1 == 2 * n1) by (nonlinear_arith)
            requires
                x * d1 * d2 == 2 * n1 * d2,
                d2 > 0,
        ;
        assert(2 * n2 == y * d2) by (nonlinear_arith)
            requires
                2 * n2 * d1 == y * d2 * d1,
                d1 > 0,
        ;
        assert(false);
    }
    lemma_units_order(a, b);
}

/// A pattern's own value is rounded to it.
pub proof fn lemma_rounded_exact(p: nat, d: nat)
    requires
        p <= INF,
        d > 0,
    ensures
        rounded(units(p) * d, d) == p,
{
    let u = units(p) as int;
    lemma_units_step(p);
    assert(2 * (u * d) < mid2(p) * d) by (nonlinear_arith)
        requires
            2 * u < mid2(p),
            d > 0,
    ;
    if p > 0 {
        lemma_units_step((p - 1) as nat);
        let m = mid2((p - 1) as nat) as int;
        assert(m * d < 2 * (u * d)) by (nonlinear_arith)
            requires
                m < 2 * u,
                d > 0,
        ;
    }
    lemma_nearest_unique(units(p) * d, d, p);
}

/// A whole number of up to 24 bits, shifted far enough, has its own pattern.
proof fn lemma_shifted_from(v: nat, k: nat, room: nat)
    requires
        0 < v < 0x100_0000,
        room <= k <= 200,
        room <= 23,
        v * pow2(room) >= 0x80_0000,
    ensures
        exists|p: nat| #[trigger] units(p) == v * pow2(k) && p < INF,
    decreases room,
{
    if v >= 0x80_0000 {
        lemma_units_split(k, v);
        let p = k * 0x80_0000 + v;
        assert(units(p) == v * pow2(k) && p < INF);
    } else {
        assert(room > 0) by {
            vstd::arithmetic::power2::lemma2_to64();
        }
        lemma_pow2_unfold(room);
        lemma_pow2_unfold(k);
        let (r, j) = ((room - 1) as nat, (k - 1) as nat);
        assert(2 * v * pow2(r) == v * pow2(room) && 2 * v * pow2(j) == v * pow2(k)) by (nonlinear_arith)
            requires
                pow2(room) == 2 * pow2(r),
                pow2(k) == 2 * pow2(j),
        ;
        lemma_shifted_from(2 * v, j, r);
    }
}

/// Whole numbers of up to 24 bits are exact.
pub proof fn lemma_of_int(v: int)
    requires
        0 <= v < 0x100_0000,
    ensures
        !neg(of_int(v)),
        mag(of_int(v)) < INF,
        value(of_int(v)) == v * one(),
        mag(of_int(v)) == 0 <==> v == 0,
{
    reveal(of_int);
    lemma_pow2_pos(149);
    let n = (v * pow2(149)) as nat;
    assert(v * pow2(149) >= 0) by (nonlinear_arith)
        requires
            v >= 0,
    ;
    if v == 0 {
        reveal(units);
        assert(units(0) == 0);
        assert(n == 0) by (nonlinear_arith)
            requires
                n == v * pow2(149),
                v == 0,
        ;
        lemma_rounded_exact(0, 1);
    } else {
        assert(v * pow2(23) >= 0x80_0000) by {
            vstd::arithmetic::power2::lemma2_to64();
            assert(pow2(23) == 0x80_0000);
        }
        lemma_shifted_from(v as nat, 149, 23);
        let p = choose|p: nat| #[trigger] units(p) == v as nat * pow2(149) && p < INF;
        lemma_rounded_exact(p, 1);
        assert(units(p) * 1 == n);
        if p == 0 {
            reveal(units);
            assert(v * pow2(149) > 0) by (nonlinear_arith)
                requires
                    v > 0,
                    pow2(149) > 0,
            ;
        }
    }
}

/// No number that is not infinite reaches the value of infinity's pattern.
pub proof fn lemma_below_infinity(a: u32)
    requires
        mag(a) < INF,
    ensures
        -(units(INF as nat) as int) < value(a) < units(INF as nat),
{
    lemma_units_increases(mag(a), INF as nat);
}

/// What a sum of finite numbers cannot fall below.
pub proof fn lemma_sum_at_least(a: u32, b: u32, c: u32)
    requires
        mag(a) < INF,
        mag(b) < INF,
        mag(c) < INF,
        value(c) <= value(a) + value(b),
    ensures
        !nan(sum(a, b)),
        value(c) <= value(sum(a, b)),
{
    reveal(sum);
    let v = value(a) + value(b);
    let t = units(mag(c));
    lemma_zero();
    lemma_rounded_exact(mag(c), 1);
    if v > 0 {
        lemma_rounded(v as nat, 1);
        if value(c) > 0 {
            lemma_rounded_monotone(t, 1, v as nat, 1);
        }
    } else if v < 0 {
        lemma_rounded((-v) as nat, 1);
        lemma_rounded_monotone((-v) as nat, 1, t, 1);
    }
}

/// What a sum of finite numbers cannot exceed.
pub proof fn lemma_sum_at_most(a: u32, b: u32, c: u32)
    requires
        mag(a) < INF,
        mag(b) < INF,
        mag(c) < INF,
        value(a) + value(b) <= value(c),
    ensures
        !nan(sum(a, b)),
        value(sum(a, b)) <= value(c),
{
    reveal(sum);
    let v = value(a) + value(b);
    let t = units(mag(c));
    lemma_zero();
    lemma_rounded_exact(mag(c), 1);
    if v > 0 {
        lemma_rounded(v as nat, 1);
        lemma_rounded_monotone(v as nat, 1, t, 1);
    } else if v < 0 {
        lemma_rounded((-v) as nat, 1);
        if value(c) < 0 {
            lemma_rounded_monotone(t, 1, (-v) as nat, 1);
        }
    }
}

proof fn lemma_zero()
    ensures
        units(0) == 0,
{
    reveal(units);
}

/// The order of patterns is the order of their values.
pub proof fn lemma_less(a: u32, b: u32)
    requires
        less(a, b),
    ensures
        !nan(a),
        !nan(b),
        value(a) < value(b),
{
    reveal(less);
    lemma_zero();
    let (x, y) = (mag(a), mag(b));
    if neg(a) && neg(b) {
        lemma_units_increases(y, x);
    } else if !neg(a) && !neg(b) {
        lemma_units_increases(x, y);
    } else if neg(a) {
        if x > 0 {
            lemma_units_increases(0, x);
        }
        if y > 0 {
            lemma_units_increases(0, y);
        }
    }
}

/// A product of numbers that are not negative.
pub proof fn lemma_product(a: u32, b: u32)
    requires
        mag(a) < INF,
        mag(b) < INF,
        value(a) >= 0,
        value(b) >= 0,
    ensures
        !nan(product(a, b)),
        mag(product(a, b)) == rounded((value(a) * value(b)) as nat, pow2(149)),
        value(product(a, b)) == units(rounded((value(a) * value(b)) as nat, pow2(149))),
        value(product(a, b)) >= 0,
{
    reveal(product);
    lemma_zero();
    lemma_pow2_pos(149);
    let (x, y) = (units(mag(a)), units(mag(b)));
    if mag(a) > 0 {
        lemma_units_increases(0, mag(a));
    }
    if mag(b) > 0 {
        lemma_units_increases(0, mag(b));
    }
    lemma_rounded(x * y, pow2(149));
    if neg(a) || neg(b) {
        assert(x * y == 0) by (nonlinear_arith)
            requires
                x == 0 || y == 0,
        ;
        assert(value(a) * value(b) == 0) by (nonlinear_arith)
            requires
                value(a) == 0 || value(b) == 0,
        ;
        lemma_rounded_exact(0, pow2(149));
        assert(units(0) * pow2(149) == 0);
    } else {
        assert(value(a) * value(b) == x * y);
    }
}

/// A larger factor gives no smaller product.
pub proof fn lemma_product_monotone(a: u32, b: u32, c: u32)
    requires
        mag(a) < INF,
        mag(b) < INF,
        mag(c) < INF,
        value(a) >= 0,
        0 <= value(b) <= value(c),
    ensures
        value(product(a, b)) <= value(product(a, c)),
{
    lemma_product(a, b);
    lemma_product(a, c);
    lemma_pow2_pos(149);
    let (x, y, z, d) = (value(a), value(b), value(c), pow2(149));
    assert(0 <= x * y && 0 <= x * z && x * y * d <= x * z * d) by (nonlinear_arith)
        requires
            0 <= x,
            0 <= y <= z,
            d > 0,
    ;
    lemma_rounded_monotone((x * y) as nat, d, (x * z) as nat, d);
}

/// Below the ceiling of a number is below the number.
pub proof fn lemma_below_ceiling(e: int, b: u32)
    requires
        e >= 0,
        e < ceiling_i32(b),
    ensures
        !nan(b),
        !neg(b),
        e * one() < value(b),
{
    reveal(ceiling_i32);
    lemma_pow2_pos(149);
    let (u, h) = (units(mag(b)) as int, one());
    if neg(b) {
        assert(u / h >= 0) by (nonlinear_arith)
            requires
                u >= 0,
                h > 0,
        ;
    } else {
        assert(e + 1 <= (u + h - 1) / h);
        assert(e * h < u) by (nonlinear_arith)
            requires
                e + 1 <= (u + h - 1) / h,
                h > 0,
        ;
    }
}

/// Neighbouring patterns are one unit apart, or one part in 2^23.
proof fn lemma_gap(r: nat)
    requires
        r > 0,
    ensures
        0x80_0000 * (units(r) - units((r - 1) as nat)) <= 0x80_0000 + units(r),
{
    vstd::arithmetic::power2::lemma2_to64();
    if r <= 0x80_0000 {
        lemma_units_split(0, r);
        lemma_units_split(0, (r - 1) as nat);
    } else {
        let e = (r / 0x80_0000 - 1) as nat;
        let q = r % 0x80_0000 + 0x80_0000;
        assert(r == e * 0x80_0000 + q);
        lemma_units_split(e, q);
        lemma_pow2_pos(e);
        let p = pow2(e);
        assert(0x80_0000 * p <= q * p) by (nonlinear_arith)
            requires
                q >= 0x80_0000,
        ;
        if q > 0x80_0000 {
            lemma_units_split(e, (q - 1) as nat);
            assert(q * p - (q - 1) * p == p) by (nonlinear_arith);
        } else {
            let k = (e - 1) as nat;
            lemma_units_split(k, 0xFF_FFFF);
            assert(k * 0x80_0000 + 0xFF_FFFF == r - 1);
            lemma_pow2_unfold(e);
            let h = pow2(k);
            assert(0x80_0000 * (0x80_0000 * p - 0xFF_FFFF * h) <= 0x80_0000 * p) by (nonlinear_arith)
                requires
                    p == 2 * h,
            ;
        }
    }
}

/// Rounding adds at most one part in 2^24, or half a unit.
pub proof fn lemma_rounded_close(n: nat, d: nat)
    requires
        d > 0,
    ensures
        0xFF_FFFF * (units(rounded(n, d)) * d) <= 0x100_0000 * n + 0x80_0000 * d,
{
    lemma_rounded(n, d);
    let r = rounded(n, d);
    if r == 0 {
        lemma_zero();
        assert(units(r) * d == 0) by (nonlinear_arith)
            requires
                units(r) == 0,
        ;
    } else {
        lemma_gap(r);
        let (u, v) = (units(r) as int, units((r - 1) as nat) as int);
        assert((v + u) * d <= 2 * n);
        assert(0xFF_FFFF * (u * d) <= 0x80_0000 * ((v + u) * d) + 0x80_0000 * d) by (nonlinear_arith)
            requires
                0x80_0000 * (u - v) <= 0x80_0000 + u,
                d > 0,
        ;
    }
}

} // verus!
