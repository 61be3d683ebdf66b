//! IEEE 754 binary32 arithmetic on bit patterns.
//!
//! The least-squares solvers and the rate-distortion scores are defined in
//! single-precision arithmetic, and a payload must come out the same on every
//! machine. So the library does that arithmetic on the 32-bit patterns
//! themselves, with every operation proved to be the correctly rounded one
//! (to nearest, ties to even).
//!
//! A finite pattern stands for a whole number of *units*, one unit being
//! `2^-149`, the smallest positive value of the format.

use vstd::arithmetic::power2::{lemma_pow2_adds, lemma_pow2_pos, lemma_pow2_strictly_increases, lemma_pow2_unfold, pow2};
use vstd::prelude::*;

use crate::model::power_of_two;

verus! {

/// The magnitude pattern of infinity; every finite magnitude is below it.
pub const INF: u32 = 0x7F80_0000;

/// The sign bit.
pub const SIGN: u32 = 0x8000_0000;

/// The pattern returned wherever the result is not a number.
pub const NAN: u32 = 0x7FC0_0000;

/// The value, in units, of the magnitude pattern `p`.
#[verifier::opaque]
pub open spec fn units(p: nat) -> nat {
    if p < 0x80_0000 {
        p
    } else {
        (0x80_0000 + p % 0x80_0000) * pow2((p / 0x80_0000 - 1) as nat)
    }
}

/// Twice the midpoint between the magnitude pattern `p` and the next one.
pub open spec fn mid2(p: nat) -> nat {
    units(p) + units(p + 1)
}

/// `r` is the magnitude pattern nearest to `n / d` units, ties to even; a
/// value at or past the midpoint above the largest finite magnitude goes to
/// infinity.
pub open spec fn nearest(n: nat, d: nat, r: nat) -> bool {
    &&& r <= INF
    &&& r > 0 ==> (if r % 2 == 0 {
        mid2((r - 1) as nat) * d <= 2 * n
    } else {
        mid2((r - 1) as nat) * d < 2 * n
    })
    &&& r < INF ==> (if r % 2 == 0 {
        2 * n <= mid2(r) * d
    } else {
        2 * n < mid2(r) * d
    })
}

/// The magnitude pattern nearest to `n / d` units.
pub open spec fn rounded(n: nat, d: nat) -> nat {
    choose|r: nat| nearest(n, d, r)
}

/// `r` is the magnitude pattern nearest to the square root of `x` square units.
pub open spec fn nearest_root(x: nat, r: nat) -> bool {
    &&& r <= INF
    &&& r > 0 ==> (if r % 2 == 0 {
        mid2((r - 1) as nat) * mid2((r - 1) as nat) <= 4 * x
    } else {
        mid2((r - 1) as nat) * mid2((r - 1) as nat) < 4 * x
    })
    &&& r < INF ==> (if r % 2 == 0 {
        4 * x <= mid2(r) * mid2(r)
    } else {
        4 * x < mid2(r) * mid2(r)
    })
}

/// The magnitude pattern nearest to the square root of `x` square units.
pub open spec fn rounded_root(x: nat) -> nat {
    choose|r: nat| nearest_root(x, r)
}

pub proof fn lemma_units_split(e: nat, q: nat)
    requires
        q <= 0x100_0000,
        e > 0 ==> q >= 0x80_0000,
    ensures
        units(e * 0x80_0000 + q) == q * pow2(e),
{
    reveal(units);
    let p = e * 0x80_0000 + q;
    lemma_pow2_unfold(e + 1);
    assert(pow2(0) == 1) by {
        vstd::arithmetic::power2::lemma2_to64();
    }
    if q < 0x80_0000 {
        assert(e == 0);
        assert(p == q);
    } else if q < 0x100_0000 {
        assert(p / 0x80_0000 == e + 1);
        assert(p % 0x80_0000 == q - 0x80_0000);
    } else {
        assert(p / 0x80_0000 == e + 2);
        assert(p % 0x80_0000 == 0);
        assert(units(p) == 0x80_0000 * pow2(e + 1));
        assert(0x80_0000 * pow2(e + 1) == 0x100_0000 * pow2(e)) by (nonlinear_arith)
            requires
                pow2(e + 1) == 2 * pow2(e),
        ;
    }
}

proof fn lemma_units_next(e: nat, q: nat)
    requires
        q <= 0x100_0000,
        e > 0 ==> q >= 0x80_0000,
    ensures
        units(e * 0x80_0000 + q + 1) >= (q + 1) * pow2(e),
{
    if q < 0x100_0000 {
        lemma_units_split(e, q + 1);
    } else {
        lemma_units_split(e + 1, 0x80_0001);
        assert((e + 1) * 0x80_0000 + 0x80_0001 == e * 0x80_0000 + q + 1);
        lemma_pow2_unfold(e + 1);
        assert(0x80_0001 * (2 * pow2(e)) >= (q + 1) * pow2(e)) by (nonlinear_arith)
            requires
                q == 0x100_0000,
        ;
    }
}

pub proof fn lemma_units_step(p: nat)
    ensures
        units(p) < units(p + 1),
{
    if p < 0x80_0000 {
        lemma_units_split(0, p);
        lemma_units_split(0, p + 1);
        vstd::arithmetic::power2::lemma2_to64();
    } else {
        let e = (p / 0x80_0000 - 1) as nat;
        let q = p % 0x80_0000 + 0x80_0000;
        assert(p == e * 0x80_0000 + q);
        lemma_units_split(e, q);
        lemma_units_split(e, q + 1);
        lemma_pow2_pos(e);
        assert(q * pow2(e) < (q + 1) * pow2(e)) by (nonlinear_arith)
            requires
                pow2(e) > 0,
        ;
    }
}

pub proof fn lemma_mid2_increases(a: nat, b: nat)
    requires
        a < b,
    ensures
        mid2(a) < mid2(b),
    decreases b,
{
    lemma_units_step((b - 1) as nat);
    lemma_units_step(b);
    if a + 1 < b {
        lemma_mid2_increases(a, (b - 1) as nat);
    }
}

/// Rounding to nearest has one answer.
pub proof fn lemma_nearest_unique(n: nat, d: nat, r: nat)
    requires
        d > 0,
        nearest(n, d, r),
    ensures
        rounded(n, d) == r,
{
    let s = rounded(n, d);
    assert(nearest(n, d, s));
    lemma_nearest_order(n, d, s, r);
    lemma_nearest_order(n, d, r, s);
}

proof fn lemma_nearest_order(n: nat, d: nat, a: nat, b: nat)
    requires
        d > 0,
        nearest(n, d, a),
        nearest(n, d, b),
    ensures
        b <= a,
{
    let c = (b - 1) as nat;
    if a < b && a < c {
        lemma_mid2_increases(a, c);
        assert(mid2(a) * d < mid2(c) * d) by (nonlinear_arith)
            requires
                mid2(a) < mid2(c),
                d > 0,
        ;
    }
}

/// Rounding a square root to nearest has one answer.
pub proof fn lemma_nearest_root_unique(x: nat, r: nat)
    requires
        nearest_root(x, r),
    ensures
        rounded_root(x) == r,
{
    let s = rounded_root(x);
    assert(nearest_root(x, s));
    lemma_nearest_root_order(x, s, r);
    lemma_nearest_root_order(x, r, s);
}

proof fn lemma_nearest_root_order(x: nat, a: nat, b: nat)
    requires
        nearest_root(x, a),
        nearest_root(x, b),
    ensures
        b <= a,
{
    let c = (b - 1) as nat;
    if a < b && a < c {
        lemma_mid2_increases(a, c);
        assert(mid2(a) * mid2(a) < mid2(c) * mid2(c)) by (nonlinear_arith)
            requires
                mid2(a) < mid2(c),
        ;
    }
}

/// What the midpoints around the pattern of `q * 2^e` units are.
proof fn lemma_mid_bounds(e: nat, q: nat)
    requires
        q <= 0x100_0000,
        e > 0 ==> q >= 0x80_0000,
    ensures
        mid2(e * 0x80_0000 + q) >= (2 * q + 1) * pow2(e),
        q > 0 && (e > 0 ==> q > 0x80_0000) ==> mid2((e * 0x80_0000 + q - 1) as nat) == (2 * q - 1) * pow2(e),
        e > 0 && q == 0x80_0000 ==> mid2((e * 0x80_0000 + q - 1) as nat) < 2 * q * pow2(e),
        (e * 0x80_0000 + q) % 2 == q % 2,
{
    let p = e * 0x80_0000 + q;
    lemma_units_split(e, q);
    lemma_units_next(e, q);
    let u = pow2(e);
    assert((2 * q + 1) * u == q * u + (q + 1) * u) by (nonlinear_arith);
    if q > 0 && (e > 0 ==> q > 0x80_0000) {
        lemma_units_split(e, (q - 1) as nat);
        assert(e * 0x80_0000 + (q - 1) + 1 == p);
        assert((2 * q - 1) * u == q * u + (q - 1) * u) by (nonlinear_arith);
    }
    if e > 0 && q == 0x80_0000 {
        lemma_units_step((p - 1) as nat);
        assert(2 * q * u == q * u + q * u) by (nonlinear_arith);
    }
}

/// The number of binary digits of `n`.
#[verifier::opaque]
pub open spec fn bit_length(n: nat) -> nat
    decreases n,
{
    if n == 0 {
        0
    } else {
        1 + bit_length(n / 2)
    }
}

proof fn lemma_bit_length(n: nat)
    requires
        n > 0,
    ensures
        bit_length(n) > 0,
        pow2((bit_length(n) - 1) as nat) <= n < pow2(bit_length(n)),
    decreases n,
{
    vstd::arithmetic::power2::lemma2_to64();
    reveal(bit_length);
    let b = bit_length(n);
    if n >= 2 {
        lemma_bit_length(n / 2);
        lemma_pow2_unfold(b);
        lemma_pow2_unfold((b - 1) as nat);
    } else {
        assert(bit_length(0) == 0);
        assert(bit_length(1) == 1);
    }
}

proof fn lemma_bit_length_shift(n: nat, k: nat)
    requires
        n >= pow2(k),
    ensures
        bit_length(n) == k + bit_length(n / pow2(k)),
    decreases k,
{
    vstd::arithmetic::power2::lemma2_to64();
    reveal(bit_length);
    lemma_pow2_pos(k);
    if k > 0 {
        lemma_pow2_unfold(k);
        let h = pow2((k - 1) as nat);
        lemma_pow2_pos((k - 1) as nat);
        assert(n / 2 >= h);
        lemma_bit_length_shift(n / 2, (k - 1) as nat);
        vstd::arithmetic::div_mod::lemma_div_denominator(n as int, 2, h as int);
        assert((n / 2) / h == n / pow2(k));
    } else {
        assert(n / 1 == n);
    }
}

proof fn lemma_bit_length_small()
    ensures
        bit_length(0) == 0,
        bit_length(1) == 1,
{
    reveal(bit_length);
    assert(bit_length(0) == 0);
}

proof fn lemma_pow2_steps()
    ensures
        pow2(0) == 1,
        pow2(1) == 2,
        pow2(2) == 4,
        pow2(4) == 0x10,
        pow2(8) == 0x100,
        pow2(16) == 0x1_0000,
        pow2(23) == 0x80_0000,
        pow2(24) == 0x100_0000,
        pow2(25) == 0x200_0000,
        pow2(32) == 0x1_0000_0000,
        pow2(64) == 0x1_0000_0000_0000_0000,
{
    vstd::arithmetic::power2::lemma2_to64();
    vstd::arithmetic::power2::lemma2_to64_rest();
}

#[verifier::rlimit(40)]
fn bit_length_of(n: u128) -> (b: u32)
    ensures
        b == bit_length(n as nat),
        b <= 128,
{
    let mut m: u128 = n;
    let mut b: u32 = 0;
    proof {
        lemma_pow2_steps();
        lemma_bit_length_small();
    }
    if m >= 0x1_0000_0000_0000_0000 {
        proof {
            lemma_bit_length_shift(m as nat, 64);
        }
        m = m / 0x1_0000_0000_0000_0000;
        b = b + 64;
    }
    if m >= 0x1_0000_0000 {
        proof {
            lemma_bit_length_shift(m as nat, 32);
        }
        m = m / 0x1_0000_0000;
        b = b + 32;
    }
    if m >= 0x1_0000 {
        proof {
            lemma_bit_length_shift(m as nat, 16);
        }
        m = m / 0x1_0000;
        b = b + 16;
    }
    if m >= 0x100 {
        proof {
            lemma_bit_length_shift(m as nat, 8);
        }
        m = m / 0x100;
        b = b + 8;
    }
    if m >= 0x10 {
        proof {
            lemma_bit_length_shift(m as nat, 4);
        }
        m = m / 0x10;
        b = b + 4;
    }
    if m >= 4 {
        proof {
            lemma_bit_length_shift(m as nat, 2);
        }
        m = m / 4;
        b = b + 2;
    }
    if m >= 2 {
        proof {
            lemma_bit_length_shift(m as nat, 1);
        }
        m = m / 2;
        b = b + 1;
    }
    if m >= 1 {
        b = b + 1;
    }
    b
}

/// The exponent of the last place kept when `sig * 2^x` is rounded.
pub open spec fn last_place(sig: nat, x: int) -> nat {
    if bit_length(sig) + x > 24 {
        (bit_length(sig) + x - 24) as nat
    } else {
        0
    }
}

/// The significand kept when `sig * 2^x`, or a value strictly between it and
/// `(sig + 1) * 2^x` where `sticky` is set, is rounded to the last place `e`.
spec fn kept(sig: nat, x: int, e: nat, sticky: bool) -> nat {
    let k = e - x;
    if k <= 0 {
        sig * pow2((-k) as nat)
    } else {
        let whole = sig / pow2(k as nat);
        let rest = sig % pow2(k as nat);
        let half = pow2((k - 1) as nat);
        if rest > half || (rest == half && (sticky || whole % 2 == 1)) {
            whole + 1
        } else {
            whole
        }
    }
}

/// The magnitude pattern that rounding `sig * 2^x` units gives.
spec fn packed(sig: nat, x: int, sticky: bool) -> nat {
    let e = last_place(sig, x);
    let p = e * 0x80_0000 + kept(sig, x, e, sticky);
    if p >= INF {
        INF as nat
    } else {
        p
    }
}

/// A common scale that makes every exponent in use a natural number.
spec fn bias() -> nat {
    1100
}

/// `n / d` units is `sig * 2^x`, or strictly between that and
/// `(sig + 1) * 2^x` where `sticky` is set.
spec fn brackets(sig: nat, x: int, sticky: bool, n: nat, d: nat) -> bool {
    let lo = sig * (pow2((x + bias()) as nat) * d);
    let hi = (sig + 1) * (pow2((x + bias()) as nat) * d);
    if sticky {
        lo < n * pow2(bias()) < hi
    } else {
        lo == n * pow2(bias())
    }
}

proof fn lemma_pow2_exact(a: nat, b: nat)
    ensures
        pow2(a + b) == pow2(a) * pow2(b),
{
    lemma_pow2_adds(a, b);
}

proof fn lemma_kept_range(sig: nat, x: int, sticky: bool)
    requires
        sig > 0,
        sticky ==> sig >= 0x200_0000,
    ensures
        kept(sig, x, last_place(sig, x), sticky) <= 0x100_0000,
        last_place(sig, x) > 0 ==> kept(sig, x, last_place(sig, x), sticky) >= 0x80_0000,
        last_place(sig, x) > 0 && last_place(sig, x) > x ==> sig / pow2((last_place(sig, x) - x) as nat) >= 0x80_0000,
        sticky ==> last_place(sig, x) - x >= 2,
{
    let bl = bit_length(sig);
    let e = last_place(sig, x);
    let k = e - x;
    lemma_bit_length(sig);
    lemma_pow2_steps();
    if sticky && bl < 26 {
        if bl < 25 {
            lemma_pow2_strictly_increases(bl, 25);
        }
        assert(false);
    }
    if k <= 0 {
        let s = pow2((-k) as nat);
        lemma_pow2_pos((-k) as nat);
        lemma_pow2_exact(bl, (-k) as nat);
        lemma_pow2_exact((bl - 1) as nat, (-k) as nat);
        assert(sig * s < pow2(bl) * s) by (nonlinear_arith)
            requires
                sig < pow2(bl),
                s > 0,
        ;
        assert(sig * s >= pow2((bl - 1) as nat) * s) by (nonlinear_arith)
            requires
                sig >= pow2((bl - 1) as nat),
                s > 0,
        ;
        if bl - k < 24 {
            lemma_pow2_strictly_increases((bl - k) as nat, 24);
        }
        if e > 0 {
            assert(bl - 1 - k == 23);
        }
    } else {
        let s = pow2(k as nat);
        lemma_pow2_pos(k as nat);
        let whole = sig / s;
        if bl >= k {
            let t = (bl - k) as nat;
            lemma_pow2_exact(t, k as nat);
            assert(whole < pow2(t)) by {
                assert(s * pow2(t) == pow2(t) * s) by (nonlinear_arith);
                vstd::arithmetic::div_mod::lemma_multiply_divide_lt(sig as int, s as int, pow2(t) as int);
            }
            if t < 24 {
                lemma_pow2_strictly_increases(t, 24);
            }
            if e > 0 {
                assert(t == 24);
                lemma_pow2_exact(23, k as nat);
                assert(whole >= pow2(23)) by {
                    assert(s * pow2(23) == pow2(23) * s) by (nonlinear_arith);
                    vstd::arithmetic::div_mod::lemma_div_is_ordered((pow2(23) * s) as int, sig as int, s as int);
                    vstd::arithmetic::div_mod::lemma_div_multiples_vanish(pow2(23) as int, s as int);
                    assert(pow2(23) * s == s * pow2(23)) by (nonlinear_arith);
                }
            }
        } else {
            lemma_pow2_strictly_increases(bl, k as nat);
            assert(whole == 0) by {
                vstd::arithmetic::div_mod::lemma_basic_div(sig as int, s as int);
            }
        }
    }
}

/// Rounding a bracketed value gives the nearest magnitude.
proof fn lemma_packed_nearest(sig: nat, x: int, sticky: bool, n: nat, d: nat)
    requires
        sig > 0,
        d > 0,
        -1000 <= x,
        sticky ==> sig >= 0x200_0000,
        brackets(sig, x, sticky, n, d),
    ensures
        nearest(n, d, packed(sig, x, sticky)),
{
    let e = last_place(sig, x);
    let k = e - x;
    let q = kept(sig, x, e, sticky);
    lemma_kept_range(sig, x, sticky);
    lemma_mid_bounds(e, q);
    let p = e * 0x80_0000 + q;
    let b = pow2(bias());
    lemma_pow2_pos(bias());
    let y = (x + bias()) as nat;
    let yd = pow2(y) * d;
    let u = pow2(e);
    lemma_pow2_pos(e);
    lemma_pow2_exact(e, bias());
    let nb = n * b;
    // One last place, scaled.
    let ub = u * d * b;
    assert(ub == pow2(e + bias()) * d) by (nonlinear_arith)
        requires
            ub == u * d * b,
            pow2(e + bias()) == u * b,
    ;
    assert(ub > 0) by (nonlinear_arith)
        requires
            ub == u * d * b,
            u > 0,
            d > 0,
            b > 0,
    ;
    lemma_pow2_pos(y);
    assert(yd > 0) by (nonlinear_arith)
        requires
            yd == pow2(y) * d,
            pow2(y) > 0,
            d > 0,
    ;
    if k <= 0 {
        let s = pow2((-k) as nat);
        lemma_pow2_exact((-k) as nat, (e + bias()) as nat);
        assert(yd == s * ub) by (nonlinear_arith)
            requires
                yd == pow2(y) * d,
                pow2(y) == s * pow2(e + bias()),
                ub == pow2(e + bias()) * d,
        ;
        assert(nb == q * ub) by (nonlinear_arith)
            requires
                nb == sig * yd,
                yd == s * ub,
                q == sig * s,
        ;
    } else {
        let s = pow2(k as nat);
        let half = pow2((k - 1) as nat);
        lemma_pow2_unfold(k as nat);
        lemma_pow2_exact(k as nat, y);
        assert(ub == s * yd) by (nonlinear_arith)
            requires
                ub == pow2(e + bias()) * d,
                pow2(e + bias()) == s * pow2(y),
                yd == pow2(y) * d,
        ;
        lemma_pow2_pos(k as nat);
        let whole = sig / s;
        let rest = sig % s;
        vstd::arithmetic::div_mod::lemma_fundamental_div_mod(sig as int, s as int);
        assert(sig * yd == whole * ub + rest * yd) by (nonlinear_arith)
            requires
                sig == s * whole + rest,
                ub == s * yd,
        ;
        assert((sig + 1) * yd == sig * yd + yd) by (nonlinear_arith);
        assert((rest + 1) * yd == rest * yd + yd) by (nonlinear_arith);
        assert(half * yd * 2 == ub) by (nonlinear_arith)
            requires
                ub == s * yd,
                s == 2 * half,
        ;
        if rest + 1 <= half {
            assert((rest + 1) * yd <= half * yd) by (nonlinear_arith)
                requires
                    rest + 1 <= half,
                    yd > 0,
            ;
        }
        if rest >= half + 1 {
            assert(rest * yd >= (half + 1) * yd) by (nonlinear_arith)
                requires
                    rest >= half + 1,
                    yd > 0,
            ;
            assert((half + 1) * yd == half * yd + yd) by (nonlinear_arith);
        }
        assert(rest + 1 <= s);
        assert((rest + 1) * yd <= ub) by (nonlinear_arith)
            requires
                rest + 1 <= s,
                ub == s * yd,
                yd > 0,
        ;
        assert(rest * yd >= 0) by (nonlinear_arith)
            requires
                yd > 0,
        ;
        assert((whole + 1) * ub == whole * ub + ub) by (nonlinear_arith);
        assert(e > 0 && q == 0x80_0000 ==> q == whole);
    }
    lemma_nearest_from_place(e, q, n, d, nb, ub);
}

/// Being within half a last place of `q * 2^e` is what `nearest` asks.
proof fn lemma_nearest_from_place(e: nat, q: nat, n: nat, d: nat, nb: nat, ub: nat)
    requires
        d > 0,
        q <= 0x100_0000,
        e > 0 ==> q >= 0x80_0000,
        nb == n * pow2(bias()),
        ub == pow2(e) * d * pow2(bias()),
        2 * nb <= 2 * (q * ub) + ub,
        q % 2 == 1 ==> 2 * nb < 2 * (q * ub) + ub,
        2 * nb >= 2 * (q * ub) - ub,
        q % 2 == 1 ==> 2 * nb > 2 * (q * ub) - ub,
        e > 0 && q == 0x80_0000 ==> nb >= q * ub,
    ensures
        nearest(
            n,
            d,
            if e * 0x80_0000 + q >= INF {
                INF as nat
            } else {
                e * 0x80_0000 + q
            },
        ),
{
    lemma_mid_bounds(e, q);
    let p = e * 0x80_0000 + q;
    let b = pow2(bias());
    let u = pow2(e);
    lemma_pow2_pos(bias());
    lemma_pow2_pos(e);
    let ud = u * d;
    assert(q * ub == q * ud * b) by (nonlinear_arith)
        requires
            ub == u * d * b,
            ud == u * d,
    ;
    assert(2 * (q * ub) + ub == (2 * q + 1) * ud * b) by (nonlinear_arith)
        requires
            ub == u * d * b,
            ud == u * d,
    ;
    assert(2 * (q * ub) - ub == (2 * q - 1) * ud * b) by (nonlinear_arith)
        requires
            ub == u * d * b,
            ud == u * d,
    ;
    assert(2 * n <= (2 * q + 1) * ud) by (nonlinear_arith)
        requires
            2 * (n * b) <= (2 * q + 1) * ud * b,
            b > 0,
    ;
    assert(q % 2 == 1 ==> 2 * n < (2 * q + 1) * ud) by (nonlinear_arith)
        requires
            q % 2 == 1 ==> 2 * (n * b) < (2 * q + 1) * ud * b,
            b > 0,
    ;
    assert(2 * n >= (2 * q - 1) * ud) by (nonlinear_arith)
        requires
            2 * (n * b) >= (2 * q - 1) * ud * b,
            b > 0,
    ;
    assert(q % 2 == 1 ==> 2 * n > (2 * q - 1) * ud) by (nonlinear_arith)
        requires
            q % 2 == 1 ==> 2 * (n * b) > (2 * q - 1) * ud * b,
            b > 0,
    ;
    assert((2 * q + 1) * ud == (2 * q + 1) * u * d) by (nonlinear_arith)
        requires
            ud == u * d,
    ;
    assert((2 * q - 1) * ud == (2 * q - 1) * u * d) by (nonlinear_arith)
        requires
            ud == u * d,
    ;
    assert(mid2(p) * d >= (2 * q + 1) * u * d) by (nonlinear_arith)
        requires
            mid2(p) >= (2 * q + 1) * u,
            d > 0,
    ;
    if e > 0 && q == 0x80_0000 {
        let m = mid2((p - 1) as nat);
        assert(2 * n >= 2 * q * u * d) by (nonlinear_arith)
            requires
                n * b >= q * ud * b,
                ud == u * d,
                b > 0,
        ;
        assert(m * d < 2 * q * u * d) by (nonlinear_arith)
            requires
                m < 2 * q * u,
                d > 0,
        ;
    }
    if p > 0 {
        assert(mid2((p - 1) as nat) * d <= 2 * n);
    }
    if p >= INF {
        let t = (INF - 1) as nat;
        if t < p - 1 {
            lemma_mid2_increases(t, (p - 1) as nat);
        }
        assert(mid2(t) * d <= mid2((p - 1) as nat) * d) by (nonlinear_arith)
            requires
                mid2(t) <= mid2((p - 1) as nat),
                d > 0,
        ;
    }
}

/// Rounds `sig * 2^x` units, or a value strictly between that and
/// `(sig + 1) * 2^x` where `sticky` is set.
fn pack(sig: u128, x: i32, sticky: bool) -> (r: u32)
    requires
        0 < sig,
        bit_length(sig as nat) <= 120,
        -1000 <= x <= 1000,
        sticky ==> sig >= 0x200_0000,
    ensures
        r == packed(sig as nat, x as int, sticky),
        r <= INF,
{
    let bl: i32 = bit_length_of(sig) as i32;
    let e: i32 = if bl + x > 24 {
        bl + x - 24
    } else {
        0
    };
    let k: i32 = e - x;
    proof {
        lemma_kept_range(sig as nat, x as int, sticky);
        lemma_bit_length(sig as nat);
        lemma_pow2_steps();
    }
    let q: u32 = if k <= 0 {
        proof {
            assert(-k < 25);
        }
        let s: u128 = power_of_two((-k) as u32);
        proof {
            assert(sig * s <= 0x100_0000);
        }
        (sig * s) as u32
    } else if k > 121 {
        proof {
            lemma_pow2_strictly_increases(bl as nat, (k - 1) as nat);
            lemma_pow2_unfold(k as nat);
            vstd::arithmetic::div_mod::lemma_basic_div(sig as int, pow2(k as nat) as int);
            vstd::arithmetic::div_mod::lemma_small_mod(sig as nat, pow2(k as nat));
        }
        0
    } else {
        let s: u128 = power_of_two(k as u32);
        let half: u128 = power_of_two((k - 1) as u32);
        proof {
            vstd::bits::lemma_u128_shr_is_div(sig, k as u128);
            lemma_pow2_pos(k as nat);
            vstd::arithmetic::div_mod::lemma_fundamental_div_mod(sig as int, s as int);
            assert((sig / s) * s <= sig) by (nonlinear_arith)
                requires
                    sig == s * (sig / s) + sig % s,
                    sig % s >= 0,
            ;
            assert(s * (sig / s) == (sig / s) * s) by (nonlinear_arith);
        }
        let whole: u128 = sig >> (k as u128);
        let rest: u128 = sig - whole * s;
        if rest > half || (rest == half && (sticky || whole % 2 == 1)) {
            (whole + 1) as u32
        } else {
            whole as u32
        }
    };
    if e >= 255 {
        return INF;
    }
    let p: u32 = (e as u32) * 0x80_0000 + q;
    if p >= INF {
        INF
    } else {
        p
    }
}

/// Whether the pattern is negative (its sign bit is set).
pub open spec fn neg(b: u32) -> bool {
    b >= SIGN
}

/// The magnitude pattern: `b` without its sign bit.
pub open spec fn mag(b: u32) -> nat {
    if b >= SIGN {
        (b - SIGN) as nat
    } else {
        b as nat
    }
}

/// Whether the pattern is not a number.
pub open spec fn nan(b: u32) -> bool {
    mag(b) > INF
}

/// The value of a finite pattern, in units.
pub open spec fn value(b: u32) -> int {
    if neg(b) {
        -(units(mag(b)) as int)
    } else {
        units(mag(b)) as int
    }
}

/// The pattern with the given sign and magnitude.
pub open spec fn signed(negative: bool, p: nat) -> u32 {
    if negative {
        (p + SIGN) as u32
    } else {
        p as u32
    }
}

/// `a * b`.
#[verifier::opaque]
pub open spec fn product(a: u32, b: u32) -> u32 {
    if nan(a) || nan(b) {
        NAN
    } else if mag(a) == INF || mag(b) == INF {
        if mag(a) == 0 || mag(b) == 0 {
            NAN
        } else {
            signed(neg(a) != neg(b), INF as nat)
        }
    } else {
        signed(neg(a) != neg(b), rounded(units(mag(a)) * units(mag(b)), pow2(149)))
    }
}

/// `a / b`.
#[verifier::opaque]
pub open spec fn quotient(a: u32, b: u32) -> u32 {
    if nan(a) || nan(b) || (mag(a) == INF && mag(b) == INF) || (mag(a) == 0 && mag(b) == 0) {
        NAN
    } else if mag(a) == INF || mag(b) == 0 {
        signed(neg(a) != neg(b), INF as nat)
    } else if mag(b) == INF {
        signed(neg(a) != neg(b), 0)
    } else {
        signed(neg(a) != neg(b), rounded(units(mag(a)) * pow2(149), units(mag(b))))
    }
}

/// `a + b`.
#[verifier::opaque]
pub open spec fn sum(a: u32, b: u32) -> u32 {
    if nan(a) || nan(b) {
        NAN
    } else if mag(a) == INF {
        if mag(b) == INF && neg(a) != neg(b) {
            NAN
        } else {
            a
        }
    } else if mag(b) == INF {
        b
    } else {
        let v = value(a) + value(b);
        if v == 0 {
            signed(neg(a) && neg(b), 0)
        } else if v > 0 {
            signed(false, rounded(v as nat, 1))
        } else {
            signed(true, rounded((-v) as nat, 1))
        }
    }
}

/// `-a`.
pub open spec fn negation(a: u32) -> u32 {
    signed(!neg(a), mag(a))
}

/// `a - b`.
#[verifier::opaque]
pub open spec fn difference(a: u32, b: u32) -> u32 {
    sum(a, negation(b))
}

/// The square root of `a`.
#[verifier::opaque]
pub open spec fn root(a: u32) -> u32 {
    if nan(a) || (neg(a) && mag(a) > 0) {
        NAN
    } else if mag(a) == 0 || mag(a) == INF {
        a
    } else {
        rounded_root(units(mag(a)) * pow2(149)) as u32
    }
}

/// A key that orders patterns as their values are ordered.
pub open spec fn order_key(a: u32) -> int {
    if neg(a) {
        -(mag(a) as int)
    } else {
        mag(a) as int
    }
}

/// `a < b`; false where either is not a number.
#[verifier::opaque]
pub open spec fn less(a: u32, b: u32) -> bool {
    !nan(a) && !nan(b) && order_key(a) < order_key(b)
}

fn split(p: u32) -> (r: (u32, u32))
    requires
        p < INF,
    ensures
        units(p as nat) == r.0 * pow2(r.1 as nat),
        p == r.1 * 0x80_0000 + r.0,
        r.0 < 0x100_0000,
        r.1 < 254,
        r.1 > 0 ==> r.0 >= 0x80_0000,
        p > 0 <==> r.0 > 0,
{
    let e: u32 = p / 0x80_0000;
    let f: u32 = p % 0x80_0000;
    let r: (u32, u32) = if e == 0 {
        (f, 0)
    } else {
        (f + 0x80_0000, e - 1)
    };
    proof {
        lemma_units_split(r.1 as nat, r.0 as nat);
        assert(p == r.1 * 0x80_0000 + r.0);
    }
    r
}

fn with_sign(negative: bool, p: u32) -> (r: u32)
    requires
        p < SIGN,
    ensures
        r == signed(negative, p as nat),
{
    if negative {
        p + SIGN
    } else {
        p
    }
}

fn magnitude(b: u32) -> (p: u32)
    ensures
        p == mag(b),
        p < SIGN,
{
    if b >= SIGN {
        b - SIGN
    } else {
        b
    }
}

proof fn lemma_small_bit_length(sig: nat, k: nat)
    requires
        sig < pow2(k),
    ensures
        bit_length(sig) <= k,
{
    if sig == 0 {
        lemma_bit_length_small();
    } else {
        lemma_bit_length(sig);
        if bit_length(sig) > k {
            if k < bit_length(sig) - 1 {
                lemma_pow2_strictly_increases(k, (bit_length(sig) - 1) as nat);
            }
        }
    }
}

proof fn lemma_zero_nearest(d: nat)
    requires
        d > 0,
    ensures
        nearest(0, d, 0),
{
    assert(mid2(0) * d >= 0) by (nonlinear_arith);
}

/// `a * b`, correctly rounded.
pub fn mul32(a: u32, b: u32) -> (r: u32)
    ensures
        r == product(a, b),
{
    proof {
        reveal(product);
    }
    let pa: u32 = magnitude(a);
    let pb: u32 = magnitude(b);
    if pa > INF || pb > INF {
        return NAN;
    }
    let s: bool = (a >= SIGN) != (b >= SIGN);
    if pa == INF || pb == INF {
        return if pa == 0 || pb == 0 {
            NAN
        } else {
            with_sign(s, INF)
        };
    }
    let (sa, ea) = split(pa);
    let (sb, eb) = split(pb);
    let ghost n = units(pa as nat) * units(pb as nat);
    let ghost d = pow2(149);
    proof {
        lemma_pow2_pos(149);
    }
    if sa == 0 || sb == 0 {
        proof {
            assert(n == 0) by (nonlinear_arith)
                requires
                    n == (sa * pow2(ea as nat)) * (sb * pow2(eb as nat)),
                    sa == 0 || sb == 0,
            ;
            lemma_zero_nearest(d);
            lemma_nearest_unique(n, d, 0);
        }
        return with_sign(s, 0);
    }
    proof {
        assert(0 < sa * sb < 0x1_0000_0000_0000) by (nonlinear_arith)
            requires
                0 < sa < 0x100_0000,
                0 < sb < 0x100_0000,
        ;
        lemma_pow2_steps();
        lemma_small_bit_length((sa * sb) as nat, 64);
        let x = ea + eb - 149;
        let pe = pow2(ea as nat);
        let pf = pow2(eb as nat);
        lemma_pow2_exact(ea as nat, eb as nat);
        lemma_pow2_exact((ea + eb) as nat, bias());
        lemma_pow2_exact((x + bias()) as nat, 149);
        assert(brackets((sa * sb) as nat, x, false, n, d)) by {
            let y = pow2((x + bias()) as nat);
            assert((sa * sb) * (y * d) == n * pow2(bias())) by (nonlinear_arith)
                requires
                    n == (sa * pe) * (sb * pf),
                    y * d == (pe * pf) * pow2(bias()),
            ;
        }
        lemma_packed_nearest((sa * sb) as nat, x, false, n, d);
        lemma_nearest_unique(n, d, packed((sa * sb) as nat, x, false));
    }
    with_sign(s, pack((sa as u128) * (sb as u128), ea as i32 + eb as i32 - 149, false))
}

/// `a / b`, correctly rounded.
pub fn div32(a: u32, b: u32) -> (r: u32)
    ensures
        r == quotient(a, b),
{
    proof {
        reveal(quotient);
    }
    let pa: u32 = magnitude(a);
    let pb: u32 = magnitude(b);
    if pa > INF || pb > INF || (pa == INF && pb == INF) || (pa == 0 && pb == 0) {
        return NAN;
    }
    let s: bool = (a >= SIGN) != (b >= SIGN);
    if pa == INF || pb == 0 {
        return with_sign(s, INF);
    }
    if pb == INF {
        return with_sign(s, 0);
    }
    let (sa, ea) = split(pa);
    let (sb, eb) = split(pb);
    let ghost n = units(pa as nat) * pow2(149);
    let ghost d = units(pb as nat);
    proof {
        lemma_pow2_pos(eb as nat);
        assert(d > 0) by (nonlinear_arith)
            requires
                d == sb * pow2(eb as nat),
                sb > 0,
                pow2(eb as nat) > 0,
        ;
    }
    if sa == 0 {
        proof {
            assert(n == 0) by (nonlinear_arith)
                requires
                    n == (sa * pow2(ea as nat)) * pow2(149),
                    sa == 0,
            ;
            lemma_zero_nearest(d);
            lemma_nearest_unique(n, d, 0);
        }
        return with_sign(s, 0);
    }
    let num: u128 = (sa as u128) * 0x1000_0000_0000_0000;
    let q: u128 = num / (sb as u128);
    let sticky: bool = num % (sb as u128) != 0;
    let x: i32 = ea as i32 - eb as i32 + 89;
    proof {
        lemma_pow2_steps();
        assert(pow2(60) == 0x1000_0000_0000_0000) by {
            vstd::arithmetic::power2::lemma2_to64_rest();
        }
        vstd::arithmetic::div_mod::lemma_fundamental_div_mod(num as int, sb as int);
        let rem = num % (sb as u128);
        assert(q >= 0x200_0000) by (nonlinear_arith)
            requires
                num == sb * q + rem,
                rem < sb,
                0 < sb < 0x100_0000,
                num >= 0x1000_0000_0000_0000,
        ;
        assert(q <= num) by (nonlinear_arith)
            requires
                num == sb * q + rem,
                rem >= 0,
                0 < sb,
                q >= 0,
        ;
        lemma_pow2_exact(32, 64);
        lemma_small_bit_length(q as nat, 96);
        let w = pow2((ea + 89 + bias()) as nat);
        lemma_pow2_pos((ea + 89 + bias()) as nat);
        let y = pow2((x + bias()) as nat);
        lemma_pow2_exact((x + bias()) as nat, eb as nat);
        assert(y * d == sb * w) by (nonlinear_arith)
            requires
                d == sb * pow2(eb as nat),
                w == y * pow2(eb as nat),
        ;
        lemma_pow2_exact(ea as nat, 149);
        lemma_pow2_exact((ea + 149) as nat, bias());
        lemma_pow2_exact(60, (ea + 89 + bias()) as nat);
        let nb = n * pow2(bias());
        assert(nb == num * w) by (nonlinear_arith)
            requires
                nb == ((sa * pow2(ea as nat)) * pow2(149)) * pow2(bias()),
                (pow2(ea as nat) * pow2(149)) * pow2(bias()) == 0x1000_0000_0000_0000 * w,
                num == sa * 0x1000_0000_0000_0000,
        ;
        assert(q * (y * d) == (q * sb) * w) by (nonlinear_arith)
            requires
                y * d == sb * w,
        ;
        assert((q + 1) * (y * d) == (q * sb + sb) * w) by (nonlinear_arith)
            requires
                y * d == sb * w,
        ;
        assert(q * sb == sb * q) by (nonlinear_arith);
        if sticky {
            assert((q * sb) * w < num * w) by (nonlinear_arith)
                requires
                    q * sb < num,
                    w > 0,
            ;
            assert(num * w < (q * sb + sb) * w) by (nonlinear_arith)
                requires
                    num < q * sb + sb,
                    w > 0,
            ;
        }
        assert(brackets(q as nat, x as int, sticky, n, d));
        lemma_packed_nearest(q as nat, x as int, sticky, n, d);
        lemma_nearest_unique(n, d, packed(q as nat, x as int, sticky));
    }
    with_sign(s, pack(q, x, sticky))
}

pub proof fn lemma_units_increases(a: nat, b: nat)
    requires
        a < b,
    ensures
        units(a) < units(b),
    decreases b,
{
    lemma_units_step((b - 1) as nat);
    if a + 1 < b {
        lemma_units_increases(a, (b - 1) as nat);
    }
}

/// The magnitude nearest to the sum, or the difference, of two magnitudes.
fn combine(p1: u32, p2: u32, subtract: bool) -> (r: u32)
    requires
        p2 <= p1 < INF,
        subtract ==> p2 < p1,
        p1 > 0,
    ensures
        subtract ==> r == rounded((units(p1 as nat) - units(p2 as nat)) as nat, 1),
        !subtract ==> r == rounded(units(p1 as nat) + units(p2 as nat), 1),
        r <= INF,
{
    let (s1, e1) = split(p1);
    let (s2, e2) = split(p2);
    let ghost n: nat = if subtract {
        (units(p1 as nat) - units(p2 as nat)) as nat
    } else {
        units(p1 as nat) + units(p2 as nat)
    };
    proof {
        if p2 < p1 {
            lemma_units_increases(p2 as nat, p1 as nat);
        }
        lemma_pow2_steps();
        lemma_pow2_exact(32, 64);
    }
    let diff: u32 = e1 - e2;
    let sig: u128;
    let x: i32;
    let sticky: bool;
    if diff <= 64 {
        let t: u128 = power_of_two(diff);
        proof {
            lemma_pow2_exact(diff as nat, e2 as nat);
            if diff < 64 {
                lemma_pow2_strictly_increases(diff as nat, 64);
            }
            let u = pow2(e2 as nat);
            lemma_pow2_pos(e2 as nat);
            lemma_pow2_pos(diff as nat);
            assert(s1 * pow2(e1 as nat) == (s1 * t) * u) by (nonlinear_arith)
                requires
                    pow2(e1 as nat) == t * u,
            ;
            assert(s1 * t <= 0x100_0000 * 0x1_0000_0000_0000_0000) by (nonlinear_arith)
                requires
                    s1 < 0x100_0000,
                    t <= 0x1_0000_0000_0000_0000,
            ;
            if subtract {
                assert(s1 * t > s2) by (nonlinear_arith)
                    requires
                        (s1 * t) * u > s2 * u,
                        u > 0,
                ;
                assert((s1 * t - s2) * u == (s1 * t) * u - s2 * u) by (nonlinear_arith);
            } else {
                assert((s1 * t + s2) * u == (s1 * t) * u + s2 * u) by (nonlinear_arith);
                assert(s1 * t > 0) by (nonlinear_arith)
                    requires
                        s1 > 0,
                        t > 0,
                ;
            }
        }
        let big: u128 = (s1 as u128) * t;
        if subtract {
            sig = big - s2 as u128;
        } else {
            sig = big + s2 as u128;
        }
        x = e2 as i32;
        sticky = false;
        proof {
            lemma_pow2_exact(e2 as nat, bias());
            lemma_small_bit_length(sig as nat, 96);
            assert(sig * (pow2((x + bias()) as nat) * 1) == n * pow2(bias())) by (nonlinear_arith)
                requires
                    n == sig * pow2(e2 as nat),
                    pow2((x + bias()) as nat) == pow2(e2 as nat) * pow2(bias()),
            ;
        }
    } else if s2 == 0 {
        sig = s1 as u128;
        x = e1 as i32;
        sticky = false;
        proof {
            assert(s2 * pow2(e2 as nat) == 0) by (nonlinear_arith)
                requires
                    s2 == 0,
            ;
            lemma_pow2_exact(e1 as nat, bias());
            lemma_small_bit_length(sig as nat, 96);
            assert(sig * (pow2((x + bias()) as nat) * 1) == n * pow2(bias())) by (nonlinear_arith)
                requires
                    n == sig * pow2(e1 as nat),
                    pow2((x + bias()) as nat) == pow2(e1 as nat) * pow2(bias()),
            ;
        }
    } else {
        let big: u128 = (s1 as u128) * 0x4000_0000;
        if subtract {
            sig = big - 1;
        } else {
            sig = big;
        }
        x = e1 as i32 - 30;
        sticky = true;
        proof {
            let v = pow2((e1 - 30) as nat);
            let small = s2 * pow2(e2 as nat);
            assert(pow2(30) == 0x4000_0000) by {
                vstd::arithmetic::power2::lemma2_to64();
            }
            lemma_pow2_exact(30, (e1 - 30) as nat);
            assert(s1 * pow2(e1 as nat) == big * v) by (nonlinear_arith)
                requires
                    pow2(e1 as nat) == 0x4000_0000 * v,
                    big == s1 * 0x4000_0000,
            ;
            lemma_pow2_exact(24, e2 as nat);
            lemma_pow2_pos(e2 as nat);
            lemma_pow2_strictly_increases((24 + e2) as nat, (e1 - 30) as nat);
            assert(0 < small < v) by (nonlinear_arith)
                requires
                    small == s2 * pow2(e2 as nat),
                    0 < s2 < 0x100_0000,
                    pow2(e2 as nat) > 0,
                    0x100_0000 * pow2(e2 as nat) < v,
            ;
            assert((big - 1) * v == big * v - v) by (nonlinear_arith);
            assert((big + 1) * v == big * v + v) by (nonlinear_arith);
            assert(sig * v < n < (sig + 1) * v);
            lemma_pow2_exact((e1 - 30) as nat, bias());
            lemma_pow2_pos(bias());
            lemma_small_bit_length(sig as nat, 96);
            let y = pow2((x + bias()) as nat);
            assert(sig * (y * 1) < n * pow2(bias())) by (nonlinear_arith)
                requires
                    sig * v < n,
                    y == v * pow2(bias()),
                    pow2(bias()) > 0,
            ;
            assert(n * pow2(bias()) < (sig + 1) * (y * 1)) by (nonlinear_arith)
                requires
                    n < (sig + 1) * v,
                    y == v * pow2(bias()),
                    pow2(bias()) > 0,
            ;
        }
    }
    proof {
        assert(brackets(sig as nat, x as int, sticky, n, 1));
        lemma_packed_nearest(sig as nat, x as int, sticky, n, 1);
        lemma_nearest_unique(n, 1, packed(sig as nat, x as int, sticky));
    }
    pack(sig, x, sticky)
}

/// `a + b`, correctly rounded.
pub fn add32(a: u32, b: u32) -> (r: u32)
    ensures
        r == sum(a, b),
{
    proof {
        reveal(sum);
    }
    let pa: u32 = magnitude(a);
    let pb: u32 = magnitude(b);
    let na: bool = a >= SIGN;
    let nb: bool = b >= SIGN;
    if pa > INF || pb > INF {
        return NAN;
    }
    if pa == INF {
        return if pb == INF && na != nb {
            NAN
        } else {
            a
        };
    }
    if pb == INF {
        return b;
    }
    proof {
        if pa < pb {
            lemma_units_increases(pa as nat, pb as nat);
        }
        if pb < pa {
            lemma_units_increases(pb as nat, pa as nat);
        }
        assert(units(0) == 0) by {
            reveal(units);
        }
        if pa > 0 {
            lemma_units_increases(0, pa as nat);
        }
        if pb > 0 {
            lemma_units_increases(0, pb as nat);
        }
    }
    if pa == pb && (na != nb || pa == 0) {
        return with_sign(na && nb, 0);
    }
    if pa >= pb {
        with_sign(na, combine(pa, pb, na != nb))
    } else {
        with_sign(nb, combine(pb, pa, na != nb))
    }
}

/// `a - b`, correctly rounded.
pub fn sub32(a: u32, b: u32) -> (r: u32)
    ensures
        r == difference(a, b),
{
    proof {
        reveal(difference);
    }
    let m: u32 = magnitude(b);
    add32(a, with_sign(b < SIGN, m))
}

/// `a < b`.
pub fn less32(a: u32, b: u32) -> (r: bool)
    ensures
        r == less(a, b),
{
    proof {
        reveal(less);
    }
    let pa: u32 = magnitude(a);
    let pb: u32 = magnitude(b);
    if pa > INF || pb > INF {
        return false;
    }
    if a < SIGN {
        b < SIGN && pa < pb
    } else if b < SIGN {
        pa != 0 || pb != 0
    } else {
        pb < pa
    }
}

/// The pattern nearest to the whole number `v`.
#[verifier::opaque]
pub open spec fn of_int(v: int) -> u32 {
    if v < 0 {
        signed(true, rounded(((-v) * pow2(149)) as nat, 1))
    } else {
        signed(false, rounded((v * pow2(149)) as nat, 1))
    }
}

/// The pattern nearest to the whole number `v`.
pub fn from_int32(v: i64) -> (r: u32)
    ensures
        r == of_int(v as int),
{
    proof {
        reveal(of_int);
    }
    let sig: u128 = if v < 0 {
        (-(v as i128)) as u128
    } else {
        v as u128
    };
    let ghost n: nat = sig as nat * pow2(149);
    proof {
        lemma_pow2_steps();
    }
    if sig == 0 {
        proof {
            assert(n == 0) by (nonlinear_arith)
                requires
                    n == sig as nat * pow2(149),
                    sig == 0,
            ;
            lemma_zero_nearest(1);
            lemma_nearest_unique(n, 1, 0);
        }
        return 0;
    }
    proof {
        lemma_small_bit_length(sig as nat, 64);
        lemma_pow2_exact(149, bias());
        assert(sig * (pow2((149 + bias()) as nat) * 1) == n * pow2(bias())) by (nonlinear_arith)
            requires
                n == sig as nat * pow2(149),
                pow2((149 + bias()) as nat) == pow2(149) * pow2(bias()),
        ;
        assert(brackets(sig as nat, 149, false, n, 1));
        lemma_packed_nearest(sig as nat, 149, false, n, 1);
        lemma_nearest_unique(n, 1, packed(sig as nat, 149, false));
    }
    with_sign(v < 0, pack(sig, 149, false))
}

/// The magnitude of `b` rounded to a whole number, halves away from zero.
pub open spec fn whole_magnitude(b: u32) -> nat {
    (2 * units(mag(b)) + pow2(149)) / pow2(150)
}

/// `b` rounded to a whole number, halves away from zero.
pub open spec fn nearest_int(b: u32) -> int {
    if neg(b) {
        -(whole_magnitude(b) as int)
    } else {
        whole_magnitude(b) as int
    }
}

/// `v` held between `lo` and `hi`.
pub open spec fn clamped(v: int, lo: int, hi: int) -> int {
    if v < lo {
        lo
    } else if v > hi {
        hi
    } else {
        v
    }
}

/// `b` rounded to a whole number and held between `lo` and `hi`; zero where
/// `b` is not a number.
#[verifier::opaque]
pub open spec fn round_clamped(b: u32, lo: int, hi: int) -> int {
    if nan(b) {
        0
    } else {
        clamped(nearest_int(b), lo, hi)
    }
}

proof fn lemma_cancel(a: nat, b: nat, c: nat)
    requires
        b > 0,
        c > 0,
    ensures
        (c * a) / (c * b) == a / b,
{
    vstd::arithmetic::div_mod::lemma_div_denominator((c * a) as int, c as int, b as int);
    vstd::arithmetic::div_mod::lemma_div_multiples_vanish(a as int, c as int);
}

/// `b` rounded to a whole number, halves away from zero, and held between
/// `lo` and `hi`.
fn round_clamp(b: u32, lo: i32, hi: i32) -> (r: i32)
    requires
        -0x40_0000 <= lo <= 0 <= hi <= 0x40_0000,
    ensures
        r == round_clamped(b, lo as int, hi as int),
        lo <= r <= hi,
{
    proof {
        reveal(round_clamped);
    }
    let p: u32 = magnitude(b);
    if p > INF {
        return 0;
    }
    proof {
        lemma_pow2_steps();
        lemma_pow2_unfold(150);
        lemma_pow2_pos(149);
    }
    let whole: i32;
    if p >= 0x4B00_0000 {
        // At least 2^23.
        proof {
            lemma_units_split(149, 0x80_0000);
            assert(149 * 0x80_0000 + 0x80_0000 == 0x4B00_0000);
            if p > 0x4B00_0000 {
                lemma_units_increases(0x4B00_0000, p as nat);
            }
            let u = units(p as nat);
            let h = pow2(149);
            assert((2 * u + h) / (2 * h) >= 0x80_0000) by (nonlinear_arith)
                requires
                    u >= 0x80_0000 * h,
                    h > 0,
            ;
        }
        return if b >= SIGN {
            lo
        } else {
            hi
        };
    }
    let (sig, e) = split(p);
    proof {
        assert(e < 149);
    }
    let k: u32 = 149 - e;
    let ghost top = 2 * units(p as nat) + pow2(149);
    proof {
        let c = pow2((e + 1) as nat);
        lemma_pow2_unfold((e + 1) as nat);
        lemma_pow2_pos((e + 1) as nat);
        lemma_pow2_pos(k as nat);
        lemma_pow2_exact((e + 1) as nat, (k - 1) as nat);
        lemma_pow2_exact((e + 1) as nat, k as nat);
        let half = pow2((k - 1) as nat);
        assert(top == c * (sig + half)) by (nonlinear_arith)
            requires
                top == 2 * (sig * pow2(e as nat)) + c * half,
                c == 2 * pow2(e as nat),
        ;
        lemma_cancel((sig + half) as nat, pow2(k as nat), c);
        assert(whole_magnitude(b) == (sig + half) as nat / pow2(k as nat));
        lemma_pow2_unfold(k as nat);
    }
    if k > 60 {
        proof {
            lemma_pow2_strictly_increases(24, (k - 1) as nat);
            vstd::arithmetic::div_mod::lemma_basic_div((sig + pow2((k - 1) as nat)) as int, pow2(k as nat) as int);
        }
        return 0;
    }
    let half: u128 = power_of_two(k - 1);
    let t: u128 = power_of_two(k);
    proof {
        assert(half <= 0x1000_0000_0000_0000) by {
            assert(pow2(60) == 0x1000_0000_0000_0000) by {
                vstd::arithmetic::power2::lemma2_to64_rest();
            }
            if k - 1 < 60 {
                lemma_pow2_strictly_increases((k - 1) as nat, 60);
            }
        }
        assert((sig + half) / t as int <= 0x100_0000) by (nonlinear_arith)
            requires
                t >= 2,
                t == 2 * half,
                0 <= sig < 0x100_0000,
        ;
    }
    whole = ((sig as u128 + half) / t) as i32;
    let v: i32 = if b >= SIGN {
        -whole
    } else {
        whole
    };
    if v < lo {
        lo
    } else if v > hi {
        hi
    } else {
        v
    }
}

/// `b` rounded to the nearest byte: halves away from zero, then held to 0..=255.
pub fn round_clamp_u8(b: u32) -> (r: u8)
    ensures
        r == round_clamped(b, 0, 255),
{
    round_clamp(b, 0, 255) as u8
}

/// `b` rounded to the nearest signed-normalised level, -127..=127.
pub fn round_clamp_snorm(b: u32) -> (r: i32)
    ensures
        r == round_clamped(b, -127, 127),
        -127 <= r <= 127,
{
    round_clamp(b, -127, 127)
}

/// The least whole number that is not below `b`.
pub open spec fn ceiling(b: u32) -> int {
    if neg(b) {
        -((units(mag(b)) / pow2(149)) as int)
    } else {
        (units(mag(b)) + pow2(149) - 1) / pow2(149) as int
    }
}

/// The least whole number that is not below `b`, held to the range of `i32`;
/// zero where `b` is not a number.
#[verifier::opaque]
pub open spec fn ceiling_i32(b: u32) -> int {
    if nan(b) {
        0
    } else {
        clamped(ceiling(b), i32::MIN as int, i32::MAX as int)
    }
}

/// The least `i32` that is not below `b`, saturating.
pub fn ceil_i32(b: u32) -> (r: i32)
    ensures
        r == ceiling_i32(b),
{
    proof {
        reveal(ceiling_i32);
    }
    let p: u32 = magnitude(b);
    if p > INF {
        return 0;
    }
    proof {
        lemma_pow2_steps();
        lemma_pow2_pos(149);
    }
    if p >= 0x4F00_0000 {
        // At least 2^31.
        proof {
            lemma_units_split(157, 0x80_0000);
            assert(157 * 0x80_0000 + 0x80_0000 == 0x4F00_0000);
            if p > 0x4F00_0000 {
                lemma_units_increases(0x4F00_0000, p as nat);
            }
            lemma_pow2_exact(8, 149);
            let u = units(p as nat);
            let h = pow2(149);
            assert(u >= 0x8000_0000 * h) by (nonlinear_arith)
                requires
                    u >= 0x80_0000 * (0x100 * h),
            ;
            assert(u / h >= 0x8000_0000) by (nonlinear_arith)
                requires
                    u >= 0x8000_0000 * h,
                    h > 0,
            ;
            assert((u + h - 1) / h as int >= 0x8000_0000) by (nonlinear_arith)
                requires
                    u >= 0x8000_0000 * h,
                    h > 0,
            ;
        }
        return if b >= SIGN {
            i32::MIN
        } else {
            i32::MAX
        };
    }
    let (sig, e) = split(p);
    if e >= 149 {
        let t: u128 = power_of_two(e - 149);
        proof {
            let h = pow2(149);
            lemma_pow2_exact((e - 149) as nat, 149);
            assert(pow2(7) == 128) by {
                vstd::arithmetic::power2::lemma2_to64();
            }
            if e < 156 {
                lemma_pow2_strictly_increases((e - 149) as nat, 7);
            }
            assert(sig * t < 0x8000_0000) by (nonlinear_arith)
                requires
                    0 <= sig < 0x100_0000,
                    t <= 128,
            ;
            assert(units(p as nat) == (sig * t) * h) by (nonlinear_arith)
                requires
                    units(p as nat) == sig * (t * h),
            ;
            lemma_whole_ceiling((sig * t) as nat, 0, h);
        }
        let m: u128 = (sig as u128) * t;
        return if b >= SIGN {
            -(m as i32)
        } else {
            m as i32
        };
    }
    let k: u32 = 149 - e;
    proof {
        let c = pow2(e as nat);
        let t = pow2(k as nat);
        lemma_pow2_exact(e as nat, k as nat);
        lemma_pow2_pos(e as nat);
        lemma_pow2_pos(k as nat);
        assert(units(p as nat) == c * sig) by (nonlinear_arith)
            requires
                units(p as nat) == sig * c,
        ;
        lemma_cancel(sig as nat, t, c);
        vstd::arithmetic::div_mod::lemma_fundamental_div_mod(sig as int, t as int);
        let w = sig as nat / t;
        let r = sig as nat % t;
        assert(c * sig == w * (c * t) + c * r) by (nonlinear_arith)
            requires
                sig == t * w + r,
        ;
        assert(c * r < c * t) by (nonlinear_arith)
            requires
                r < t,
                c > 0,
        ;
        assert(c * r > 0 <==> r > 0) by (nonlinear_arith)
            requires
                c > 0,
                r >= 0,
        ;
        lemma_whole_ceiling(w, c * r, c * t);
    }
    if k > 60 {
        proof {
            lemma_pow2_strictly_increases(24, k as nat);
            vstd::arithmetic::div_mod::lemma_basic_div(sig as int, pow2(k as nat) as int);
            vstd::arithmetic::div_mod::lemma_small_mod(sig as nat, pow2(k as nat));
        }
        return if b >= SIGN || sig == 0 {
            0
        } else {
            1
        };
    }
    let t: u128 = power_of_two(k);
    let w: u128 = (sig as u128) / t;
    let r: u128 = (sig as u128) % t;
    proof {
        assert(w <= sig) by (nonlinear_arith)
            requires
                w == sig as int / t as int,
                t >= 1,
                sig >= 0,
        ;
    }
    if b >= SIGN {
        -(w as i32)
    } else if r > 0 {
        w as i32 + 1
    } else {
        w as i32
    }
}

proof fn lemma_whole_ceiling(w: nat, r: nat, h: nat)
    requires
        r < h,
    ensures
        (w * h + r) / h == w,
        (w * h + r + h - 1) / h as int == if r > 0 {
            w as int + 1
        } else {
            w as int
        },
{
    vstd::arithmetic::div_mod::lemma_fundamental_div_mod_converse((w * h + r) as int, h as int, w as int, r as int);
    assert((w + 1) * h == w * h + h) by (nonlinear_arith);
    if r > 0 {
        vstd::arithmetic::div_mod::lemma_fundamental_div_mod_converse(
            (w * h + r + h - 1) as int,
            h as int,
            w as int + 1,
            r - 1,
        );
    } else {
        vstd::arithmetic::div_mod::lemma_fundamental_div_mod_converse(
            (w * h + r + h - 1) as int,
            h as int,
            w as int,
            h - 1,
        );
    }
}

/// The largest whole number whose square is not above `m`.
fn whole_root(m: u128) -> (s: u128)
    requires
        m < 0x1_0000_0000_0000_0000_0000_0000,
    ensures
        s * s <= m < (s + 1) * (s + 1),
        s < 0x1_0000_0000_0000,
{
    let mut lo: u128 = 0;
    let mut hi: u128 = 0x1_0000_0000_0000;
    while hi - lo > 1
        invariant
            lo < hi <= 0x1_0000_0000_0000,
            lo * lo <= m < hi * hi,
        decreases hi - lo,
    {
        let mid: u128 = (lo + hi) / 2;
        proof {
            assert(mid * mid <= 0x1_0000_0000_0000 * 0x1_0000_0000_0000) by (nonlinear_arith)
                requires
                    0 <= mid <= 0x1_0000_0000_0000,
            ;
        }
        if mid * mid <= m {
            lo = mid;
        } else {
            hi = mid;
        }
    }
    lo
}

/// Bracketing a root between `s * 2^x` and `(s + 1) * 2^x`, and rounding.
proof fn lemma_packed_nearest_root(s: nat, x: nat, sticky: bool, m: nat)
    requires
        0x200_0000 <= s,
        bit_length(s) + x < 270,
        s * s <= m < (s + 1) * (s + 1),
        sticky <==> s * s != m,
    ensures
        nearest_root(m * (pow2(x) * pow2(x)), packed(s, x as int, sticky)),
{
    lemma_kept_range(s, x as int, sticky);
    lemma_kept_range(s, x as int, true);
    let e = last_place(s, x as int);
    let k = (e - x) as nat;
    let q = kept(s, x as int, e, sticky);
    lemma_mid_bounds(e, q);
    let p = e * 0x80_0000 + q;
    let v = pow2(x);
    let u = pow2(e);
    let t = pow2(k);
    let half = pow2((k - 1) as nat);
    lemma_pow2_pos(x);
    lemma_pow2_pos(k);
    lemma_pow2_unfold(k);
    lemma_pow2_exact(k, x);
    let whole = s / t;
    let rest = s % t;
    vstd::arithmetic::div_mod::lemma_fundamental_div_mod(s as int, t as int);
    let big = m * (v * v);
    let lo = s * v;
    let hi = (s + 1) * v;
    assert(lo * lo == (s * s) * (v * v)) by (nonlinear_arith)
        requires
            lo == s * v,
    ;
    assert(hi * hi == ((s + 1) * (s + 1)) * (v * v)) by (nonlinear_arith)
        requires
            hi == (s + 1) * v,
    ;
    assert(v * v > 0) by (nonlinear_arith)
        requires
            v > 0,
    ;
    assert(lo * lo <= big < hi * hi && (sticky ==> lo * lo < big)) by (nonlinear_arith)
        requires
            lo * lo == (s * s) * (v * v),
            hi * hi == ((s + 1) * (s + 1)) * (v * v),
            big == m * (v * v),
            s * s <= m < (s + 1) * (s + 1),
            sticky ==> s * s < m,
            v * v > 0,
    ;
    // In half units of `v`.
    assert(2 * lo == 2 * (whole * u) + 2 * (rest * v)) by (nonlinear_arith)
        requires
            lo == s * v,
            s == t * whole + rest,
            u == t * v,
    ;
    assert(2 * hi == 2 * (whole * u) + 2 * ((rest + 1) * v)) by (nonlinear_arith)
        requires
            hi == (s + 1) * v,
            s == t * whole + rest,
            u == t * v,
    ;
    assert(2 * (half * v) == u) by (nonlinear_arith)
        requires
            u == t * v,
            t == 2 * half,
    ;
    assert((rest + 1) * v <= u) by (nonlinear_arith)
        requires
            rest + 1 <= t,
            u == t * v,
            v > 0,
    ;
    assert(u > 0) by (nonlinear_arith)
        requires
            u == t * v,
            t > 0,
            v > 0,
    ;
    let above = (2 * q + 1) * u;
    assert(above == 2 * (q * u) + u) by (nonlinear_arith)
        requires
            above == (2 * q + 1) * u,
    ;
    assert((whole + 1) * u == whole * u + u) by (nonlinear_arith);
    let below = 2 * (q * u) - u;
    assert((2 * q - 1) * u == below) by (nonlinear_arith)
        requires
            below == 2 * (q * u) - u,
    ;
    assert(rest * v >= 0) by (nonlinear_arith)
        requires
            v > 0,
            rest >= 0,
    ;
    if rest < half {
        assert((rest + 1) * v <= half * v) by (nonlinear_arith)
            requires
                rest + 1 <= half,
                v > 0,
        ;
    }
    if rest > half {
        assert(rest * v > half * v) by (nonlinear_arith)
            requires
                rest > half,
                v > 0,
        ;
    }
    assert(q == whole || q == whole + 1);
    assert(4 * big <= above * above && (q % 2 == 1 ==> 4 * big < above * above)) by {
        if q == whole && rest == half {
            assert(!sticky);
            assert(above == 2 * lo);
            assert(4 * (lo * lo) == above * above) by (nonlinear_arith)
                requires
                    above == 2 * lo,
            ;
        } else {
            assert(2 * hi <= above);
            assert(4 * big < above * above) by (nonlinear_arith)
                requires
                    big < hi * hi,
                    0 <= 2 * hi <= above,
            ;
        }
    }
    let low = mid2((p - 1) as nat);
    assert(q >= 0x80_0000 && e > 0);
    assert(low * low <= 4 * big && (q % 2 == 1 ==> low * low < 4 * big)) by {
        if q == 0x80_0000 {
            assert(q == whole);
            assert(2 * lo >= 2 * (q * u));
            assert(2 * q * u == 2 * (q * u)) by (nonlinear_arith);
            assert(low * low < 4 * big) by (nonlinear_arith)
                requires
                    low < 2 * lo,
                    low >= 0,
                    lo * lo <= big,
            ;
        } else {
            assert(low == below);
            if q == whole + 1 && rest == half && !sticky {
                assert(whole % 2 == 1);
                assert(low == 2 * lo);
                assert(low * low == 4 * (lo * lo)) by (nonlinear_arith)
                    requires
                        low == 2 * lo,
                ;
            } else if q == whole + 1 && rest == half {
                assert(low == 2 * lo);
                assert(low * low < 4 * big) by (nonlinear_arith)
                    requires
                        low == 2 * lo,
                        lo * lo < big,
                ;
            } else {
                assert(low < 2 * lo);
                assert(low * low < 4 * big) by (nonlinear_arith)
                    requires
                        0 <= low < 2 * lo,
                        lo * lo <= big,
                ;
            }
        }
    }
    let high = mid2(p);
    assert(above * above <= high * high) by (nonlinear_arith)
        requires
            0 <= above <= high,
    ;
}

/// The square root of `a`, correctly rounded.
pub fn sqrt32(a: u32) -> (r: u32)
    ensures
        r == root(a),
{
    proof {
        reveal(root);
    }
    let p: u32 = magnitude(a);
    if p > INF || (a >= SIGN && p > 0) {
        return NAN;
    }
    if p == 0 || p == INF {
        return a;
    }
    let (sig, e) = split(p);
    let j: u32 = if e % 2 == 1 {
        60
    } else {
        61
    };
    let t: u128 = power_of_two(j);
    proof {
        assert(pow2(60) == 0x1000_0000_0000_0000 && pow2(61) == 0x2000_0000_0000_0000) by {
            vstd::arithmetic::power2::lemma2_to64_rest();
        }
        assert(0x1000_0000_0000_0000 <= sig * t < 0x200_0000 * 0x2000_0000_0000_0000) by (nonlinear_arith)
            requires
                0 < sig < 0x100_0000,
                0x1000_0000_0000_0000 <= t <= 0x2000_0000_0000_0000,
        ;
    }
    let m: u128 = (sig as u128) * t;
    let s: u128 = whole_root(m);
    let x: i32 = (e as i32 + 149 - j as i32) / 2;
    let sticky: bool = s * s != m;
    proof {
        assert(s >= 0x200_0000) by (nonlinear_arith)
            requires
                m < (s + 1) * (s + 1),
                m >= 0x1000_0000_0000_0000,
                s >= 0,
        ;
        lemma_pow2_steps();
        lemma_pow2_exact(16, 32);
        lemma_small_bit_length(s as nat, 48);
        lemma_packed_nearest_root(s as nat, x as nat, sticky, m as nat);
        lemma_pow2_exact(x as nat, x as nat);
        lemma_pow2_exact(j as nat, (2 * x) as nat);
        lemma_pow2_exact(e as nat, 149);
        let big = m * (pow2(x as nat) * pow2(x as nat));
        assert(big == units(p as nat) * pow2(149)) by (nonlinear_arith)
            requires
                big == (sig * pow2(j as nat)) * pow2((2 * x) as nat),
                pow2(j as nat) * pow2((2 * x) as nat) == pow2(e as nat) * pow2(149),
                units(p as nat) == sig * pow2(e as nat),
        ;
        lemma_nearest_root_unique(big as nat, packed(s as nat, x as int, sticky));
    }
    pack(s, x, sticky)
}

} // verus!
