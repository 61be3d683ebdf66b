//! What single-precision arithmetic keeps of arithmetic.

use vstd::arithmetic::power2::pow2;
use vstd::prelude::*;

use crate::binary32::{ceiling, difference, lemma_units_increases, lemma_units_split, less, mag, nan, nearest_int, neg, negation, of_int, product, quotient, sum, units, value, INF};
use crate::rounding::{lemma_of_int, lemma_rounded_exact};

verus! {

/// One.
pub open spec fn unit() -> u32 {
    0x3F80_0000
}

proof fn lemma_unit()
    ensures
        units(0x3F80_0000) == pow2(149),
        pow2(149) > 0,
{
    lemma_units_split(126, 0x80_0000);
    vstd::arithmetic::power2::lemma2_to64();
    vstd::arithmetic::power2::lemma_pow2_adds(23, 126);
    vstd::arithmetic::power2::lemma_pow2_pos(149);
}

/// Products and sums do not ask for the order of their parts.
pub proof fn law_order_of_parts(a: u32, b: u32)
    ensures
        product(a, b) == product(b, a),
        sum(a, b) == sum(b, a),
{
    reveal(product);
    reveal(sum);
    let (x, y) = (units(mag(a)) as int, units(mag(b)) as int);
    assert(x * y == y * x) by (nonlinear_arith);
}

/// A number times one, over one, and with zero added, is the number; less itself it
/// is zero, over itself one.
pub proof fn law_identities(a: u32)
    requires
        !nan(a),
    ensures
        product(a, unit()) == a,
        quotient(a, unit()) == a,
        a != 0x8000_0000 ==> sum(a, 0) == a,
        mag(a) < INF ==> difference(a, a) == 0,
        0 < mag(a) < INF ==> quotient(a, a) == unit(),
        mag(a) < INF ==> product(a, 0) == (if neg(a) {
            0x8000_0000u32
        } else {
            0u32
        }),
{
    reveal(product);
    reveal(quotient);
    reveal(sum);
    reveal(difference);
    lemma_unit();
    let (u, one) = (units(mag(a)), pow2(149));
    assert(units(0) == 0) by {
        reveal(units);
    }
    if mag(a) < INF {
        lemma_rounded_exact(mag(a), one);
        lemma_rounded_exact(mag(a), 1);
        lemma_rounded_exact(0, one);
        assert(u * 1 == u && u * 0 == 0 && 0 * one == 0);
        if mag(a) > 0 {
            lemma_units_increases(0, mag(a));
            lemma_rounded_exact(0x3F80_0000, u);
            assert(u * one == one * u) by (nonlinear_arith);
        }
    }
}

/// A number times minus one, and over minus one, is the number with the other sign.
pub proof fn law_minus_one_changes_the_sign(a: u32)
    requires
        !nan(a),
    ensures
        product(a, negation(unit())) == negation(a),
        quotient(a, negation(unit())) == negation(a),
        difference(0, a) == (if mag(a) == 0 {
            0u32
        } else {
            negation(a)
        }),
{
    reveal(product);
    reveal(quotient);
    reveal(sum);
    reveal(difference);
    lemma_unit();
    assert(mag(negation(unit())) == 0x3F80_0000 && neg(negation(unit())));
    let u = units(mag(a));
    assert(units(0) == 0) by {
        reveal(units);
    }
    if mag(a) < INF {
        lemma_rounded_exact(mag(a), pow2(149));
        lemma_rounded_exact(mag(a), 1);
        assert(u * 1 == u);
        if mag(a) > 0 {
            lemma_units_increases(0, mag(a));
        }
    }
}

/// Finite numbers are ordered by their values.
pub proof fn law_order_is_of_values(a: u32, b: u32)
    requires
        mag(a) < INF,
        mag(b) < INF,
    ensures
        less(a, b) <==> value(a) < value(b),
{
    reveal(less);
    assert(units(0) == 0) by {
        reveal(units);
    }
    if mag(a) > 0 {
        lemma_units_increases(0, mag(a));
    }
    if mag(b) > 0 {
        lemma_units_increases(0, mag(b));
    }
    if mag(a) < mag(b) {
        lemma_units_increases(mag(a), mag(b));
    } else if mag(b) < mag(a) {
        lemma_units_increases(mag(b), mag(a));
    }
}

/// The least whole number that is not below a number, and the nearest, are so.
pub proof fn law_whole_numbers(b: u32)
    ensures
        (ceiling(b) - 1) * pow2(149) < value(b) <= ceiling(b) * pow2(149),
        2 * value(b) - pow2(149) <= 2 * (nearest_int(b) * pow2(149)) <= 2 * value(b) + pow2(149),
{
    lemma_unit();
    let (u, one) = (units(mag(b)) as int, pow2(149) as int);
    let (q, r) = (u / one, (u + one - 1) / one);
    assert(one * q <= u < one * q + one) by (nonlinear_arith)
        requires
            q == u / one,
            one > 0,
    ;
    assert(one * r <= u + one - 1 < one * r + one) by (nonlinear_arith)
        requires
            r == (u + one - 1) / one,
            one > 0,
    ;
    assert((r - 1) * one == one * r - one && r * one == one * r && (-q - 1) * one == -(one * q) - one && (-q) * one == -(one
        * q)) by (nonlinear_arith);
    vstd::arithmetic::power2::lemma_pow2_unfold(150);
    let n = (2 * u + one) / (2 * one);
    assert(2 * one * n <= 2 * u + one < 2 * one * n + 2 * one) by (nonlinear_arith)
        requires
            n == (2 * u + one) / (2 * one),
            one > 0,
    ;
    assert(n * one == one * n && (-n) * one == -(one * n)) by (nonlinear_arith);
    assert(2 * one * n == 2 * (one * n)) by (nonlinear_arith);
}

/// Small whole numbers are kept exactly.
pub proof fn law_small_numbers_are_exact(v: int)
    requires
        0 <= v < 0x100_0000,
    ensures
        value(of_int(v)) == v * pow2(149),
        !neg(of_int(v)),
{
    lemma_of_int(v);
}

} // verus!
