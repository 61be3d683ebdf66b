//! The small mathematics that the block codecs share: squared differences,
//! nearest-entry choice, base-`b` digit strings and little-endian bytes.

use vstd::arithmetic::power2::{lemma_pow2_adds, lemma_pow2_pos, pow2};
use vstd::prelude::*;

verus! {

/// The rows of an array of byte arrays.
pub open spec fn rows<const N: usize, const M: usize>(a: [[u8; N]; M]) -> Seq<Seq<u8>> {
    Seq::new(M as nat, |i: int| a@[i]@)
}

/// The square of `x`.
#[verifier::opaque]
pub open spec fn sq(x: int) -> int {
    x * x
}

pub proof fn lemma_sq(x: int)
    ensures
        sq(x) >= 0,
        sq(x) == sq(-x),
        -255 <= x <= 255 ==> sq(x) <= 65025,
        x == 0 <==> sq(x) == 0,
{
    reveal(sq);
    assert(x * x >= 0) by (nonlinear_arith);
    assert(x * x == (-x) * (-x)) by (nonlinear_arith);
    assert(-255 <= x <= 255 ==> x * x <= 65025) by (nonlinear_arith);
    assert(x == 0 <==> x * x == 0) by (nonlinear_arith);
}

/// Squares grow with the magnitude.
pub proof fn lemma_sq_monotone(x: int, y: int)
    requires
        0 <= x <= y,
    ensures
        sq(x) <= sq(y),
        x < y ==> sq(x) < sq(y),
{
    reveal(sq);
    assert(x * x <= y * y) by (nonlinear_arith)
        requires
            0 <= x <= y,
    ;
    assert(x < y ==> x * x < y * y) by (nonlinear_arith)
        requires
            0 <= x <= y,
    ;
}

/// The squared difference of two bytes.
pub fn sq_diff(a: u8, b: u8) -> (r: i32)
    ensures
        r == sq(a - b),
        0 <= r <= 65025,
{
    let d: i32 = a as i32 - b as i32;
    proof {
        lemma_sq(d as int);
        reveal(sq);
    }
    d * d
}

/// The position of the first least of the first `n` costs.
pub open spec fn first_min(costs: Seq<int>, n: nat) -> int
    decreases n,
{
    if n <= 1 {
        0
    } else {
        let k = first_min(costs, (n - 1) as nat);
        if costs[n - 1] < costs[k] {
            n - 1
        } else {
            k
        }
    }
}

/// The position of the first least cost.
pub open spec fn best_of(costs: Seq<int>) -> int {
    first_min(costs, costs.len())
}

pub proof fn lemma_first_min_in(costs: Seq<int>, n: nat)
    requires
        n >= 1,
    ensures
        0 <= first_min(costs, n) < n,
    decreases n,
{
    if n > 1 {
        lemma_first_min_in(costs, (n - 1) as nat);
    }
}

/// The chosen position holds a least cost, and every earlier one costs more.
pub proof fn lemma_first_min(costs: Seq<int>, n: nat)
    requires
        n >= 1,
    ensures
        0 <= first_min(costs, n) < n,
        forall|j: int| 0 <= j < n ==> costs[first_min(costs, n)] <= #[trigger] costs[j],
        forall|j: int| 0 <= j < first_min(costs, n) ==> costs[first_min(costs, n)] < #[trigger] costs[j],
    decreases n,
{
    if n > 1 {
        lemma_first_min(costs, (n - 1) as nat);
    }
}

/// Those two facts fix the position.
pub proof fn lemma_first_min_unique(costs: Seq<int>, n: nat, k: int)
    requires
        0 <= k < n,
        forall|j: int| 0 <= j < n ==> costs[k] <= #[trigger] costs[j],
        forall|j: int| 0 <= j < k ==> costs[k] < #[trigger] costs[j],
    ensures
        k == first_min(costs, n),
{
    lemma_first_min(costs, n);
    let m = first_min(costs, n);
    assert(costs[k] <= costs[m]);
    assert(costs[m] <= costs[k]);
}

/// The sum of the first `n` numbers.
pub open spec fn total(s: Seq<int>, n: nat) -> int
    decreases n,
{
    if n == 0 {
        0
    } else {
        total(s, (n - 1) as nat) + s[n - 1]
    }
}

pub proof fn lemma_total_grows(s: Seq<int>, m: nat, n: nat)
    requires
        m <= n,
        forall|i: int| 0 <= i < n ==> #[trigger] s[i] >= 0,
    ensures
        0 <= total(s, m) <= total(s, n),
    decreases n,
{
    if n > 0 {
        if m < n {
            lemma_total_grows(s, m, (n - 1) as nat);
        } else {
            lemma_total_grows(s, (m - 1) as nat, (n - 1) as nat);
        }
    }
}

pub proof fn lemma_total_bound(s: Seq<int>, n: nat, b: int)
    requires
        forall|i: int| 0 <= i < n ==> 0 <= #[trigger] s[i] <= b,
    ensures
        0 <= total(s, n) <= n * b,
    decreases n,
{
    if n > 0 {
        lemma_total_bound(s, (n - 1) as nat, b);
        assert(n * b == (n - 1) * b + b) by (nonlinear_arith);
    } else {
        assert(n * b == 0) by (nonlinear_arith)
            requires
                n == 0,
        ;
    }
}

pub proof fn lemma_total_eq(s: Seq<int>, t: Seq<int>, n: nat)
    requires
        forall|i: int| 0 <= i < n ==> #[trigger] s[i] == t[i],
    ensures
        total(s, n) == total(t, n),
    decreases n,
{
    if n > 0 {
        lemma_total_eq(s, t, (n - 1) as nat);
    }
}

pub proof fn lemma_total_le(s: Seq<int>, t: Seq<int>, n: nat)
    requires
        forall|i: int| 0 <= i < n ==> #[trigger] s[i] <= t[i],
    ensures
        total(s, n) <= total(t, n),
    decreases n,
{
    if n > 0 {
        lemma_total_le(s, t, (n - 1) as nat);
    }
}

/// The nearest palette entry of each sample, given each sample's cost against
/// each entry.
pub open spec fn fit_indices(costs: Seq<Seq<int>>) -> Seq<u8> {
    Seq::new(costs.len(), |i: int| best_of(costs[i]) as u8)
}

/// The cost of each sample's nearest entry.
pub open spec fn fit_costs(costs: Seq<Seq<int>>) -> Seq<int> {
    Seq::new(costs.len(), |i: int| costs[i][best_of(costs[i])])
}

/// The whole cost of the nearest entries.
pub open spec fn fit_error(costs: Seq<Seq<int>>) -> int {
    total(fit_costs(costs), costs.len())
}

/// The number whose base-`b` digits, lowest first, are `digits` from `i` on.
pub open spec fn number_of(digits: Seq<u8>, b: int, i: nat) -> int
    decreases digits.len() - i,
{
    if i >= digits.len() {
        0
    } else {
        digits[i as int] + b * number_of(digits, b, i + 1)
    }
}

/// Digit `i` of `v` in base `b`, the lowest being digit 0.
pub open spec fn digit(v: int, b: int, i: nat) -> int
    decreases i,
{
    if i == 0 {
        v % b
    } else {
        digit(v / b, b, (i - 1) as nat)
    }
}

/// The lowest `n` digits of `v` in base `b`.
pub open spec fn digits_of(v: int, b: int, n: nat) -> Seq<u8> {
    Seq::new(n, |i: int| digit(v, b, i as nat) as u8)
}

pub proof fn lemma_number_digit(digits: Seq<u8>, b: int, i: nat, j: nat)
    requires
        2 <= b <= 256,
        i + j < digits.len(),
        forall|k: int| 0 <= k < digits.len() ==> #[trigger] digits[k] < b,
    ensures
        digit(number_of(digits, b, i), b, j) == digits[(i + j) as int],
    decreases j,
{
    let rest = number_of(digits, b, i + 1);
    let v = number_of(digits, b, i);
    assert(v == rest * b + digits[i as int]) by (nonlinear_arith)
        requires
            v == digits[i as int] + b * rest,
    ;
    vstd::arithmetic::div_mod::lemma_fundamental_div_mod_converse(v, b, rest, digits[i as int] as int);
    if j > 0 {
        lemma_number_digit(digits, b, i + 1, (j - 1) as nat);
    }
}

/// A number gives back the digits it was made of.
pub proof fn lemma_digits_round_trip(digits: Seq<u8>, b: int)
    requires
        2 <= b <= 256,
        forall|k: int| 0 <= k < digits.len() ==> #[trigger] digits[k] < b,
    ensures
        digits_of(number_of(digits, b, 0), b, digits.len()) == digits,
{
    assert forall|j: int| 0 <= j < digits.len() implies digits_of(number_of(digits, b, 0), b, digits.len())[j] == digits[j] by {
        lemma_number_digit(digits, b, 0, j as nat);
    }
    assert(digits_of(number_of(digits, b, 0), b, digits.len()) =~= digits);
}

/// Two bytes, low byte first, as a number.
pub open spec fn le16(s: Seq<u8>, i: int) -> int {
    s[i] + 256 * s[i + 1]
}

/// Four bytes, low byte first, as a number.
pub open spec fn le32(s: Seq<u8>, i: int) -> int {
    s[i] + 256 * s[i + 1] + 65536 * s[i + 2] + 16777216 * s[i + 3]
}

proof fn lemma_low_byte(a: int, x: int)
    requires
        0 <= a < 256,
    ensures
        (a + 256 * x) % 256 == a,
        (a + 256 * x) / 256 == x,
{
}

/// Two bytes come back from the number they make.
pub proof fn lemma_le16(s: Seq<u8>, i: int)
    ensures
        le16(s, i) % 256 == s[i],
        le16(s, i) / 256 == s[i + 1],
        0 <= le16(s, i) < 65536,
{
    lemma_low_byte(s[i] as int, s[i + 1] as int);
}

/// Four bytes come back from the number they make.
pub proof fn lemma_le32(s: Seq<u8>, i: int)
    ensures
        le32(s, i) % 256 == s[i],
        le32(s, i) / 256 % 256 == s[i + 1],
        le32(s, i) / 65536 % 256 == s[i + 2],
        le32(s, i) / 16777216 == s[i + 3],
        0 <= le32(s, i) < 0x1_0000_0000,
{
    let (a, b, c, d) = (s[i] as int, s[i + 1] as int, s[i + 2] as int, s[i + 3] as int);
    let z = c + 256 * d;
    let y = b + 256 * z;
    let v = a + 256 * y;
    assert(v == le32(s, i));
    lemma_low_byte(a, y);
    lemma_low_byte(b, z);
    lemma_low_byte(c, d);
    vstd::arithmetic::div_mod::lemma_div_denominator(v, 256, 256);
    vstd::arithmetic::div_mod::lemma_div_denominator(v, 65536, 256);
}

/// The `n` bytes of `v`, low byte first.
pub open spec fn le_bytes(v: int, n: nat) -> Seq<u8> {
    digits_of(v, 256, n)
}

/// Two bytes, low byte first, as a number.
pub fn read_le16(lo: u8, hi: u8) -> (v: u16)
    ensures
        v == lo + 256 * hi,
{
    lo as u16 + 256 * (hi as u16)
}

/// Four bytes, low byte first, as a number.
pub fn read_le32(a: u8, b: u8, c: u8, d: u8) -> (v: u32)
    ensures
        v == a + 256 * b + 65536 * c + 16777216 * d,
{
    a as u32 + 256 * (b as u32) + 65536 * (c as u32) + 16777216 * (d as u32)
}

/// `2^k`.
pub fn power_of_two(k: u32) -> (s: u128)
    requires
        k < 128,
    ensures
        s == pow2(k as nat),
{
    proof {
        vstd::arithmetic::power2::lemma2_to64_rest();
    }
    if k < 64 {
        proof {
            vstd::bits::lemma_u64_pow2_no_overflow(k as nat);
            vstd::bits::lemma_u64_shl_is_mul(1, k as u64);
        }
        (1u64 << (k as u64)) as u128
    } else {
        let j: u64 = (k - 64) as u64;
        proof {
            vstd::bits::lemma_u64_pow2_no_overflow(j as nat);
            vstd::bits::lemma_u64_shl_is_mul(1, j);
            lemma_pow2_adds(j as nat, 64);
            assert(pow2(j as nat) * 0x1_0000_0000_0000_0000 <= u128::MAX) by (nonlinear_arith)
                requires
                    pow2(j as nat) < 0xFFFF_FFFF_FFFF_FFFFu64,
            ;
        }
        ((1u64 << j) as u128) * 0x1_0000_0000_0000_0000
    }
}

/// A bit string: fields of `(value, width)`, the first in the lowest bits.
/// Only the low `width` bits of a value count.
pub open spec fn bit_string(fields: Seq<(int, nat)>, i: nat) -> int
    decreases fields.len() - i,
{
    if i >= fields.len() {
        0
    } else {
        let (v, n) = fields[i as int];
        v % (pow2(n) as int) + pow2(n) * bit_string(fields, i + 1)
    }
}

/// The whole width of the fields before `i`.
pub open spec fn bit_width(fields: Seq<(int, nat)>, i: nat) -> nat
    decreases i,
{
    if i == 0 {
        0
    } else {
        bit_width(fields, (i - 1) as nat) + fields[i - 1].1
    }
}

/// The `n` bits of `v` from bit `off` up.
pub open spec fn bit_field(v: int, off: nat, n: nat) -> int {
    v / (pow2(off) as int) % (pow2(n) as int)
}

proof fn lemma_bit_string_push_from(fields: Seq<(int, nat)>, v: int, n: nat, i: nat)
    requires
        i <= fields.len(),
    ensures
        bit_string(fields.push((v, n)), i) == bit_string(fields, i) + v % (pow2(n) as int) * pow2(
            (bit_width(fields, fields.len()) - bit_width(fields, i)) as nat,
        ),
        bit_width(fields, i) <= bit_width(fields, fields.len()),
    decreases fields.len() - i,
{
    let all = fields.push((v, n));
    let k = fields.len();
    if i == k {
        assert(bit_string(all, k + 1) == 0);
        assert(all[k as int] == (v, n));
        assert(pow2(n) * 0 == 0);
        assert(pow2(0) == 1) by {
            vstd::arithmetic::power2::lemma2_to64();
        }
        assert(bit_string(fields, i) == 0);
        assert((v % (pow2(n) as int)) * 1 == v % (pow2(n) as int));
    } else {
        lemma_bit_string_push_from(fields, v, n, i + 1);
        let w = fields[i as int].1;
        assert(all[i as int] == fields[i as int]);
        let rest = bit_string(fields, i + 1);
        let m = v % (pow2(n) as int);
        let d = (bit_width(fields, k) - bit_width(fields, i + 1)) as nat;
        assert(bit_width(fields, i + 1) == bit_width(fields, i) + w);
        lemma_pow2_adds(w, d);
        assert(pow2(w) * (rest + m * pow2(d)) == pow2(w) * rest + m * pow2(w + d)) by (nonlinear_arith)
            requires
                pow2(w + d) == pow2(w) * pow2(d),
        ;
    }
}

/// Writing one more field adds it above the ones before.
pub proof fn lemma_bit_string_push(fields: Seq<(int, nat)>, v: int, n: nat)
    ensures
        bit_string(fields.push((v, n)), 0) == bit_string(fields, 0) + v % (pow2(n) as int) * pow2(
            bit_width(fields, fields.len()),
        ),
        bit_width(fields.push((v, n)), fields.len() + 1) == bit_width(fields, fields.len()) + n,
{
    lemma_bit_string_push_from(fields, v, n, 0);
    lemma_bit_width_prefix(fields, fields.push((v, n)), fields.len());
}

proof fn lemma_bit_width_prefix(f: Seq<(int, nat)>, g: Seq<(int, nat)>, i: nat)
    requires
        i <= f.len(),
        i <= g.len(),
        forall|k: int| 0 <= k < i ==> f[k] == g[k],
    ensures
        bit_width(f, i) == bit_width(g, i),
    decreases i,
{
    if i > 0 {
        lemma_bit_width_prefix(f, g, (i - 1) as nat);
    }
}

/// A bit string fits in its width.
pub proof fn lemma_bit_string_bound(fields: Seq<(int, nat)>, i: nat)
    requires
        i <= fields.len(),
    ensures
        bit_width(fields, i) <= bit_width(fields, fields.len()),
        0 <= bit_string(fields, i) < pow2((bit_width(fields, fields.len()) - bit_width(fields, i)) as nat),
    decreases fields.len() - i,
{
    if i == fields.len() {
        assert(pow2(0) == 1) by {
            vstd::arithmetic::power2::lemma2_to64();
        }
    } else {
        lemma_bit_string_bound(fields, i + 1);
        let (v, n) = fields[i as int];
        let d = (bit_width(fields, fields.len()) - bit_width(fields, i + 1)) as nat;
        lemma_pow2_adds(n, d);
        lemma_pow2_pos(n);
        let m = v % (pow2(n) as int);
        let rest = bit_string(fields, i + 1);
        assert(0 <= m + pow2(n) * rest < pow2(n) * pow2(d)) by (nonlinear_arith)
            requires
                0 <= m < pow2(n),
                0 <= rest < pow2(d),
        ;
    }
}

/// Reading at a field's offset gives the field back.
pub proof fn lemma_bit_field_of_string(fields: Seq<(int, nat)>, j: nat)
    requires
        j < fields.len(),
    ensures
        bit_field(bit_string(fields, 0), bit_width(fields, j), fields[j as int].1) == fields[j as int].0 % (pow2(
            fields[j as int].1,
        ) as int),
{
    lemma_bit_string_shift(fields, j);
    let (v, n) = fields[j as int];
    let p = pow2(n) as int;
    lemma_pow2_pos(n);
    let rest = bit_string(fields, j + 1);
    let here = bit_string(fields, j);
    assert(here == rest * p + v % p) by (nonlinear_arith)
        requires
            here == v % p + p * rest,
    ;
    vstd::arithmetic::div_mod::lemma_fundamental_div_mod_converse(here, p, rest, v % p);
}

/// Dropping the bits below a field's offset leaves the string from there on.
pub proof fn lemma_bit_string_shift(fields: Seq<(int, nat)>, j: nat)
    requires
        j <= fields.len(),
    ensures
        bit_string(fields, 0) / (pow2(bit_width(fields, j)) as int) == bit_string(fields, j),
    decreases j,
{
    if j == 0 {
        assert(pow2(0) == 1) by {
            vstd::arithmetic::power2::lemma2_to64();
        }
    } else {
        let i = (j - 1) as nat;
        lemma_bit_string_shift(fields, i);
        let (v, n) = fields[i as int];
        let p = pow2(n) as int;
        lemma_pow2_pos(n);
        let rest = bit_string(fields, j);
        let here = bit_string(fields, i);
        lemma_bit_string_bound(fields, j);
        lemma_bit_string_bound(fields, 0);
        assert(here == rest * p + v % p) by (nonlinear_arith)
            requires
                here == v % p + p * rest,
        ;
        vstd::arithmetic::div_mod::lemma_fundamental_div_mod_converse(here, p, rest, v % p);
        let w = bit_width(fields, i);
        lemma_pow2_adds(w, n);
        lemma_pow2_pos(w);
        vstd::arithmetic::div_mod::lemma_div_denominator(bit_string(fields, 0), pow2(w) as int, p);
    }
}

/// `s` with the bytes from `at` on replaced by `b`.
pub open spec fn splice(s: Seq<u8>, at: int, b: Seq<u8>) -> Seq<u8> {
    Seq::new(
        s.len(),
        |i: int|
            if at <= i < at + b.len() {
                b[i - at]
            } else {
                s[i]
            },
    )
}

/// Copies `b` into `out` from `at` on.
pub fn store(out: &mut [u8], at: usize, b: &[u8])
    requires
        at + b@.len() <= old(out)@.len(),
    ensures
        final(out)@ == splice(old(out)@, at as int, b@),
{
    let n: usize = b.len();
    let len: usize = out.len();
    let mut i: usize = 0;
    while i < n
        invariant
            i <= n,
            n == b@.len(),
            len == out@.len(),
            at + n <= out@.len(),
            out@.len() == old(out)@.len(),
            forall|k: int| 0 <= k < at + i && k >= at ==> #[trigger] out@[k] == b@[k - at],
            forall|k: int| 0 <= k < out@.len() && !(at <= k < at + i) ==> #[trigger] out@[k] == old(out)@[k],
        decreases n - i,
    {
        out[at + i] = b[i];
        i = i + 1;
    }
    proof {
        assert(out@ =~= splice(old(out)@, at as int, b@));
    }
}

} // verus!
