//! Least-squares endpoints for a fixed index assignment.
//!
//! Each texel is modelled as `(1 - w) * e0 + w * e1`, with the weight `w` that
//! its index stands for; the two normal equations are solved per channel in
//! single precision, sums taken in texel order.

use vstd::prelude::*;

use crate::binary32::{add32, difference, div32, from_int32, less, less32, mag, mul32, of_int, product, quotient, round_clamp_u8, round_clamped, signed, sub32, sum};
use crate::model::rows;

verus! {

/// The sum of products, in single precision, of the first `n` pairs.
pub open spec fn dot(xs: Seq<u32>, ys: Seq<u32>, n: nat) -> u32
    decreases n,
{
    if n == 0 {
        of_int(0)
    } else {
        sum(dot(xs, ys, (n - 1) as nat), product(xs[n - 1], ys[n - 1]))
    }
}

/// `1 - w` for each weight.
pub open spec fn complements(ws: Seq<u32>) -> Seq<u32> {
    Seq::new(ws.len(), |i: int| difference(of_int(1), ws[i]))
}

/// One channel of the texels, in single precision.
pub open spec fn channel_values(px: Seq<Seq<u8>>, c: int) -> Seq<u32> {
    Seq::new(px.len(), |i: int| of_int(px[i][c] as int))
}

/// The magnitude of a pattern.
pub open spec fn absolute(b: u32) -> u32 {
    signed(false, mag(b))
}

/// `1 / n` in single precision: the threshold for a vanishing determinant.
pub open spec fn one_over(n: int) -> u32 {
    quotient(of_int(1), of_int(n))
}

/// The determinant of the normal equations.
pub open spec fn ls_det(ws: Seq<u32>) -> u32 {
    let us = complements(ws);
    let n = ws.len();
    difference(product(dot(us, us, n), dot(ws, ws, n)), product(dot(us, ws, n), dot(us, ws, n)))
}

/// Whether the weights fail to determine both endpoints.
pub open spec fn ls_degenerate(ws: Seq<u32>) -> bool {
    less(absolute(ls_det(ws)), one_over(10000))
}

/// The first endpoint's channel `c`.
pub open spec fn ls_first(px: Seq<Seq<u8>>, ws: Seq<u32>, c: int) -> u8 {
    let us = complements(ws);
    let n = ws.len();
    let xs = channel_values(px, c);
    round_clamped(
        quotient(
            difference(product(dot(ws, ws, n), dot(us, xs, n)), product(dot(us, ws, n), dot(ws, xs, n))),
            ls_det(ws),
        ),
        0,
        255,
    ) as u8
}

/// The second endpoint's channel `c`.
pub open spec fn ls_second(px: Seq<Seq<u8>>, ws: Seq<u32>, c: int) -> u8 {
    let us = complements(ws);
    let n = ws.len();
    let xs = channel_values(px, c);
    round_clamped(
        quotient(
            difference(product(dot(us, us, n), dot(ws, xs, n)), product(dot(us, ws, n), dot(us, xs, n))),
            ls_det(ws),
        ),
        0,
        255,
    ) as u8
}

/// The endpoints, `k` channels each, that fit the texels best under the
/// weights; none where the weights do not determine them.
pub open spec fn ls_endpoints(px: Seq<Seq<u8>>, ws: Seq<u32>, k: nat) -> Option<(Seq<u8>, Seq<u8>)> {
    if ls_degenerate(ws) {
        None
    } else {
        Some((Seq::new(k, |c: int| ls_first(px, ws, c)), Seq::new(k, |c: int| ls_second(px, ws, c))))
    }
}

/// The part of the normal equations that the weights alone fix.
#[derive(Clone, Copy)]
pub struct LsTerms {
    us: [u32; 16],
    ws: [u32; 16],
    n: usize,
    a00: u32,
    a01: u32,
    a11: u32,
    det: u32,
}

impl LsTerms {
    /// The weights.
    pub closed spec fn view(&self) -> Seq<u32> {
        self.ws@.take(self.n as int)
    }

    /// The stored sums are those of the weights.
    pub closed spec fn wf(&self) -> bool {
        let ws = self@;
        let us = complements(ws);
        &&& self.n <= 16
        &&& self.us@.take(self.n as int) == us
        &&& self.a00 == dot(us, us, ws.len())
        &&& self.a01 == dot(us, ws, ws.len())
        &&& self.a11 == dot(ws, ws, ws.len())
        &&& self.det == ls_det(ws)
    }

    /// The terms for the first `n` weights; none where they do not determine
    /// the endpoints.
    pub fn new(weights: &[u32; 16], n: usize) -> (t: Option<LsTerms>)
        requires
            n <= 16,
        ensures
            ls_degenerate(weights@.take(n as int)) <==> t is None,
            t matches Some(t) ==> t.wf() && t@ == weights@.take(n as int),
    {
        let ghost ws = weights@.take(n as int);
        let ghost uw = complements(ws);
        let one: u32 = from_int32(1);
        let mut us: [u32; 16] = [0u32; 16];
        let mut a00: u32 = from_int32(0);
        let mut a01: u32 = a00;
        let mut a11: u32 = a00;
        let mut i: usize = 0;
        while i < n
            invariant
                i <= n <= 16,
                ws == weights@.take(n as int),
                uw == complements(ws),
                one == of_int(1),
                forall|k: int| 0 <= k < i ==> #[trigger] us@[k] == uw[k],
                a00 == dot(uw, uw, i as nat),
                a01 == dot(uw, ws, i as nat),
                a11 == dot(ws, ws, i as nat),
            decreases n - i,
        {
            let w: u32 = weights[i];
            let u: u32 = sub32(one, w);
            us[i] = u;
            a00 = add32(a00, mul32(u, u));
            a01 = add32(a01, mul32(u, w));
            a11 = add32(a11, mul32(w, w));
            i = i + 1;
        }
        let det: u32 = sub32(mul32(a00, a11), mul32(a01, a01));
        let size: u32 = if det >= 0x8000_0000 {
            det - 0x8000_0000
        } else {
            det
        };
        if less32(size, div32(one, from_int32(10000))) {
            return None;
        }
        proof {
            assert(us@.take(n as int) =~= uw);
        }
        Some(LsTerms { us, ws: *weights, n, a00, a01, a11, det })
    }

    /// The two sums of one channel.
    fn channel_sums(&self, px: &[[u8; 4]; 16], c: usize) -> (b: (u32, u32))
        requires
            self.wf(),
            c < 4,
        ensures
            b.0 == dot(complements(self@), channel_values(rows(*px), c as int), self@.len()),
            b.1 == dot(self@, channel_values(rows(*px), c as int), self@.len()),
    {
        let ghost ws = self@;
        let ghost us = complements(ws);
        let ghost xs = channel_values(rows(*px), c as int);
        let mut b0: u32 = from_int32(0);
        let mut b1: u32 = b0;
        let mut i: usize = 0;
        while i < self.n
            invariant
                i <= self.n <= 16,
                c < 4,
                self.wf(),
                ws == self@,
                us == complements(ws),
                xs == channel_values(rows(*px), c as int),
                b0 == dot(us, xs, i as nat),
                b1 == dot(ws, xs, i as nat),
            decreases self.n - i,
        {
            let x: u32 = from_int32(px[i][c] as i64);
            proof {
                assert(xs[i as int] == x);
                assert(self.us@[i as int] == self.us@.take(self.n as int)[i as int]);
                assert(self.ws@[i as int] == ws[i as int]);
            }
            b0 = add32(b0, mul32(self.us[i], x));
            b1 = add32(b1, mul32(self.ws[i], x));
            i = i + 1;
        }
        (b0, b1)
    }

    /// The endpoints that fit the texels best, all four channels.
    pub fn solve(&self, px: &[[u8; 4]; 16]) -> (e: ([u8; 4], [u8; 4]))
        requires
            self.wf(),
        ensures
            forall|c: int| 0 <= c < 4 ==> #[trigger] e.0@[c] == ls_first(rows(*px), self@, c),
            forall|c: int| 0 <= c < 4 ==> #[trigger] e.1@[c] == ls_second(rows(*px), self@, c),
    {
        let mut e0: [u8; 4] = [0u8; 4];
        let mut e1: [u8; 4] = [0u8; 4];
        let mut c: usize = 0;
        while c < 4
            invariant
                c <= 4,
                self.wf(),
                forall|k: int| 0 <= k < c ==> #[trigger] e0@[k] == ls_first(rows(*px), self@, k),
                forall|k: int| 0 <= k < c ==> #[trigger] e1@[k] == ls_second(rows(*px), self@, k),
            decreases 4 - c,
        {
            let (b0, b1) = self.channel_sums(px, c);
            e0[c] = round_clamp_u8(div32(sub32(mul32(self.a11, b0), mul32(self.a01, b1)), self.det));
            e1[c] = round_clamp_u8(div32(sub32(mul32(self.a00, b1), mul32(self.a01, b0)), self.det));
            c = c + 1;
        }
        (e0, e1)
    }
}

/// The endpoints that fit the texels best under the first `n` weights.
pub fn solve_endpoints(px: &[[u8; 4]; 16], weights: &[u32; 16], n: usize) -> (e: Option<([u8; 4], [u8; 4])>)
    requires
        n <= 16,
    ensures
        e matches Some(e) ==> ls_endpoints(rows(*px), weights@.take(n as int), 4) == Some((e.0@, e.1@)),
        e is None ==> ls_endpoints(rows(*px), weights@.take(n as int), 4) is None,
{
    match LsTerms::new(weights, n) {
        None => None,
        Some(t) => {
            let e = t.solve(px);
            proof {
                let ws = weights@.take(n as int);
                assert(e.0@ =~= Seq::new(4, |c: int| ls_first(rows(*px), ws, c)));
                assert(e.1@ =~= Seq::new(4, |c: int| ls_second(rows(*px), ws, c)));
            }
            Some(e)
        },
    }
}

/// The endpoints that fit the texels best under the first `n` weights, RGB only.
pub fn solve_endpoints_rgb(px: &[[u8; 4]; 16], weights: &[u32; 16], n: usize) -> (e: Option<([u8; 3], [u8; 3])>)
    requires
        n <= 16,
    ensures
        e matches Some(e) ==> ls_endpoints(rows(*px), weights@.take(n as int), 3) == Some((e.0@, e.1@)),
        e is None ==> ls_endpoints(rows(*px), weights@.take(n as int), 3) is None,
{
    match LsTerms::new(weights, n) {
        None => None,
        Some(t) => {
            let (f0, f1) = t.solve(px);
            let e0: [u8; 3] = [f0[0], f0[1], f0[2]];
            let e1: [u8; 3] = [f1[0], f1[1], f1[2]];
            proof {
                let ws = weights@.take(n as int);
                assert(e0@ =~= Seq::new(3, |c: int| ls_first(rows(*px), ws, c)));
                assert(e1@ =~= Seq::new(3, |c: int| ls_second(rows(*px), ws, c)));
            }
            Some((e0, e1))
        },
    }
}

} // verus!
