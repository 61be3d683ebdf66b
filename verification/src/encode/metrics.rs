//! How far two RGBA8 buffers are apart.

use vstd::prelude::*;

use crate::encode::blocks::max_int;
use crate::model::{lemma_sq, sq};

verus! {

/// The distance of two bytes.
pub open spec fn apart(a: u8, b: u8) -> int {
    if a >= b {
        a - b
    } else {
        b - a
    }
}

/// The largest distance among the first `n` bytes; zero where there are none.
pub open spec fn widest(a: Seq<u8>, b: Seq<u8>, n: nat) -> int
    decreases n,
{
    if n == 0 {
        0
    } else {
        max_int(widest(a, b, (n - 1) as nat), apart(a[n - 1], b[n - 1]))
    }
}

/// No pair of bytes is further apart, and equal buffers alone are not apart.
pub proof fn law_widest_bounds_all(a: Seq<u8>, b: Seq<u8>, n: nat)
    requires
        n <= a.len(),
        n <= b.len(),
    ensures
        0 <= widest(a, b, n) <= 255,
        forall|i: int| 0 <= i < n ==> apart(a[i], #[trigger] b[i]) <= widest(a, b, n),
        widest(a, b, n) == 0 <==> a.take(n as int) == b.take(n as int),
    decreases n,
{
    if n > 0 {
        law_widest_bounds_all(a, b, (n - 1) as nat);
        let (x, y) = (a.take(n as int), b.take(n as int));
        if widest(a, b, n) == 0 {
            assert forall|i: int| 0 <= i < n implies x[i] == y[i] by {
                assert(apart(a[i], b[i]) <= 0);
            }
            assert(x =~= y);
        } else if x == y {
            let (p, q) = (a.take(n - 1), b.take(n - 1));
            assert(x.take(n - 1) =~= p && y.take(n - 1) =~= q);
            assert(x[n - 1] == y[n - 1]);
        }
    } else {
        assert(a.take(0) =~= b.take(0));
    }
}

/// The largest distance of two buffers, byte by byte; none where their lengths
/// differ.
pub fn max_abs_diff(a: &[u8], b: &[u8]) -> (r: Option<u8>)
    ensures
        r is Some <==> a@.len() == b@.len(),
        r matches Some(m) ==> m == widest(a@, b@, a@.len()),
{
    let n: usize = a.len();
    if n != b.len() {
        return None;
    }
    let mut m: u8 = 0;
    let mut i: usize = 0;
    while i < n
        invariant
            i <= n,
            n == a@.len(),
            n == b@.len(),
            m == widest(a@, b@, i as nat),
        decreases n - i,
    {
        let d: u8 = if a[i] >= b[i] {
            a[i] - b[i]
        } else {
            b[i] - a[i]
        };
        if d > m {
            m = d;
        }
        i = i + 1;
    }
    Some(m)
}

/// The sum of the squared differences of the first `n` bytes.
pub open spec fn squares(a: Seq<u8>, b: Seq<u8>, n: nat) -> int
    decreases n,
{
    if n == 0 {
        0
    } else {
        squares(a, b, (n - 1) as nat) + sq(a[n - 1] - b[n - 1])
    }
}

/// The errors of two stretches of bytes add up to that of both together.
pub proof fn law_errors_add_up(a: Seq<u8>, b: Seq<u8>, c: Seq<u8>, d: Seq<u8>)
    requires
        a.len() == b.len(),
        c.len() == d.len(),
    ensures
        squares(a + c, b + d, (a + c).len()) == squares(a, b, a.len()) + squares(c, d, c.len()),
    decreases c.len(),
{
    if c.len() == 0 {
        assert(a + c =~= a && b + d =~= b);
    } else {
        let (p, q) = (c.drop_last(), d.drop_last());
        law_errors_add_up(a, b, p, q);
        lemma_squares_prefix(a + p, b + q, a + c, b + d, (a + p).len());
        lemma_squares_prefix(p, q, c, d, p.len());
    }
}

proof fn lemma_squares_prefix(a: Seq<u8>, b: Seq<u8>, c: Seq<u8>, d: Seq<u8>, n: nat)
    requires
        n <= a.len() <= c.len(),
        n <= b.len() <= d.len(),
        forall|i: int| 0 <= i < n ==> a[i] == #[trigger] c[i] && b[i] == d[i],
    ensures
        squares(a, b, n) == squares(c, d, n),
    decreases n,
{
    if n > 0 {
        lemma_squares_prefix(a, b, c, d, (n - 1) as nat);
        assert(a[n - 1] == c[n - 1] && b[n - 1] == d[n - 1]);
    }
}

/// Two single bytes err by the square of their difference, and two buffers by
/// nothing exactly where they are equal.
pub proof fn law_errors_are_squares(x: u8, y: u8, a: Seq<u8>, b: Seq<u8>)
    requires
        a.len() == b.len(),
    ensures
        squares(seq![x], seq![y], 1) == (x - y) * (x - y),
        squares(a, b, a.len()) >= 0,
        squares(a, b, a.len()) == 0 <==> a == b,
    decreases a.len(),
{
    reveal(sq);
    reveal_with_fuel(squares, 2);
    assert(seq![x][0] == x && seq![y][0] == y);
    if a.len() > 0 {
        let (p, q) = (a.drop_last(), b.drop_last());
        law_errors_are_squares(x, y, p, q);
        lemma_squares_prefix(p, q, a, b, p.len());
        let e = a.last() - b.last();
        assert(e * e >= 0 && (e * e == 0 <==> e == 0)) by (nonlinear_arith);
        if a == b {
            assert(p == q);
        } else if p == q && a.last() == b.last() {
            assert(a =~= p.push(a.last()) && b =~= q.push(b.last()));
        }
    } else {
        assert(a =~= b);
    }
}

/// The largest distance is that of some pair of bytes.
pub proof fn law_widest_is_reached(a: Seq<u8>, b: Seq<u8>, n: nat)
    requires
        0 < n <= a.len(),
        n <= b.len(),
    ensures
        exists|i: int| 0 <= i < n && (widest(a, b, n) == a[i] - #[trigger] b[i] || widest(a, b, n) == b[i] - a[i]),
        forall|i: int| 0 <= i < n ==> a[i] - #[trigger] b[i] <= widest(a, b, n) && b[i] - a[i] <= widest(a, b, n),
    decreases n,
{
    reveal_with_fuel(widest, 2);
    if n > 1 {
        law_widest_is_reached(a, b, (n - 1) as nat);
        let i = choose|i: int|
            0 <= i < n - 1 && (widest(a, b, (n - 1) as nat) == a[i] - #[trigger] b[i] || widest(a, b, (n - 1) as nat) == b[i]
                - a[i]);
        assert(widest(a, b, (n - 1) as nat) == a[i] - b[i] || widest(a, b, (n - 1) as nat) == b[i] - a[i]);
        let last = b[n - 1];
    } else {
        let last = b[0];
        assert(widest(a, b, 0) == 0);
    }
    assert forall|i: int| 0 <= i < n implies a[i] - #[trigger] b[i] <= widest(a, b, n) && b[i] - a[i] <= widest(a, b, n) by {
        if i < n - 1 {
            assert(a[i] - b[i] <= widest(a, b, (n - 1) as nat));
        }
    }
}

/// The sum of the squared differences of two buffers; none where their lengths
/// differ or they are empty.
pub fn squared_error(a: &[u8], b: &[u8]) -> (r: Option<u128>)
    ensures
        r is Some <==> a@.len() == b@.len() && a@.len() > 0,
        r matches Some(e) ==> e == squares(a@, b@, a@.len()),
{
    let n: usize = a.len();
    if n != b.len() || n == 0 {
        return None;
    }
    let mut e: u128 = 0;
    let mut i: usize = 0;
    while i < n
        invariant
            i <= n,
            n == a@.len(),
            n == b@.len(),
            e == squares(a@, b@, i as nat),
            e <= 65025 * i,
        decreases n - i,
    {
        let d: u128 = if a[i] >= b[i] {
            (a[i] - b[i]) as u128
        } else {
            (b[i] - a[i]) as u128
        };
        proof {
            lemma_sq(d as int);
            lemma_sq(a@[i as int] - b@[i as int]);
            reveal(sq);
        }
        e = e + d * d;
        i = i + 1;
    }
    Some(e)
}

} // verus!
