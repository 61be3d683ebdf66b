//! BC7 mode 1: two subsets, 6-bit endpoints with one shared low bit for each
//! subset, 3-bit indices, opaque.

use vstd::prelude::*;

use crate::binary32::{div32, from_int32, of_int, quotient};
use crate::decode::bcn::{fixup_of, law_partitions_use_both_subsets, subset_of, subsets_of, BC7_P2_FIXUP};
use crate::encode::blocks::bc1::{better, lemma_rgb_fit, Scored};
use crate::encode::blocks::bc7::{brightest, channel_total, darkest, interp_rows, interpolate, luminances, negated, weight3, weights3};
use crate::encode::blocks::lsq::{channel_values, complements, dot, ls_endpoints, ls_first, ls_second, solve_endpoints_rgb};
use crate::encode::blocks::{nearest_rgb, rgb_costs, rgb_distance, BitWriter};
use crate::model::{best_of, bit_string, first_min, fit_costs, fit_error, fit_indices, le_bytes, lemma_first_min_unique, lemma_sq, lemma_sq_monotone, lemma_total_grows, rows, sq, sq_diff, total};

verus! {

/// A 6-bit level with its low bit, stretched to a byte by repeating the high
/// bit.
pub open spec fn level6_byte(q: int, p: int) -> int {
    (2 * q + p) * 2 + (2 * q + p) / 64
}

/// How far each 6-bit level, with low bit `p`, lies from the byte `c`.
pub open spec fn level6_costs(c: int, p: int) -> Seq<int> {
    Seq::new(64, |q: int| sq(level6_byte(q, p) - c))
}

/// The nearest 6-bit level to the byte `c` under the low bit `p`, the lowest
/// among equals.
pub open spec fn level6(c: u8, p: int) -> u8 {
    best_of(level6_costs(c as int, p)) as u8
}

/// The byte of a 6-bit level and its low bit.
pub fn unquant6p_chan(q: u8, p: u8) -> (v: u8)
    requires
        q < 64,
        p < 2,
    ensures
        v == level6_byte(q as int, p as int),
{
    let v7: u8 = q * 2 + p;
    v7 * 2 + v7 / 64
}

fn gap(a: u8, b: u8) -> (d: u8)
    ensures
        d as int == (if a >= b { a - b } else { b - a }),
{
    if a >= b {
        a - b
    } else {
        b - a
    }
}

proof fn lemma_gap_cost(a: int, b: int, x: int, y: int)
    requires
        x == (if a >= 0 { a } else { -a }),
        y == (if b >= 0 { b } else { -b }),
    ensures
        x <= y ==> sq(a) <= sq(b),
        x < y ==> sq(a) < sq(b),
{
    lemma_sq(a);
    lemma_sq(b);
    if x <= y {
        lemma_sq_monotone(x, y);
    }
}

/// The nearest 6-bit level to a byte under a low bit.
pub fn quantize6p_chan(c: u8, p: u8) -> (q: u8)
    requires
        p < 2,
    ensures
        q == level6(c, p as int),
        q < 64,
{
    let base: u8 = c / 4;
    let lo: u8 = if base == 0 {
        0
    } else {
        base - 1
    };
    let hi: u8 = if base >= 63 {
        63
    } else {
        base + 1
    };
    let mut best: u8 = lo;
    let mut best_d: u8 = gap(unquant6p_chan(lo, p), c);
    let mut cand: u8 = lo + 1;
    while cand <= hi
        invariant
            p < 2,
            hi <= 63,
            lo < cand <= hi + 1,
            lo <= best < cand,
            best_d as int == (if level6_byte(best as int, p as int) >= c { level6_byte(best as int, p as int) - c } else {
                c - level6_byte(best as int, p as int)
            }),
            forall|j: int|
                lo <= j < cand ==> best_d <= (if #[trigger] level6_byte(j, p as int) >= c {
                    level6_byte(j, p as int) - c
                } else {
                    c - level6_byte(j, p as int)
                }),
            forall|j: int|
                lo <= j < best ==> best_d < (if #[trigger] level6_byte(j, p as int) >= c {
                    level6_byte(j, p as int) - c
                } else {
                    c - level6_byte(j, p as int)
                }),
        decreases hi + 1 - cand,
    {
        let d: u8 = gap(unquant6p_chan(cand, p), c);
        if d < best_d {
            best_d = d;
            best = cand;
        }
        cand = cand + 1;
    }
    proof {
        let costs = level6_costs(c as int, p as int);
        assert(best_d <= 3) by {
            let r = level6_byte(base as int, p as int);
            assert(4 * base <= r <= 4 * base + 3);
        }
        assert forall|j: int| 0 <= j < 64 implies costs[best as int] <= #[trigger] costs[j] && (j < best ==> costs[best as int]
            < costs[j]) by {
            let r = level6_byte(j, p as int);
            let d = if r >= c {
                r - c
            } else {
                c - r
            };
            if j < lo {
                assert(r <= 4 * j + 3);
                assert(d >= 5);
            } else if j > hi {
                assert(r >= 4 * j);
                assert(d >= 5);
            }
            lemma_gap_cost(level6_byte(best as int, p as int) - c, r - c, best_d as int, d);
        }
        lemma_first_min_unique(costs, 64, best as int);
    }
    best
}

/// A colour's levels under the low bit `p`.
pub open spec fn levels6(c: Seq<u8>, p: int) -> Seq<u8> {
    Seq::new(3, |i: int| level6(c[i], p))
}

/// The bytes of levels under the low bit `p`.
pub open spec fn bytes6(q: Seq<u8>, p: int) -> Seq<u8> {
    Seq::new(3, |i: int| level6_byte(q[i] as int, p) as u8)
}

/// A colour's levels under a low bit.
pub fn quantize6p(c: [u8; 3], p: u8) -> (q: [u8; 3])
    requires
        p < 2,
    ensures
        q@ == levels6(c@, p as int),
        forall|i: int| 0 <= i < 3 ==> #[trigger] q@[i] < 64,
{
    let q: [u8; 3] = [quantize6p_chan(c[0], p), quantize6p_chan(c[1], p), quantize6p_chan(c[2], p)];
    proof {
        assert(q@ =~= levels6(c@, p as int));
    }
    q
}

/// The bytes of a colour's levels and low bit.
pub fn unquant6p(q: [u8; 3], p: u8) -> (c: [u8; 3])
    requires
        p < 2,
        forall|i: int| 0 <= i < 3 ==> #[trigger] q@[i] < 64,
    ensures
        c@ == bytes6(q@, p as int),
{
    let c: [u8; 3] = [unquant6p_chan(q[0], p), unquant6p_chan(q[1], p), unquant6p_chan(q[2], p)];
    proof {
        assert(c@ =~= bytes6(q@, p as int));
    }
    c
}

/// A subset's endpoint levels, its low bit, its indices and its squared error.
pub type SubsetFit = (Seq<u8>, Seq<u8>, int, Seq<u8>, int);

/// The fit of one subset's texels for an endpoint pair and a low bit.
#[verifier::opaque]
pub open spec fn subset_candidate(list: Seq<Seq<u8>>, s0: Seq<u8>, s1: Seq<u8>, p: int) -> SubsetFit {
    let q0 = levels6(s0, p);
    let q1 = levels6(s1, p);
    let costs = rgb_costs(list, interp_rows(bytes6(q0, p), bytes6(q1, p), weights3()));
    (q0, q1, p, fit_indices(costs), fit_error(costs))
}

/// The fit in hand, or the candidate where it keeps to the budget and errs
/// strictly less.
pub open spec fn within(st: Option<SubsetFit>, cand: SubsetFit, budget: int) -> Option<SubsetFit> {
    if cand.4 > budget {
        st
    } else {
        match st {
            None => Some(cand),
            Some(f) => if cand.4 < f.4 {
                Some(cand)
            } else {
                st
            },
        }
    }
}

/// Both low bits of an endpoint pair.
pub open spec fn both_bits(
    list: Seq<Seq<u8>>,
    st: Option<SubsetFit>,
    s0: Seq<u8>,
    s1: Seq<u8>,
    budget: int,
) -> Option<SubsetFit> {
    within(within(st, subset_candidate(list, s0, s1, 0), budget), subset_candidate(list, s0, s1, 1), budget)
}

/// The weights of 3-bit indices, in single precision.
pub open spec fn float_weights3(idx: Seq<u8>) -> Seq<u32> {
    Seq::new(idx.len(), |i: int| quotient(of_int(weights3()[idx[i] as int]), of_int(64)))
}

/// The fit of one subset: both low bits of the seed pair, then of the
/// least-squares refit of the winner. None where nothing keeps to the budget.
pub open spec fn subset_fit(list: Seq<Seq<u8>>, s0: Seq<u8>, s1: Seq<u8>, budget: int) -> Option<SubsetFit> {
    match both_bits(list, None, s0, s1, budget) {
        None => None,
        Some(f) => match ls_endpoints(list, float_weights3(f.3), 3) {
            None => Some(f),
            Some((a, b)) => both_bits(list, Some(f), a, b, budget),
        },
    }
}

/// One subset's texels, the first `n` of the array.
pub open spec fn listed(px: [[u8; 4]; 16], n: int) -> Seq<Seq<u8>> {
    rows(px).take(n)
}

/// One evaluated fit of a subset.
#[derive(Clone, Copy)]
pub struct SubsetHalf {
    pub q0: [u8; 3],
    pub q1: [u8; 3],
    pub p: u8,
    pub idx: [u8; 16],
    pub err: i32,
}

impl SubsetHalf {
    /// The fit of the first `n` texels that the half holds.
    pub open spec fn fit(&self, n: int) -> SubsetFit {
        (self.q0@, self.q1@, self.p as int, self.idx@.take(n), self.err as int)
    }

    /// The half's fields are in range.
    pub open spec fn wf(&self, n: int) -> bool {
        &&& forall|i: int| 0 <= i < 3 ==> #[trigger] self.q0@[i] < 64
        &&& forall|i: int| 0 <= i < 3 ==> #[trigger] self.q1@[i] < 64
        &&& self.p < 2
        &&& forall|i: int| 0 <= i < n ==> #[trigger] self.idx@[i] < 8
        &&& 0 <= self.err <= 3121200
    }
}

fn palette_rgb8(c0: [u8; 3], c1: [u8; 3]) -> (pal: [[u8; 3]; 8])
    ensures
        rows(pal) == interp_rows(c0@, c1@, weights3()),
{
    let mut pal: [[u8; 3]; 8] = [[0u8; 3]; 8];
    let mut k: usize = 0;
    while k < 8
        invariant
            k <= 8,
            forall|j: int| 0 <= j < k ==> (#[trigger] pal@[j])@ == interp_rows(c0@, c1@, weights3())[j],
        decreases 8 - k,
    {
        let w: u32 = weight3(k);
        pal[k] = [interpolate(w, c0[0], c1[0]), interpolate(w, c0[1], c1[1]), interpolate(w, c0[2], c1[2])];
        proof {
            assert(pal@[k as int]@ =~= interp_rows(c0@, c1@, weights3())[k as int]);
        }
        k = k + 1;
    }
    proof {
        assert(rows(pal) =~= interp_rows(c0@, c1@, weights3()));
    }
    pal
}

/// The candidate of an endpoint pair and a low bit; none where its error
/// reaches the limit.
fn try_subset(px: &[[u8; 4]; 16], n: usize, s0: [u8; 3], s1: [u8; 3], p: u8, limit: i32) -> (r: Option<SubsetHalf>)
    requires
        n <= 16,
        p < 2,
    ensures
        r is Some <==> subset_candidate(listed(*px, n as int), s0@, s1@, p as int).4 < limit,
        r matches Some(f) ==> f.wf(n as int) && f.fit(n as int) == subset_candidate(
            listed(*px, n as int),
            s0@,
            s1@,
            p as int,
        ),
{
    proof {
        reveal(subset_candidate);
    }
    let q0: [u8; 3] = quantize6p(s0, p);
    let q1: [u8; 3] = quantize6p(s1, p);
    let pal: [[u8; 3]; 8] = palette_rgb8(unquant6p(q0, p), unquant6p(q1, p));
    let ghost list = listed(*px, n as int);
    let ghost costs = rgb_costs(list, rows(pal));
    proof {
        lemma_rgb_fit(list, rows(pal));
    }
    let mut idx: [u8; 16] = [0u8; 16];
    let mut err: i32 = 0;
    let mut i: usize = 0;
    while i < n
        invariant
            i <= n <= 16,
            list == listed(*px, n as int),
            costs == rgb_costs(list, rows(pal)),
            subset_candidate(list, s0@, s1@, p as int).4 == total(fit_costs(costs), n as nat),
            forall|i: int| 0 <= i < n ==> 0 <= #[trigger] fit_costs(costs)[i] <= 195075,
            forall|k: int| 0 <= k < i ==> #[trigger] idx@[k] == fit_indices(costs)[k],
            forall|k: int| 0 <= k < i ==> #[trigger] idx@[k] < 8,
            err == total(fit_costs(costs), i as nat),
            0 <= err <= i * 195075,
        decreases n - i,
    {
        let (j, d) = nearest_rgb(px[i], &pal);
        proof {
            assert(costs[i as int] =~= Seq::new(8, |j: int| rgb_distance(px@[i as int]@, pal@[j]@)));
            assert(fit_indices(costs)[i as int] == j);
            assert(fit_costs(costs)[i as int] == d);
        }
        idx[i] = j;
        err = err + d;
        if err >= limit {
            proof {
                lemma_total_grows(fit_costs(costs), (i + 1) as nat, n as nat);
            }
            return None;
        }
        i = i + 1;
    }
    if err >= limit {
        return None;
    }
    proof {
        assert(idx@.take(n as int) =~= fit_indices(costs));
    }
    Some(SubsetHalf { q0, q1, p, idx, err })
}

fn take_within(
    px: &[[u8; 4]; 16],
    n: usize,
    st: Option<SubsetHalf>,
    s0: [u8; 3],
    s1: [u8; 3],
    p: u8,
    budget: i32,
) -> (r: Option<SubsetHalf>)
    requires
        n <= 16,
        p < 2,
        0 <= budget,
        st matches Some(f) ==> f.wf(n as int),
    ensures
        r matches Some(f) ==> f.wf(n as int),
        fit_of(r, n as int) == within(
            fit_of(st, n as int),
            subset_candidate(listed(*px, n as int), s0@, s1@, p as int),
            budget as int,
        ),
{
    let room: i32 = if budget < 3121200 {
        budget + 1
    } else {
        3121201
    };
    let limit: i32 = match st {
        Some(f) => if f.err < room {
            f.err
        } else {
            room
        },
        None => room,
    };
    proof {
        lemma_candidate_range(listed(*px, n as int), s0@, s1@, p as int);
    }
    match try_subset(px, n, s0, s1, p, limit) {
        Some(f) => Some(f),
        None => st,
    }
}

proof fn lemma_candidate_range(list: Seq<Seq<u8>>, s0: Seq<u8>, s1: Seq<u8>, p: int)
    requires
        list.len() <= 16,
    ensures
        0 <= subset_candidate(list, s0, s1, p).4 <= 3121200,
{
    reveal(subset_candidate);
    let pal = interp_rows(bytes6(levels6(s0, p), p), bytes6(levels6(s1, p), p), weights3());
    lemma_rgb_fit(list, pal);
    assert(list.len() * 195075 <= 3121200) by (nonlinear_arith)
        requires
            list.len() <= 16,
    ;
}

/// The fit that an optional half holds.
pub open spec fn fit_of(st: Option<SubsetHalf>, n: int) -> Option<SubsetFit> {
    match st {
        Some(f) => Some(f.fit(n)),
        None => None,
    }
}

proof fn lemma_dot_prefix(xs: Seq<u32>, ys: Seq<u32>, zs: Seq<u32>, n: nat)
    requires
        forall|i: int| 0 <= i < n ==> #[trigger] ys[i] == zs[i],
    ensures
        dot(xs, ys, n) == dot(xs, zs, n),
    decreases n,
{
    if n > 0 {
        lemma_dot_prefix(xs, ys, zs, (n - 1) as nat);
        assert(ys[n - 1] == zs[n - 1]);
    }
}

/// Texels past the weights do not matter.
proof fn lemma_ls_prefix(px: Seq<Seq<u8>>, list: Seq<Seq<u8>>, ws: Seq<u32>, k: nat)
    requires
        list == px.take(ws.len() as int),
        ws.len() <= px.len(),
    ensures
        ls_endpoints(px, ws, k) == ls_endpoints(list, ws, k),
{
    assert forall|c: int| ls_first(px, ws, c) == ls_first(list, ws, c) && ls_second(px, ws, c) == ls_second(
        list,
        ws,
        c,
    ) by {
        let xs = channel_values(px, c);
        let ys = channel_values(list, c);
        assert forall|i: int| 0 <= i < ws.len() implies #[trigger] xs[i] == ys[i] by {}
        lemma_dot_prefix(complements(ws), xs, ys, ws.len());
        lemma_dot_prefix(ws, xs, ys, ws.len());
    }
    assert(Seq::new(k, |c: int| ls_first(px, ws, c)) =~= Seq::new(k, |c: int| ls_first(list, ws, c)));
    assert(Seq::new(k, |c: int| ls_second(px, ws, c)) =~= Seq::new(k, |c: int| ls_second(list, ws, c)));
}

fn ls_endpoints_subset(px: &[[u8; 4]; 16], n: usize, idx: &[u8; 16]) -> (r: Option<([u8; 3], [u8; 3])>)
    requires
        n <= 16,
        forall|i: int| 0 <= i < n ==> #[trigger] idx@[i] < 8,
    ensures
        r matches Some((a, b)) ==> ls_endpoints(
            listed(*px, n as int),
            float_weights3(idx@.take(n as int)),
            3,
        ) == Some((a@, b@)),
        r is None ==> ls_endpoints(listed(*px, n as int), float_weights3(idx@.take(n as int)), 3) is None,
{
    let scale: u32 = from_int32(64);
    let mut ws: [u32; 16] = [0u32; 16];
    let ghost want = float_weights3(idx@.take(n as int));
    let mut i: usize = 0;
    while i < n
        invariant
            i <= n <= 16,
            scale == of_int(64),
            want == float_weights3(idx@.take(n as int)),
            forall|i: int| 0 <= i < n ==> #[trigger] idx@[i] < 8,
            forall|k: int| 0 <= k < i ==> #[trigger] ws@[k] == want[k],
        decreases n - i,
    {
        ws[i] = div32(from_int32(weight3(idx[i] as usize) as i64), scale);
        i = i + 1;
    }
    proof {
        assert(ws@.take(n as int) =~= want);
        lemma_ls_prefix(rows(*px), listed(*px, n as int), want, 3);
    }
    solve_endpoints_rgb(px, &ws, n)
}

/// The fit of one subset within a budget.
pub fn fit_subset(px: &[[u8; 4]; 16], n: usize, s0: [u8; 3], s1: [u8; 3], budget: i32) -> (r: Option<SubsetHalf>)
    requires
        n <= 16,
        0 <= budget,
    ensures
        r matches Some(f) ==> f.wf(n as int),
        fit_of(r, n as int) == subset_fit(listed(*px, n as int), s0@, s1@, budget as int),
{
    let first: Option<SubsetHalf> = take_within(px, n, None, s0, s1, 0, budget);
    let first: Option<SubsetHalf> = take_within(px, n, first, s0, s1, 1, budget);
    match first {
        None => None,
        Some(f) => {
            match ls_endpoints_subset(px, n, &f.idx) {
                None => Some(f),
                Some((a, b)) => {
                    let second: Option<SubsetHalf> = take_within(px, n, Some(f), a, b, 0, budget);
                    take_within(px, n, second, a, b, 1, budget)
                },
            }
        },
    }
}

/// The pixels of subset `s` among the first `n`, in row order.
pub open spec fn members(part: int, s: int, n: nat) -> Seq<int>
    decreases n,
{
    if n == 0 {
        Seq::empty()
    } else {
        let m = members(part, s, (n - 1) as nat);
        if subset_of(part, n - 1) == s {
            m.push(n - 1)
        } else {
            m
        }
    }
}

/// The texels of subset `s`.
pub open spec fn subset_texels(px: Seq<Seq<u8>>, part: int, s: int) -> Seq<Seq<u8>> {
    Seq::new(members(part, s, 16).len(), |k: int| px[members(part, s, 16)[k]])
}

pub proof fn lemma_members(part: int, s: int, n: nat)
    requires
        n <= 16,
    ensures
        members(part, s, n).len() <= n,
        forall|k: int| 0 <= k < members(part, s, n).len() ==> 0 <= #[trigger] members(part, s, n)[k] < n,
        forall|k: int| 0 <= k < members(part, s, n).len() ==> subset_of(part, #[trigger] members(part, s, n)[k]) == s,
    decreases n,
{
    if n > 0 {
        lemma_members(part, s, (n - 1) as nat);
    }
}

pub proof fn lemma_members_prefix(part: int, s: int, m: nat, n: nat)
    requires
        m <= n <= 16,
    ensures
        members(part, s, m).len() <= members(part, s, n).len(),
        forall|k: int| 0 <= k < members(part, s, m).len() ==> #[trigger] members(part, s, m)[k] == members(part, s, n)[k],
    decreases n,
{
    if m < n {
        lemma_members_prefix(part, s, m, (n - 1) as nat);
    }
}

pub proof fn lemma_member_rank(part: int, i: int)
    requires
        0 <= i < 16,
        0 <= part < 64,
    ensures
        ({
            let s = subset_of(part, i);
            let k = members(part, s, i as nat).len();
            k < members(part, s, 16).len() && members(part, s, 16)[k as int] == i
        }),
{
    let s = subset_of(part, i);
    lemma_members_prefix(part, s, (i + 1) as nat, 16);
    let m = members(part, s, (i + 1) as nat);
    assert(m == members(part, s, i as nat).push(i));
    assert(m[m.len() - 1] == members(part, s, 16)[m.len() - 1]);
}

/// The texels of one subset, gathered, and how many there are.
fn gather_subset(px: &[[u8; 4]; 16], sub: &[u8; 16], part: usize, s: u8) -> (r: ([[u8; 4]; 16], usize))
    requires
        part < 64,
        s < 2,
        forall|p: int| 0 <= p < 16 ==> #[trigger] sub@[p] == subset_of(part as int, p),
    ensures
        r.1 <= 16,
        r.1 > 0,
        listed(r.0, r.1 as int) == subset_texels(rows(*px), part as int, s as int),
{
    let mut list: [[u8; 4]; 16] = [[0u8; 4]; 16];
    let mut n: usize = 0;
    let mut i: usize = 0;
    while i < 16
        invariant
            n <= i <= 16,
            forall|p: int| 0 <= p < 16 ==> #[trigger] sub@[p] == subset_of(part as int, p),
            n == members(part as int, s as int, i as nat).len(),
            forall|k: int| 0 <= k < n ==> (#[trigger] list@[k])@ == px@[members(part as int, s as int, i as nat)[k]]@,
            forall|k: int| 0 <= k < n ==> 0 <= #[trigger] members(part as int, s as int, i as nat)[k] < i,
        decreases 16 - i,
    {
        let ghost before = members(part as int, s as int, i as nat);
        let ghost prior = list@;
        if sub[i] == s {
            list[n] = px[i];
            n = n + 1;
            proof {
                let after = members(part as int, s as int, (i + 1) as nat);
                assert(after == before.push(i as int));
                assert forall|k: int| 0 <= k < n implies (#[trigger] list@[k])@ == px@[after[k]]@ by {
                    if k < n - 1 {
                        assert(list@[k] == prior[k]);
                    }
                }
            }
        } else {
            proof {
                assert(members(part as int, s as int, (i + 1) as nat) == before);
            }
        }
        i = i + 1;
    }
    proof {
        let m = members(part as int, s as int, 16);
        assert(listed(list, n as int) =~= subset_texels(rows(*px), part as int, s as int)) by {
            assert forall|k: int| 0 <= k < n implies listed(list, n as int)[k] == subset_texels(
                rows(*px),
                part as int,
                s as int,
            )[k] by {
                assert(list@[k]@ == px@[m[k]]@);
            }
        }
        law_partitions_use_both_subsets(part as int);
        if s == 0 {
            lemma_member_rank(part as int, 0);
        } else {
            lemma_member_rank(part as int, fixup_of(part as int));
        }
    }
    (list, n)
}

fn extrema_listed(list: &[[u8; 4]; 16], n: usize) -> (r: ([u8; 3], [u8; 3]))
    requires
        0 < n <= 16,
    ensures
        r.0@ == brightest(listed(*list, n as int)),
        r.1@ == darkest(listed(*list, n as int)),
{
    let ghost ls = luminances(listed(*list, n as int));
    let ghost ns = negated(ls);
    let mut lo: usize = 0;
    let mut hi: usize = 0;
    let mut min_l: i32 = list[0][0] as i32 * 2 + list[0][1] as i32 * 3 + list[0][2] as i32;
    let mut max_l: i32 = min_l;
    let mut i: usize = 1;
    while i < n
        invariant
            1 <= i <= n <= 16,
            lo < i,
            hi < i,
            ls == luminances(listed(*list, n as int)),
            ns == negated(ls),
            lo == first_min(ls, i as nat),
            hi == first_min(ns, i as nat),
            min_l == ls[lo as int],
            max_l == ls[hi as int],
        decreases n - i,
    {
        let l: i32 = list[i][0] as i32 * 2 + list[i][1] as i32 * 3 + list[i][2] as i32;
        proof {
            assert(ls[i as int] == l);
        }
        if l < min_l {
            min_l = l;
            lo = i;
        }
        if l > max_l {
            max_l = l;
            hi = i;
        }
        i = i + 1;
    }
    let a: [u8; 3] = [list[hi][0], list[hi][1], list[hi][2]];
    let b: [u8; 3] = [list[lo][0], list[lo][1], list[lo][2]];
    proof {
        assert(a@ =~= brightest(listed(*list, n as int)));
        assert(b@ =~= darkest(listed(*list, n as int)));
    }
    (a, b)
}

/// The index of each pixel, from the two subsets' fits, before the anchors are
/// put in order.
pub open spec fn raw_indices(part: int, f0: SubsetFit, f1: SubsetFit) -> Seq<u8> {
    Seq::new(
        16,
        |i: int|
            if subset_of(part, i) == 0 {
                f0.3[members(part, 0, i as nat).len() as int]
            } else {
                f1.3[members(part, 1, i as nat).len() as int]
            },
    )
}

/// Whether a subset's endpoints change places: its anchor's high bit is not
/// stored.
pub open spec fn flips(part: int, raw: Seq<u8>, s: int) -> bool {
    if s == 0 {
        raw[0] >= 4
    } else {
        raw[fixup_of(part)] >= 4
    }
}

/// The stored index of each pixel.
pub open spec fn stored_indices(part: int, raw: Seq<u8>) -> Seq<u8> {
    Seq::new(
        16,
        |i: int|
            if flips(part, raw, subset_of(part, i)) {
                (7 - raw[i]) as u8
            } else {
                raw[i]
            },
    )
}

/// A subset's first endpoint as stored.
pub open spec fn stored_first(f: SubsetFit, flip: bool) -> Seq<u8> {
    if flip {
        f.1
    } else {
        f.0
    }
}

/// A subset's second endpoint as stored.
pub open spec fn stored_second(f: SubsetFit, flip: bool) -> Seq<u8> {
    if flip {
        f.0
    } else {
        f.1
    }
}

/// The index fields of a two-subset block: the anchors are one bit narrower.
pub open spec fn anchored_fields(idx: Seq<u8>, fixup: int, n: nat) -> Seq<(int, nat)> {
    Seq::new(
        16,
        |i: int|
            (
                idx[i] as int,
                if i == 0 || i == fixup {
                    (n - 1) as nat
                } else {
                    n
                },
            ),
    )
}

/// The bit fields of a mode 1 block.
pub open spec fn mode1_fields(
    part: int,
    a0: Seq<u8>,
    a1: Seq<u8>,
    b0: Seq<u8>,
    b1: Seq<u8>,
    p0: int,
    p1: int,
    idx: Seq<u8>,
) -> Seq<(int, nat)> {
    seq![
        (2int, 2nat),
        (part, 6),
        (a0[0] as int, 6),
        (a1[0] as int, 6),
        (b0[0] as int, 6),
        (b1[0] as int, 6),
        (a0[1] as int, 6),
        (a1[1] as int, 6),
        (b0[1] as int, 6),
        (b1[1] as int, 6),
        (a0[2] as int, 6),
        (a1[2] as int, 6),
        (b0[2] as int, 6),
        (b1[2] as int, 6),
        (p0, 1),
        (p1, 1),
    ] + anchored_fields(idx, fixup_of(part), 3)
}

/// The block of a partition and its two subsets' fits.
#[verifier::opaque]
pub open spec fn mode1_bytes(part: int, f0: SubsetFit, f1: SubsetFit) -> Seq<u8> {
    let raw = raw_indices(part, f0, f1);
    let x = flips(part, raw, 0);
    let y = flips(part, raw, 1);
    le_bytes(
        bit_string(
            mode1_fields(
                part,
                stored_first(f0, x),
                stored_second(f0, x),
                stored_first(f1, y),
                stored_second(f1, y),
                f0.2,
                f1.2,
                stored_indices(part, raw),
            ),
            0,
        ),
        16,
    )
}

/// A budget held to the range that one subset's error can use.
pub open spec fn budget_of(limit: int) -> int {
    if limit < 0 {
        0
    } else if limit > i32::MAX {
        i32::MAX as int
    } else {
        limit
    }
}

/// The mode 1 block of a partition, and its error; none where the fit does not
/// stay under the limit.
pub open spec fn partition_fit(px: Seq<Seq<u8>>, part: int, limit: int) -> Option<Scored> {
    let l0 = subset_texels(px, part, 0);
    let l1 = subset_texels(px, part, 1);
    match subset_fit(l0, brightest(l0), darkest(l0), budget_of(limit)) {
        None => None,
        Some(f0) => {
            if f0.4 >= limit {
                None
            } else {
                match subset_fit(l1, brightest(l1), darkest(l1), budget_of(limit - f0.4)) {
                    None => None,
                    Some(f1) => {
                        if f0.4 + f1.4 >= limit {
                            None
                        } else {
                            Some((mode1_bytes(part, f0, f1), f0.4 + f1.4))
                        }
                    },
                }
            }
        },
    }
}

fn merge_indices(sub: &[u8; 16], part: usize, n0: usize, n1: usize, i0: &[u8; 16], i1: &[u8; 16]) -> (raw: [u8; 16])
    requires
        part < 64,
        forall|p: int| 0 <= p < 16 ==> #[trigger] sub@[p] == subset_of(part as int, p),
        forall|p: int| 0 <= p < 16 ==> #[trigger] sub@[p] < 2,
        n0 == members(part as int, 0, 16).len(),
        n1 == members(part as int, 1, 16).len(),
        n0 <= 16,
        n1 <= 16,
        forall|k: int| 0 <= k < n0 ==> #[trigger] i0@[k] < 8,
        forall|k: int| 0 <= k < n1 ==> #[trigger] i1@[k] < 8,
    ensures
        forall|i: int|
            0 <= i < 16 ==> #[trigger] raw@[i] == (if subset_of(part as int, i) == 0 {
                i0@.take(n0 as int)[members(part as int, 0, i as nat).len() as int]
            } else {
                i1@.take(n1 as int)[members(part as int, 1, i as nat).len() as int]
            }),
        forall|i: int| 0 <= i < 16 ==> #[trigger] raw@[i] < 8,
{
    let mut raw: [u8; 16] = [0u8; 16];
    let mut c0: usize = 0;
    let mut c1: usize = 0;
    let mut i: usize = 0;
    while i < 16
        invariant
            i <= 16,
            part < 64,
            forall|p: int| 0 <= p < 16 ==> #[trigger] sub@[p] == subset_of(part as int, p),
            forall|p: int| 0 <= p < 16 ==> #[trigger] sub@[p] < 2,
            n0 == members(part as int, 0, 16).len(),
            n1 == members(part as int, 1, 16).len(),
            n0 <= 16,
            n1 <= 16,
            forall|k: int| 0 <= k < n0 ==> #[trigger] i0@[k] < 8,
            forall|k: int| 0 <= k < n1 ==> #[trigger] i1@[k] < 8,
            c0 == members(part as int, 0, i as nat).len(),
            c1 == members(part as int, 1, i as nat).len(),
            forall|k: int|
                0 <= k < i ==> #[trigger] raw@[k] == (if subset_of(part as int, k) == 0 {
                    i0@.take(n0 as int)[members(part as int, 0, k as nat).len() as int]
                } else {
                    i1@.take(n1 as int)[members(part as int, 1, k as nat).len() as int]
                }),
            forall|k: int| 0 <= k < i ==> #[trigger] raw@[k] < 8,
        decreases 16 - i,
    {
        proof {
            lemma_member_rank(part as int, i as int);
        }
        if sub[i] == 0 {
            raw[i] = i0[c0];
            c0 = c0 + 1;
        } else {
            raw[i] = i1[c1];
            c1 = c1 + 1;
        }
        i = i + 1;
    }
    raw
}

/// The sixteen bytes of a mode 1 block.
fn pack(
    part: usize,
    a0: [u8; 3],
    a1: [u8; 3],
    b0: [u8; 3],
    b1: [u8; 3],
    p0: u8,
    p1: u8,
    idx: &[u8; 16],
) -> (b: [u8; 16])
    requires
        part < 64,
    ensures
        b@ == le_bytes(bit_string(mode1_fields(part as int, a0@, a1@, b0@, b1@, p0 as int, p1 as int, idx@), 0), 16),
{
    let fixup: usize = BC7_P2_FIXUP[part] as usize;
    proof {
        law_partitions_use_both_subsets(part as int);
    }
    let mut bw: BitWriter = BitWriter::new();
    bw.write_bits(2, 2);
    bw.write_bits(part as u32, 6);
    bw.write_bits(a0[0] as u32, 6);
    bw.write_bits(a1[0] as u32, 6);
    bw.write_bits(b0[0] as u32, 6);
    bw.write_bits(b1[0] as u32, 6);
    bw.write_bits(a0[1] as u32, 6);
    bw.write_bits(a1[1] as u32, 6);
    bw.write_bits(b0[1] as u32, 6);
    bw.write_bits(b1[1] as u32, 6);
    bw.write_bits(a0[2] as u32, 6);
    bw.write_bits(a1[2] as u32, 6);
    bw.write_bits(b0[2] as u32, 6);
    bw.write_bits(b1[2] as u32, 6);
    bw.write_bits(p0 as u32, 1);
    bw.write_bits(p1 as u32, 1);
    let ghost head = bw@;
    let ghost tail = anchored_fields(idx@, fixup_of(part as int), 3);
    proof {
        assert(head + tail.take(0) =~= head);
    }
    let mut i: usize = 0;
    while i < 16
        invariant
            i <= 16,
            1 <= fixup < 16,
            fixup == fixup_of(part as int),
            tail == anchored_fields(idx@, fixup_of(part as int), 3),
            bw.wf(),
            bw@ == head + tail.take(i as int),
            bw.used() == 82 + 3 * i - (if i > 0 { 1int } else { 0 }) - (if i > fixup { 1int } else { 0 }),
        decreases 16 - i,
    {
        let n: u32 = if i == 0 || i == fixup {
            2
        } else {
            3
        };
        bw.write_bits(idx[i] as u32, n);
        proof {
            assert(bw@ =~= head + tail.take(i + 1));
        }
        i = i + 1;
    }
    proof {
        assert(tail.take(16) =~= tail);
        assert(bw@ =~= mode1_fields(part as int, a0@, a1@, b0@, b1@, p0 as int, p1 as int, idx@));
    }
    bw.into_array()
}

/// The mode 1 block of a partition, and its error; none where the fit does not
/// stay under the limit.
pub fn fit_partition(px: &[[u8; 4]; 16], part: usize, err_limit: i64) -> (r: Option<([u8; 16], i64)>)
    requires
        part < 64,
    ensures
        r matches Some((b, e)) ==> partition_fit(rows(*px), part as int, err_limit as int) == Some((b@, e as int)) && 0
            <= e < err_limit,
        r is None ==> partition_fit(rows(*px), part as int, err_limit as int) is None,
{
    let sub: [u8; 16] = subsets_of(part);
    let (list0, n0) = gather_subset(px, &sub, part, 0);
    let (list1, n1) = gather_subset(px, &sub, part, 1);
    let (h0, l0) = extrema_listed(&list0, n0);
    let (h1, l1) = extrema_listed(&list1, n1);
    let budget: i32 = if err_limit < 0 {
        0
    } else if err_limit > i32::MAX as i64 {
        i32::MAX
    } else {
        err_limit as i32
    };
    match fit_subset(&list0, n0, h0, l0, budget) {
        None => None,
        Some(f0) => {
            if f0.err as i64 >= err_limit {
                return None;
            }
            let left: i64 = err_limit - f0.err as i64;
            let budget: i32 = if left > i32::MAX as i64 {
                i32::MAX
            } else {
                left as i32
            };
            match fit_subset(&list1, n1, h1, l1, budget) {
                None => None,
                Some(f1) => {
                    let err: i64 = f0.err as i64 + f1.err as i64;
                    if err >= err_limit {
                        return None;
                    }
                    Some((pack_partition(&sub, part, n0, n1, &f0, &f1), err))
                },
            }
        },
    }
}

fn pack_partition(sub: &[u8; 16], part: usize, n0: usize, n1: usize, f0: &SubsetHalf, f1: &SubsetHalf) -> (b: [u8; 16])
    requires
        part < 64,
        forall|p: int| 0 <= p < 16 ==> #[trigger] sub@[p] == subset_of(part as int, p),
        forall|p: int| 0 <= p < 16 ==> #[trigger] sub@[p] < 2,
        n0 == members(part as int, 0, 16).len(),
        n1 == members(part as int, 1, 16).len(),
        n0 <= 16,
        n1 <= 16,
        f0.wf(n0 as int),
        f1.wf(n1 as int),
    ensures
        b@ == mode1_bytes(part as int, f0.fit(n0 as int), f1.fit(n1 as int)),
{
    proof {
        reveal(mode1_bytes);
        law_partitions_use_both_subsets(part as int);
    }
    let raw: [u8; 16] = merge_indices(sub, part, n0, n1, &f0.idx, &f1.idx);
    let ghost want = raw_indices(part as int, f0.fit(n0 as int), f1.fit(n1 as int));
    proof {
        assert(raw@ =~= want);
    }
    let fixup: usize = BC7_P2_FIXUP[part] as usize;
    let x: bool = raw[0] >= 4;
    let y: bool = raw[fixup] >= 4;
    let mut idx: [u8; 16] = [0u8; 16];
    let mut i: usize = 0;
    while i < 16
        invariant
            i <= 16,
            forall|p: int| 0 <= p < 16 ==> #[trigger] sub@[p] == subset_of(part as int, p),
            forall|p: int| 0 <= p < 16 ==> #[trigger] sub@[p] < 2,
            forall|k: int| 0 <= k < 16 ==> #[trigger] raw@[k] < 8,
            x == flips(part as int, raw@, 0),
            y == flips(part as int, raw@, 1),
            forall|k: int| 0 <= k < i ==> #[trigger] idx@[k] == stored_indices(part as int, raw@)[k],
        decreases 16 - i,
    {
        proof {
            assert(sub@[i as int] == subset_of(part as int, i as int));
        }
        idx[i] = if (sub[i] == 0 && x) || (sub[i] != 0 && y) {
            7 - raw[i]
        } else {
            raw[i]
        };
        i = i + 1;
    }
    proof {
        assert(idx@ =~= stored_indices(part as int, raw@));
    }
    let (a0, a1): ([u8; 3], [u8; 3]) = if x {
        (f0.q1, f0.q0)
    } else {
        (f0.q0, f0.q1)
    };
    let (b0, b1): ([u8; 3], [u8; 3]) = if y {
        (f1.q1, f1.q0)
    } else {
        (f1.q0, f1.q1)
    };
    pack(part, a0, a1, b0, b1, f0.p, f1.p, &idx)
}

/// The shapes that are tried, most fruitful first.
pub open spec fn shortlist() -> Seq<int> {
    seq![2, 10, 13, 16, 0, 23, 15, 14]
}

/// The shapes that are tried, most fruitful first.
pub const SHORTLIST: [u8; 8] = [2, 10, 13, 16, 0, 23, 15, 14];

/// Each texel's sum of squared colour channels.
pub open spec fn square_sums(px: Seq<Seq<u8>>) -> Seq<int> {
    Seq::new(px.len(), |i: int| sq(px[i][0] as int) + sq(px[i][1] as int) + sq(px[i][2] as int))
}

/// What a subset's mean colour accounts for of the squared channels.
pub open spec fn mean_term(list: Seq<Seq<u8>>) -> int {
    sq(channel_total(list, 0, list.len())) / (list.len() as int) + sq(channel_total(list, 1, list.len())) / (
    list.len() as int) + sq(channel_total(list, 2, list.len())) / (list.len() as int)
}

/// The error that a partition would leave with one colour for each subset.
pub open spec fn promised_error(px: Seq<Seq<u8>>, part: int) -> int {
    total(square_sums(px), 16) - (mean_term(subset_texels(px, part, 0)) + mean_term(subset_texels(px, part, 1)))
}

/// The block in hand, or the partition's mode 1 block where it promises to
/// halve the error and errs less.
pub open spec fn mode1_step(px: Seq<Seq<u8>>, st: Scored, part: int) -> Scored {
    if promised_error(px, part) * 2 >= st.1 {
        st
    } else {
        match partition_fit(px, part, st.1) {
            Some(c) => c,
            None => st,
        }
    }
}

/// The first `k` shapes of the shortlist.
pub open spec fn mode1_search(px: Seq<Seq<u8>>, st: Scored, k: nat) -> Scored
    decreases k,
{
    if k == 0 {
        st
    } else {
        mode1_step(px, mode1_search(px, st, (k - 1) as nat), shortlist()[k - 1])
    }
}

fn mean_term_of(list: &[[u8; 4]; 16], n: usize) -> (t: i64)
    requires
        0 < n <= 16,
    ensures
        t == mean_term(listed(*list, n as int)),
        0 <= t <= 3 * 16646400,
{
    let ghost l = listed(*list, n as int);
    let mut t: i64 = 0;
    let s0: i64 = channel_sum_of(list, n, 0);
    let s1: i64 = channel_sum_of(list, n, 1);
    let s2: i64 = channel_sum_of(list, n, 2);
    proof {
        reveal(sq);
        assert(0 <= s0 * s0 <= 16646400 && 0 <= s1 * s1 <= 16646400 && 0 <= s2 * s2 <= 16646400) by (nonlinear_arith)
            requires
                0 <= s0 <= 4080,
                0 <= s1 <= 4080,
                0 <= s2 <= 4080,
        ;
        assert(forall|x: int| 0 <= x <= 16646400 ==> 0 <= #[trigger] (x / (n as int)) <= 16646400) by (nonlinear_arith)
            requires
                0 < n <= 16,
        ;
        assert(0 <= (s0 * s0) / (n as int) <= 16646400);
        assert(0 <= (s1 * s1) / (n as int) <= 16646400);
        assert(0 <= (s2 * s2) / (n as int) <= 16646400);
    }
    t = t + s0 * s0 / (n as i64);
    t = t + s1 * s1 / (n as i64);
    t = t + s2 * s2 / (n as i64);
    t
}

fn channel_sum_of(list: &[[u8; 4]; 16], n: usize, c: usize) -> (t: i64)
    requires
        n <= 16,
        c < 4,
    ensures
        t == channel_total(listed(*list, n as int), c as int, n as nat),
        0 <= t <= 4080,
{
    let mut t: i64 = 0;
    let mut i: usize = 0;
    while i < n
        invariant
            i <= n <= 16,
            c < 4,
            t == channel_total(listed(*list, n as int), c as int, i as nat),
            0 <= t <= 255 * i,
        decreases n - i,
    {
        proof {
            assert(listed(*list, n as int)[i as int][c as int] == list@[i as int]@[c as int]);
        }
        t = t + list[i][c] as i64;
        i = i + 1;
    }
    t
}

fn square_sum_of(px: &[[u8; 4]; 16]) -> (t: i64)
    ensures
        t == total(square_sums(rows(*px)), 16),
        0 <= t <= 3121200,
{
    let ghost want = square_sums(rows(*px));
    let mut t: i64 = 0;
    let mut i: usize = 0;
    while i < 16
        invariant
            i <= 16,
            want == square_sums(rows(*px)),
            t == total(want, i as nat),
            0 <= t <= 195075 * i,
        decreases 16 - i,
    {
        let d: i32 = sq_diff(px[i][0], 0) + sq_diff(px[i][1], 0) + sq_diff(px[i][2], 0);
        proof {
            assert(want[i as int] == d);
        }
        t = t + d as i64;
        i = i + 1;
    }
    t
}

/// Tries the shortlisted mode 1 shapes on an opaque block: the better of the
/// block in hand and theirs.
pub fn try_bc7_mode1(px: &[[u8; 4]; 16], start: [u8; 16], start_err: i64) -> (r: ([u8; 16], i64))
    requires
        0 <= start_err <= 100000000,
    ensures
        (r.0@, r.1 as int) == mode1_search(rows(*px), (start@, start_err as int), 8),
        0 <= r.1 <= start_err,
{
    let squares: i64 = square_sum_of(px);
    let mut best: [u8; 16] = start;
    let mut best_err: i64 = start_err;
    proof {
        assert(SHORTLIST@ =~= seq![2u8, 10u8, 13u8, 16u8, 0u8, 23u8, 15u8, 14u8]);
    }
    let mut k: usize = 0;
    while k < 8
        invariant
            k <= 8,
            SHORTLIST@ == seq![2u8, 10u8, 13u8, 16u8, 0u8, 23u8, 15u8, 14u8],
            squares == total(square_sums(rows(*px)), 16),
            0 <= squares <= 3121200,
            0 <= best_err <= start_err <= 100000000,
            (best@, best_err as int) == mode1_search(rows(*px), (start@, start_err as int), k as nat),
        decreases 8 - k,
    {
        let part: usize = SHORTLIST[k] as usize;
        let sub: [u8; 16] = subsets_of(part);
        let (list0, n0) = gather_subset(px, &sub, part, 0);
        let (list1, n1) = gather_subset(px, &sub, part, 1);
        let est: i64 = squares - (mean_term_of(&list0, n0) + mean_term_of(&list1, n1));
        if est * 2 < best_err {
            if let Some((b, e)) = fit_partition(px, part, best_err) {
                best = b;
                best_err = e;
            }
        }
        k = k + 1;
    }
    (best, best_err)
}

} // verus!
