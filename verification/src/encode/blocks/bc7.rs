//! BC7 modes 6, 5 and 4.
//!
//! Mode 6 is the baseline: one subset, colour and alpha coupled through one
//! index set. Modes 5 and 4 decouple the colour and alpha indices, for content
//! whose alpha gradient disagrees with its colour gradient. A mode replaces the
//! block in hand only where its squared error is strictly smaller.

use vstd::prelude::*;

use crate::binary32::{clamped, div32, from_int32, of_int, quotient};
use crate::encode::blocks::alpha::{alpha_select_scalar, channel_of, column, lemma_sample_fit, sample_costs};
use crate::encode::blocks::bc1::{axis_extremes, better, channel_highs, channel_low, channel_high, channel_lows, channel_minmax, channel_minmax_rgb, fit_rgb4, lemma_rgb_fit, pca_extremes_rgb, Scored};
use crate::encode::blocks::m1::{mode1_search, try_bc7_mode1};
use crate::encode::blocks::lsq::{ls_endpoints, solve_endpoints, solve_endpoints_rgb};
use crate::encode::blocks::{is_block, rgb_costs, stretch5, stretch6, BitWriter};
use crate::model::{best_of, bit_string, first_min, splice, store, fit_costs, fit_error, fit_indices, le_bytes, lemma_first_min, lemma_first_min_in, lemma_first_min_unique, lemma_sq, lemma_total_bound, rows, sq, sq_diff, total};

verus! {

/// Each texel's luminance, weighted 2:3:1.
pub open spec fn luminances(px: Seq<Seq<u8>>) -> Seq<int> {
    Seq::new(px.len(), |i: int| px[i][0] * 2 + px[i][1] * 3 + px[i][2])
}

/// The numbers with their signs changed.
pub open spec fn negated(s: Seq<int>) -> Seq<int> {
    Seq::new(s.len(), |i: int| -s[i])
}

/// Red, green and blue of a texel.
pub open spec fn rgb_of(p: Seq<u8>) -> Seq<u8> {
    seq![p[0], p[1], p[2]]
}

/// The colour of the first texel of least luminance.
pub open spec fn darkest(px: Seq<Seq<u8>>) -> Seq<u8> {
    rgb_of(px[first_min(luminances(px), px.len())])
}

/// The colour of the first texel of greatest luminance.
pub open spec fn brightest(px: Seq<Seq<u8>>) -> Seq<u8> {
    rgb_of(px[first_min(negated(luminances(px)), px.len())])
}

/// The brightest and the darkest colour of a block.
pub fn extrema_opaque(px: &[[u8; 4]; 16]) -> (r: ([u8; 3], [u8; 3]))
    ensures
        r.0@ == brightest(rows(*px)),
        r.1@ == darkest(rows(*px)),
{
    let ghost ls = luminances(rows(*px));
    let ghost ns = negated(ls);
    let mut lo: usize = 0;
    let mut hi: usize = 0;
    let mut min_l: i32 = px[0][0] as i32 * 2 + px[0][1] as i32 * 3 + px[0][2] as i32;
    let mut max_l: i32 = min_l;
    let mut i: usize = 1;
    while i < 16
        invariant
            1 <= i <= 16,
            lo < i,
            hi < i,
            ls == luminances(rows(*px)),
            ns == negated(ls),
            lo == first_min(ls, i as nat),
            hi == first_min(ns, i as nat),
            min_l == ls[lo as int],
            max_l == ls[hi as int],
        decreases 16 - i,
    {
        let l: i32 = px[i][0] as i32 * 2 + px[i][1] as i32 * 3 + px[i][2] as i32;
        proof {
            assert(ls[i as int] == l);
        }
        if l < min_l {
            min_l = l;
            lo = i;
        }
        if l > max_l {
            max_l = l;
            hi = i;
        }
        i = i + 1;
    }
    let a: [u8; 3] = [px[hi][0], px[hi][1], px[hi][2]];
    let b: [u8; 3] = [px[lo][0], px[lo][1], px[lo][2]];
    proof {
        assert(a@ =~= brightest(rows(*px)));
        assert(b@ =~= darkest(rows(*px)));
    }
    (a, b)
}

/// The interpolation weights of 2-bit indices, in 64ths.
pub open spec fn weights2() -> Seq<int> {
    seq![0, 21, 43, 64]
}

/// The interpolation weights of 3-bit indices, in 64ths.
pub open spec fn weights3() -> Seq<int> {
    seq![0, 9, 18, 27, 37, 46, 55, 64]
}

/// The interpolation weights of 4-bit indices, in 64ths.
pub open spec fn weights4() -> Seq<int> {
    seq![0, 4, 9, 13, 17, 21, 26, 30, 34, 38, 43, 47, 51, 55, 60, 64]
}

/// The interpolation weights of 2-bit indices.
pub const W2: [u32; 4] = [0, 21, 43, 64];

/// The interpolation weights of 3-bit indices.
pub const W3: [u32; 8] = [0, 9, 18, 27, 37, 46, 55, 64];

/// The interpolation weights of 4-bit indices.
pub const W6M: [u32; 16] = [0, 4, 9, 13, 17, 21, 26, 30, 34, 38, 43, 47, 51, 55, 60, 64];

/// The weight of a 2-bit index.
pub fn weight2(k: usize) -> (w: u32)
    requires
        k < 4,
    ensures
        w == weights2()[k as int],
        w <= 64,
{
    proof {
        assert(W2@ =~= seq![0u32, 21, 43, 64]);
    }
    W2[k]
}

/// The weight of a 3-bit index.
pub fn weight3(k: usize) -> (w: u32)
    requires
        k < 8,
    ensures
        w == weights3()[k as int],
        w <= 64,
{
    proof {
        assert(W3@ =~= seq![0u32, 9, 18, 27, 37, 46, 55, 64]);
    }
    W3[k]
}

/// The weight of a 4-bit index.
pub fn weight4(k: usize) -> (w: u32)
    requires
        k < 16,
    ensures
        w == weights4()[k as int],
        w <= 64,
{
    proof {
        assert(W6M@ =~= seq![0u32, 4, 9, 13, 17, 21, 26, 30, 34, 38, 43, 47, 51, 55, 60, 64]);
    }
    W6M[k]
}

/// A byte `w / 64` of the way from `a` to `b`, rounded to nearest.
pub open spec fn interp64(w: int, a: int, b: int) -> int {
    ((64 - w) * a + w * b + 32) / 64
}

/// Interpolation is a base plus a weighted difference, and the sum that is
/// rounded fits a signed sixteen-bit number.
pub proof fn law_interpolation_fits_sixteen_bits(w: int, a: int, b: int)
    requires
        0 <= w <= 64,
        0 <= a <= 255,
        0 <= b <= 255,
    ensures
        interp64(w, a, b) == (64 * a + 32 + w * (b - a)) / 64,
        32 <= 64 * a + 32 + w * (b - a) <= 16352,
        -16320 <= w * (b - a) <= 16320,
{
    assert((64 - w) * a + w * b == 64 * a + w * (b - a)) by (nonlinear_arith);
    assert(0 <= (64 - w) * a + w * b <= 16320 && -16320 <= w * (b - a) <= 16320) by (nonlinear_arith)
        requires
            0 <= w <= 64,
            0 <= a <= 255,
            0 <= b <= 255,
    ;
}

/// A byte `w / 64` of the way from `a` to `b`, rounded to nearest.
pub fn interpolate(w: u32, a: u8, b: u8) -> (v: u8)
    requires
        w <= 64,
    ensures
        v == interp64(w as int, a as int, b as int),
{
    proof {
        lemma_interp64(w as int, a as int, b as int);
        assert((64 - w) * a <= 64 * 255 && w * b <= 64 * 255 && (64 - w) * a >= 0 && w * b >= 0) by (nonlinear_arith)
            requires
                0 <= w <= 64,
                0 <= a <= 255,
                0 <= b <= 255,
        ;
    }
    (((64 - w) * (a as u32) + w * (b as u32) + 32) / 64) as u8
}

pub proof fn lemma_interp64(w: int, a: int, b: int)
    requires
        0 <= w <= 64,
        0 <= a <= 255,
        0 <= b <= 255,
    ensures
        0 <= interp64(w, a, b) <= 255,
        interp64(64 - w, b, a) == interp64(w, a, b),
{
    assert(0 <= (64 - w) * a + w * b <= 64 * 255) by (nonlinear_arith)
        requires
            0 <= w <= 64,
            0 <= a <= 255,
            0 <= b <= 255,
    ;
    assert((64 - (64 - w)) * b + (64 - w) * a == (64 - w) * a + w * b) by (nonlinear_arith);
}

/// The colours between two endpoints, one for each weight.
pub open spec fn interp_rows(c0: Seq<u8>, c1: Seq<u8>, ws: Seq<int>) -> Seq<Seq<u8>> {
    Seq::new(ws.len(), |k: int| Seq::new(c0.len(), |c: int| interp64(ws[k], c0[c] as int, c1[c] as int) as u8))
}

/// The bytes between two endpoints, one for each weight.
pub open spec fn interp_bytes(a: u8, b: u8, ws: Seq<int>) -> Seq<u8> {
    Seq::new(ws.len(), |k: int| interp64(ws[k], a as int, b as int) as u8)
}

/// The indices counted from the other end.
pub open spec fn inverted(idx: Seq<u8>, top: int) -> Seq<u8> {
    Seq::new(idx.len(), |i: int| (top - idx[i]) as u8)
}

/// Counts the indices from the other end.
pub fn invert_indices(idx: [u8; 16], top: u8) -> (r: [u8; 16])
    requires
        forall|i: int| 0 <= i < 16 ==> #[trigger] idx@[i] <= top,
    ensures
        r@ == inverted(idx@, top as int),
{
    let mut r: [u8; 16] = [0u8; 16];
    let mut i: usize = 0;
    while i < 16
        invariant
            i <= 16,
            forall|i: int| 0 <= i < 16 ==> #[trigger] idx@[i] <= top,
            forall|k: int| 0 <= k < i ==> #[trigger] r@[k] == (top - idx@[k]) as u8,
        decreases 16 - i,
    {
        r[i] = top - idx[i];
        i = i + 1;
    }
    proof {
        assert(r@ =~= inverted(idx@, top as int));
    }
    r
}

/// A 7-bit level stretched to a byte by repeating its high bit.
pub open spec fn stretch7(v: int) -> int {
    v * 2 + v / 64
}

/// A 7-bit level stretched to a byte by repeating its high bit.
pub fn unquant7(v: u8) -> (r: u8)
    requires
        v < 128,
    ensures
        r == stretch7(v as int),
{
    v * 2 + v / 64
}

/// A 6-bit level stretched to a byte by repeating its high bits.
pub fn unquant6(v: u8) -> (r: u8)
    requires
        v < 64,
    ensures
        r == stretch6(v as int),
{
    v * 4 + v / 16
}

/// A 5-bit level stretched to a byte by repeating its high bits.
pub fn unquant5(v: u8) -> (r: u8)
    requires
        v < 32,
    ensures
        r == stretch5(v as int),
{
    v * 8 + v / 4
}

/// Colour precision of modes 4 and 5: the divisor that drops the low bits.
pub open spec fn color_step(seven: bool) -> int {
    if seven {
        2
    } else {
        8
    }
}

/// A colour quantised to 7 or 5 bits a channel.
pub open spec fn color_levels(e: Seq<u8>, seven: bool) -> Seq<u8> {
    Seq::new(3, |c: int| (e[c] as int / color_step(seven)) as u8)
}

/// The bytes that colour levels stand for.
pub open spec fn color_bytes(q: Seq<u8>, seven: bool) -> Seq<u8> {
    Seq::new(
        3,
        |c: int|
            if seven {
                stretch7(q[c] as int) as u8
            } else {
                stretch5(q[c] as int) as u8
            },
    )
}

/// Two colour endpoints, the indices between them, and the squared error.
pub type ColorFit = (Seq<u8>, Seq<u8>, Seq<u8>, int);

/// The first fit, unless the second errs strictly less.
pub open spec fn better_fit(a: ColorFit, b: ColorFit) -> ColorFit {
    if b.3 < a.3 {
        b
    } else {
        a
    }
}

/// The colour half of modes 4 and 5 for one endpoint pair. The first index's
/// high bit is not stored: where it would be set, the endpoints change places
/// and the indices count from the other end.
pub open spec fn color_fit(px: Seq<Seq<u8>>, e0: Seq<u8>, e1: Seq<u8>, seven: bool) -> ColorFit {
    let q0 = color_levels(e0, seven);
    let q1 = color_levels(e1, seven);
    let costs = rgb_costs(px, interp_rows(color_bytes(q0, seven), color_bytes(q1, seven), weights2()));
    let idx = fit_indices(costs);
    if idx[0] >= 2 {
        (q1, q0, inverted(idx, 3), fit_error(costs))
    } else {
        (q0, q1, idx, fit_error(costs))
    }
}

/// Colour levels and indices of a mode 4 or 5 block.
#[derive(Clone, Copy)]
pub struct ColorHalf {
    pub q0: [u8; 3],
    pub q1: [u8; 3],
    pub idx: [u8; 16],
    pub err: i32,
}

impl ColorHalf {
    /// The fit that the half holds.
    pub open spec fn view(&self) -> ColorFit {
        (self.q0@, self.q1@, self.idx@, self.err as int)
    }

    /// The half's indices are 2-bit indices and its error is in range.
    pub open spec fn wf(&self) -> bool {
        &&& forall|i: int| 0 <= i < 16 ==> #[trigger] self.idx@[i] < 4
        &&& 0 <= self.err <= 3121200
    }
}

fn quantize_color(e: [u8; 3], seven: bool) -> (q: [u8; 3])
    ensures
        q@ == color_levels(e@, seven),
        forall|c: int| 0 <= c < 3 ==> #[trigger] q@[c] < (if seven { 128int } else { 32int }),
{
    let q: [u8; 3] = if seven {
        [e[0] / 2, e[1] / 2, e[2] / 2]
    } else {
        [e[0] / 8, e[1] / 8, e[2] / 8]
    };
    proof {
        assert(q@ =~= color_levels(e@, seven));
    }
    q
}

fn expand_color(q: [u8; 3], seven: bool) -> (b: [u8; 3])
    requires
        forall|c: int| 0 <= c < 3 ==> #[trigger] q@[c] < (if seven { 128int } else { 32int }),
    ensures
        b@ == color_bytes(q@, seven),
{
    let b: [u8; 3] = if seven {
        [unquant7(q[0]), unquant7(q[1]), unquant7(q[2])]
    } else {
        [unquant5(q[0]), unquant5(q[1]), unquant5(q[2])]
    };
    proof {
        assert(b@ =~= color_bytes(q@, seven));
    }
    b
}

/// The four colours between two endpoints.
pub fn palette_rgb4(c0: [u8; 3], c1: [u8; 3]) -> (pal: [[u8; 3]; 4])
    ensures
        rows(pal) == interp_rows(c0@, c1@, weights2()),
{
    let mut pal: [[u8; 3]; 4] = [[0u8; 3]; 4];
    let mut k: usize = 0;
    while k < 4
        invariant
            k <= 4,
            forall|j: int| 0 <= j < k ==> (#[trigger] pal@[j])@ == interp_rows(c0@, c1@, weights2())[j],
        decreases 4 - k,
    {
        let w: u32 = weight2(k);
        pal[k] = [interpolate(w, c0[0], c1[0]), interpolate(w, c0[1], c1[1]), interpolate(w, c0[2], c1[2])];
        proof {
            assert(pal@[k as int]@ =~= interp_rows(c0@, c1@, weights2())[k as int]);
        }
        k = k + 1;
    }
    proof {
        assert(rows(pal) =~= interp_rows(c0@, c1@, weights2()));
    }
    pal
}

/// The colour half of modes 4 and 5 for one endpoint pair.
pub fn fit_color(px: &[[u8; 4]; 16], e0: [u8; 3], e1: [u8; 3], seven: bool) -> (f: ColorHalf)
    ensures
        f@ == color_fit(rows(*px), e0@, e1@, seven),
        f.wf(),
{
    let q0: [u8; 3] = quantize_color(e0, seven);
    let q1: [u8; 3] = quantize_color(e1, seven);
    let pal: [[u8; 3]; 4] = palette_rgb4(expand_color(q0, seven), expand_color(q1, seven));
    proof {
        lemma_rgb_fit(rows(*px), rows(pal));
    }
    match fit_rgb4(px, &pal, i32::MAX) {
        Some((idx, err)) => {
            if idx[0] >= 2 {
                ColorHalf { q0: q1, q1: q0, idx: invert_indices(idx, 3), err }
            } else {
                ColorHalf { q0, q1, idx, err }
            }
        },
        None => ColorHalf { q0, q1, idx: [0u8; 16], err: 0 },
    }
}

/// The weights of 2-bit indices, in single precision.
pub open spec fn float_weights2(idx: Seq<u8>) -> Seq<u32> {
    Seq::new(16, |i: int| quotient(of_int(weights2()[idx[i] as int]), of_int(64)))
}

/// The least-squares endpoints of sixteen 2-bit indices.
pub fn ls_endpoints_mode5(px: &[[u8; 4]; 16], idx: &[u8; 16]) -> (r: Option<([u8; 3], [u8; 3])>)
    requires
        forall|i: int| 0 <= i < 16 ==> #[trigger] idx@[i] < 4,
    ensures
        r matches Some((a, b)) ==> ls_endpoints(rows(*px), float_weights2(idx@), 3) == Some((a@, b@)),
        r is None ==> ls_endpoints(rows(*px), float_weights2(idx@), 3) is None,
{
    let scale: u32 = from_int32(64);
    let mut ws: [u32; 16] = [0u32; 16];
    let mut i: usize = 0;
    while i < 16
        invariant
            i <= 16,
            scale == of_int(64),
            forall|i: int| 0 <= i < 16 ==> #[trigger] idx@[i] < 4,
            forall|k: int| 0 <= k < i ==> #[trigger] ws@[k] == float_weights2(idx@)[k],
        decreases 16 - i,
    {
        ws[i] = div32(from_int32(weight2(idx[i] as usize) as i64), scale);
        i = i + 1;
    }
    proof {
        assert(ws@.take(16) =~= float_weights2(idx@));
    }
    solve_endpoints_rgb(px, &ws, 16)
}

/// The three colour endpoint seeds that modes 4 and 5 search.
#[derive(Clone, Copy)]
pub struct ColorSeeds {
    pub extrema: ([u8; 3], [u8; 3]),
    pub cminmax: ([u8; 3], [u8; 3]),
    pub pca: Option<([u8; 3], [u8; 3])>,
}

impl ColorSeeds {
    /// The seeds belong to the texels.
    pub open spec fn seeds(&self, px: Seq<Seq<u8>>) -> bool {
        &&& self.extrema.0@ == brightest(px)
        &&& self.extrema.1@ == darkest(px)
        &&& self.cminmax.0@ == channel_highs(px, 3)
        &&& self.cminmax.1@ == channel_lows(px, 3)
        &&& match self.pca {
            Some((a, b)) => axis_extremes(px) == Some((a@, b@)),
            None => axis_extremes(px) is None,
        }
    }

    /// The seeds of a block.
    pub fn new(px: &[[u8; 4]; 16]) -> (s: ColorSeeds)
        ensures
            s.seeds(rows(*px)),
    {
        ColorSeeds { extrema: extrema_opaque(px), cminmax: channel_minmax_rgb(px), pca: pca_extremes_rgb(px) }
    }
}

/// The colour half of modes 4 and 5: the three seeds, then one least-squares
/// refit of the winner.
#[verifier::opaque]
pub open spec fn color_search(px: Seq<Seq<u8>>, seven: bool) -> ColorFit {
    let f0 = color_fit(px, brightest(px), darkest(px), seven);
    let f1 = better_fit(f0, color_fit(px, channel_highs(px, 3), channel_lows(px, 3), seven));
    let f2 = match axis_extremes(px) {
        Some((a, b)) => better_fit(f1, color_fit(px, a, b, seven)),
        None => f1,
    };
    match ls_endpoints(px, float_weights2(f2.2), 3) {
        Some((a, b)) => better_fit(f2, color_fit(px, a, b, seven)),
        None => f2,
    }
}

fn search_color(px: &[[u8; 4]; 16], seeds: &ColorSeeds, seven: bool) -> (f: ColorHalf)
    requires
        seeds.seeds(rows(*px)),
    ensures
        f@ == color_search(rows(*px), seven),
        f.wf(),
{
    proof {
        reveal(color_search);
    }
    let mut best: ColorHalf = fit_color(px, seeds.extrema.0, seeds.extrema.1, seven);
    let cand: ColorHalf = fit_color(px, seeds.cminmax.0, seeds.cminmax.1, seven);
    if cand.err < best.err {
        best = cand;
    }
    if let Some((a, b)) = seeds.pca {
        let cand: ColorHalf = fit_color(px, a, b, seven);
        if cand.err < best.err {
            best = cand;
        }
    }
    if let Some((a, b)) = ls_endpoints_mode5(px, &best.idx) {
        let cand: ColorHalf = fit_color(px, a, b, seven);
        if cand.err < best.err {
            best = cand;
        }
    }
    best
}

/// Two alpha endpoints, the indices between them, and the squared error.
pub type AlphaFit = (u8, u8, Seq<u8>, int);

/// The alpha half for one endpoint pair: mode 5 has bytes and 2-bit indices,
/// mode 4 has 6-bit levels and 3-bit indices. The first index's high bit is
/// not stored.
pub open spec fn alpha_fit(s: Seq<u8>, q0: u8, q1: u8, five: bool) -> AlphaFit {
    let pal = if five {
        interp_bytes(q0, q1, weights2())
    } else {
        interp_bytes(stretch6(q0 as int) as u8, stretch6(q1 as int) as u8, weights3())
    };
    let costs = sample_costs(s, pal);
    let idx = fit_indices(costs);
    let half = if five {
        2int
    } else {
        4int
    };
    if idx[0] >= half {
        (q1, q0, inverted(idx, 2 * half - 1), fit_error(costs))
    } else {
        (q0, q1, idx, fit_error(costs))
    }
}

/// Alpha levels and indices of a mode 4 or 5 block.
#[derive(Clone, Copy)]
pub struct AlphaHalf {
    pub q0: u8,
    pub q1: u8,
    pub idx: [u8; 16],
    pub err: i32,
}

impl AlphaHalf {
    /// The fit that the half holds.
    pub open spec fn view(&self) -> AlphaFit {
        (self.q0, self.q1, self.idx@, self.err as int)
    }
}

/// The nearest of four bytes for each sample, and the whole error.
fn fit_indices_alpha4(samples: &[u8; 16], pal: &[u8; 4]) -> (r: ([u8; 16], i32))
    ensures
        r.0@ == fit_indices(sample_costs(samples@, pal@)),
        r.1 == fit_error(sample_costs(samples@, pal@)),
        0 <= r.1 <= 1040400,
        forall|i: int| 0 <= i < 16 ==> #[trigger] r.0@[i] < 4,
{
    // A later duplicate never wins, so eight entries choose as four do.
    let pal8: [u8; 8] = [pal[0], pal[1], pal[2], pal[3], pal[0], pal[0], pal[0], pal[0]];
    let r = alpha_select_scalar(&pal8, samples);
    proof {
        let c8 = sample_costs(samples@, pal8@);
        let c4 = sample_costs(samples@, pal@);
        assert forall|i: int| 0 <= i < 16 implies best_of(#[trigger] c8[i]) == best_of(c4[i]) && best_of(c4[i]) < 4
            && best_of(c4[i]) >= 0 by {
            let k = first_min(c4[i], 4);
            lemma_first_min(c4[i], 4);
            assert forall|j: int| 0 <= j < 8 implies c8[i][k] <= #[trigger] c8[i][j] by {
                if j < 4 {
                    assert(c8[i][j] == c4[i][j]);
                } else {
                    assert(c8[i][j] == c4[i][0]);
                }
                assert(c8[i][k] == c4[i][k]);
            }
            assert forall|j: int| 0 <= j < k implies c8[i][k] < #[trigger] c8[i][j] by {
                assert(c8[i][j] == c4[i][j]);
                assert(c8[i][k] == c4[i][k]);
            }
            lemma_first_min_unique(c8[i], 8, k);
        }
        assert(fit_indices(c8) =~= fit_indices(c4));
        assert forall|i: int| 0 <= i < 16 implies fit_costs(c8)[i] == fit_costs(c4)[i] by {
            assert(best_of(c8[i]) == best_of(c4[i]));
        }
        assert(fit_costs(c8) =~= fit_costs(c4));
        assert forall|i: int| 0 <= i < 16 implies #[trigger] r.0@[i] < 4 by {
            assert(best_of(c8[i]) == best_of(c4[i]));
        }
    }
    r
}

/// The alpha half for one endpoint pair.
pub fn score_alpha(samples: &[u8; 16], q0: u8, q1: u8, five: bool) -> (f: AlphaHalf)
    requires
        !five ==> q0 < 64 && q1 < 64,
    ensures
        f@ == alpha_fit(samples@, q0, q1, five),
        0 <= f.err <= 1040400,
        !five ==> f.q0 < 64 && f.q1 < 64,
        forall|i: int| 0 <= i < 16 ==> #[trigger] f.idx@[i] < (if five { 4int } else { 8int }),
{
    if five {
        let pal: [u8; 4] = [
            interpolate(weight2(0), q0, q1),
            interpolate(weight2(1), q0, q1),
            interpolate(weight2(2), q0, q1),
            interpolate(weight2(3), q0, q1),
        ];
        proof {
            assert(pal@ =~= interp_bytes(q0, q1, weights2()));
        }
        let (idx, err) = fit_indices_alpha4(samples, &pal);
        if idx[0] >= 2 {
            AlphaHalf { q0: q1, q1: q0, idx: invert_indices(idx, 3), err }
        } else {
            AlphaHalf { q0, q1, idx, err }
        }
    } else {
        let c0: u8 = unquant6(q0);
        let c1: u8 = unquant6(q1);
        let mut pal: [u8; 8] = [0u8; 8];
        let mut k: usize = 0;
        while k < 8
            invariant
                k <= 8,
                forall|j: int| 0 <= j < k ==> #[trigger] pal@[j] == interp_bytes(c0, c1, weights3())[j],
            decreases 8 - k,
        {
            pal[k] = interpolate(weight3(k), c0, c1);
            k = k + 1;
        }
        proof {
            assert(pal@ =~= interp_bytes(c0, c1, weights3()));
        }
        let (idx, err) = alpha_select_scalar(&pal, samples);
        if idx[0] >= 4 {
            AlphaHalf { q0: q1, q1: q0, idx: invert_indices(idx, 7), err }
        } else {
            AlphaHalf { q0, q1, idx, err }
        }
    }
}

/// The alpha fit at offset `(d0, d1)` from the centre, held to the range.
pub open spec fn alpha_offset_fit(s: Seq<u8>, c0: u8, c1: u8, d0: int, d1: int, five: bool) -> AlphaFit {
    let top = if five {
        255int
    } else {
        63int
    };
    alpha_fit(s, clamped(c0 + d0, 0, top) as u8, clamped(c1 + d1, 0, top) as u8, five)
}

/// The first alpha fit, unless the second errs strictly less.
pub open spec fn better_alpha(a: AlphaFit, b: AlphaFit) -> AlphaFit {
    if b.3 < a.3 {
        b
    } else {
        a
    }
}

/// The best of the fit in hand and the first `k` of the twenty-five offsets
/// around the centre, row by row.
pub open spec fn alpha_window(s: Seq<u8>, st: AlphaFit, c0: u8, c1: u8, k: nat, five: bool) -> AlphaFit
    decreases k,
{
    if k == 0 {
        st
    } else {
        let before = alpha_window(s, st, c0, c1, (k - 1) as nat, five);
        if k - 1 == 12 {
            before
        } else {
            better_alpha(before, alpha_offset_fit(s, c0, c1, (k - 1) / 5 - 2, (k - 1) % 5 - 2, five))
        }
    }
}

/// The alpha half of modes 4 and 5: the extremes as endpoints, then where they
/// leave an error the endpoints within two levels of them.
pub open spec fn alpha_search(s: Seq<u8>, hi: u8, lo: u8, five: bool) -> AlphaFit {
    let c0 = if five {
        hi
    } else {
        hi / 4
    };
    let c1 = if five {
        lo
    } else {
        lo / 4
    };
    let first = alpha_fit(s, c0, c1, five);
    if first.3 > 0 && (five ==> hi != lo) {
        alpha_window(s, first, c0, c1, 25, five)
    } else {
        first
    }
}

fn offset_level(c: u8, d: i32, top: i32) -> (r: u8)
    requires
        -2 <= d <= 2,
        c <= top <= 255,
    ensures
        r == clamped(c + d, 0, top as int),
        r <= top,
{
    let v: i32 = c as i32 + d;
    if v < 0 {
        0
    } else if v > top {
        top as u8
    } else {
        v as u8
    }
}

/// The alpha half of modes 4 and 5.
pub fn search_alpha(samples: &[u8; 16], hi: u8, lo: u8, five: bool) -> (f: AlphaHalf)
    ensures
        f@ == alpha_search(samples@, hi, lo, five),
        0 <= f.err <= 1040400,
        !five ==> f.q0 < 64 && f.q1 < 64,
        forall|i: int| 0 <= i < 16 ==> #[trigger] f.idx@[i] < (if five { 4int } else { 8int }),
{
    let c0: u8 = if five {
        hi
    } else {
        hi / 4
    };
    let c1: u8 = if five {
        lo
    } else {
        lo / 4
    };
    let top: i32 = if five {
        255
    } else {
        63
    };
    let mut best: AlphaHalf = score_alpha(samples, c0, c1, five);
    if best.err > 0 && (!five || hi != lo) {
        let ghost first = best@;
        let mut k: usize = 0;
        while k < 25
            invariant
                k <= 25,
                top == (if five { 255int } else { 63int }),
                c0 <= top,
                c1 <= top,
                best@ == alpha_window(samples@, first, c0, c1, k as nat, five),
                0 <= best.err <= 1040400,
                !five ==> best.q0 < 64 && best.q1 < 64,
                forall|i: int| 0 <= i < 16 ==> #[trigger] best.idx@[i] < (if five { 4int } else { 8int }),
            decreases 25 - k,
        {
            if k != 12 {
                let d0: i32 = (k / 5) as i32 - 2;
                let d1: i32 = (k % 5) as i32 - 2;
                let cand: AlphaHalf = score_alpha(
                    samples,
                    offset_level(c0, d0, top),
                    offset_level(c1, d1, top),
                    five,
                );
                if cand.err < best.err {
                    best = cand;
                }
            }
            k = k + 1;
        }
    }
    best
}

/// The indices as bit fields: the first one bit narrower than the others.
pub open spec fn index_fields(idx: Seq<u8>, n: nat) -> Seq<(int, nat)> {
    Seq::new(
        16,
        |i: int|
            (
                idx[i] as int,
                if i == 0 {
                    (n - 1) as nat
                } else {
                    n
                },
            ),
    )
}

pub(crate) fn write_indices(bw: &mut BitWriter, idx: &[u8; 16], n: u32)
    requires
        old(bw).wf(),
        2 <= n <= 4,
        old(bw).used() + 16 * n - 1 <= 128,
    ensures
        final(bw).wf(),
        final(bw).used() == old(bw).used() + 16 * n - 1,
        final(bw)@ == old(bw)@ + index_fields(idx@, n as nat),
{
    bw.write_bits(idx[0] as u32, n - 1);
    proof {
        assert(bw@ =~= old(bw)@ + index_fields(idx@, n as nat).take(1));
        assert(n * 1 == n);
    }
    let mut i: usize = 1;
    while i < 16
        invariant
            1 <= i <= 16,
            2 <= n <= 4,
            bw.wf(),
            bw.used() == old(bw).used() + n * i - 1,
            old(bw).used() + 16 * n - 1 <= 128,
            bw@ == old(bw)@ + index_fields(idx@, n as nat).take(i as int),
        decreases 16 - i,
    {
        proof {
            assert(n * i + n <= 16 * n) by (nonlinear_arith)
                requires
                    i + 1 <= 16,
                    n > 0,
            ;
            assert(n * (i + 1) == n * i + n) by (nonlinear_arith);
        }
        bw.write_bits(idx[i] as u32, n);
        i = i + 1;
        proof {
            assert(bw@ =~= old(bw)@ + index_fields(idx@, n as nat).take(i as int));
        }
    }
    proof {
        assert(index_fields(idx@, n as nat).take(16) =~= index_fields(idx@, n as nat));
        assert(n * 16 == 16 * n) by (nonlinear_arith);
    }
}

/// The bit fields of a mode 5 block.
pub open spec fn mode5_fields(rot: int, c: ColorFit, a: AlphaFit) -> Seq<(int, nat)> {
    seq![
        (32int, 6nat),
        (rot, 2),
        (c.0[0] as int, 7),
        (c.1[0] as int, 7),
        (c.0[1] as int, 7),
        (c.1[1] as int, 7),
        (c.0[2] as int, 7),
        (c.1[2] as int, 7),
        (a.0 as int, 8),
        (a.1 as int, 8),
    ] + index_fields(c.2, 2) + index_fields(a.2, 2)
}

/// The bit fields of a mode 4 block, rotation 0, 2-bit colour and 3-bit alpha
/// indices.
pub open spec fn mode4_fields(c: ColorFit, a: AlphaFit) -> Seq<(int, nat)> {
    seq![
        (16int, 5nat),
        (0, 2),
        (0, 1),
        (c.0[0] as int, 5),
        (c.1[0] as int, 5),
        (c.0[1] as int, 5),
        (c.1[1] as int, 5),
        (c.0[2] as int, 5),
        (c.1[2] as int, 5),
        (a.0 as int, 6),
        (a.1 as int, 6),
    ] + index_fields(c.2, 2) + index_fields(a.2, 3)
}

/// The sixteen bytes of a mode 5 block.
pub fn pack_bc7_mode5(rotation: u8, c: &ColorHalf, a: &AlphaHalf) -> (b: [u8; 16])
    requires
        rotation < 4,
    ensures
        b@ == le_bytes(bit_string(mode5_fields(rotation as int, c@, a@), 0), 16),
{
    let mut bw: BitWriter = BitWriter::new();
    bw.write_bits(32, 6);
    bw.write_bits(rotation as u32, 2);
    bw.write_bits(c.q0[0] as u32, 7);
    bw.write_bits(c.q1[0] as u32, 7);
    bw.write_bits(c.q0[1] as u32, 7);
    bw.write_bits(c.q1[1] as u32, 7);
    bw.write_bits(c.q0[2] as u32, 7);
    bw.write_bits(c.q1[2] as u32, 7);
    bw.write_bits(a.q0 as u32, 8);
    bw.write_bits(a.q1 as u32, 8);
    write_indices(&mut bw, &c.idx, 2);
    write_indices(&mut bw, &a.idx, 2);
    proof {
        assert(bw@ =~= mode5_fields(rotation as int, c@, a@));
    }
    bw.into_array()
}

/// The sixteen bytes of a mode 4 block.
pub fn pack_bc7_mode4(c: &ColorHalf, a: &AlphaHalf) -> (b: [u8; 16])
    ensures
        b@ == le_bytes(bit_string(mode4_fields(c@, a@), 0), 16),
{
    let mut bw: BitWriter = BitWriter::new();
    bw.write_bits(16, 5);
    bw.write_bits(0, 2);
    bw.write_bits(0, 1);
    bw.write_bits(c.q0[0] as u32, 5);
    bw.write_bits(c.q1[0] as u32, 5);
    bw.write_bits(c.q0[1] as u32, 5);
    bw.write_bits(c.q1[1] as u32, 5);
    bw.write_bits(c.q0[2] as u32, 5);
    bw.write_bits(c.q1[2] as u32, 5);
    bw.write_bits(a.q0 as u32, 6);
    bw.write_bits(a.q1 as u32, 6);
    write_indices(&mut bw, &c.idx, 2);
    write_indices(&mut bw, &a.idx, 3);
    proof {
        assert(bw@ =~= mode4_fields(c@, a@));
    }
    bw.into_array()
}

/// The alpha half of the mode 5 block of some texels.
#[verifier::opaque]
pub open spec fn mode5_alpha(px: Seq<Seq<u8>>) -> AlphaFit {
    alpha_search(column(px, 3), channel_high(px, 3, 16) as u8, channel_low(px, 3, 16) as u8, true)
}

/// The alpha half of the mode 4 block of some texels.
#[verifier::opaque]
pub open spec fn mode4_alpha(px: Seq<Seq<u8>>) -> AlphaFit {
    alpha_search(column(px, 3), channel_high(px, 3, 16) as u8, channel_low(px, 3, 16) as u8, false)
}

/// The mode 5 block of some texels, and its error.
#[verifier::opaque]
pub open spec fn mode5_block(px: Seq<Seq<u8>>, rot: int) -> Scored {
    let c = color_search(px, true);
    let a = mode5_alpha(px);
    (le_bytes(bit_string(mode5_fields(rot, c, a), 0), 16), c.3 + a.3)
}

/// The mode 4 block of some texels, and its error.
#[verifier::opaque]
pub open spec fn mode4_block(px: Seq<Seq<u8>>) -> Scored {
    let c = color_search(px, false);
    let a = mode4_alpha(px);
    (le_bytes(bit_string(mode4_fields(c, a), 0), 16), c.3 + a.3)
}

/// The mode 5 block, and its error; none where the alpha half alone reaches
/// the limit.
pub fn try_bc7_mode5(px: &[[u8; 4]; 16], rotation: u8, seeds: &ColorSeeds, err_limit: i64) -> (r: Option<([u8; 16], i64)>)
    requires
        rotation < 4,
        seeds.seeds(rows(*px)),
    ensures
        r is None <==> mode5_alpha(rows(*px)).3 >= err_limit,
        r is None ==> mode5_block(rows(*px), rotation as int).1 >= err_limit,
        r matches Some((b, e)) ==> (b@, e as int) == mode5_block(rows(*px), rotation as int) && 0 <= e <= 5000000,
{
    proof {
        reveal(mode5_block);
        reveal(mode5_alpha);
    }
    let samples: [u8; 16] = channel_of(px, 3);
    let (hi, lo) = channel_minmax(px, 3);
    let a: AlphaHalf = search_alpha(&samples, hi, lo, true);
    proof {
        lemma_color_search_range(rows(*px), true);
    }
    if a.err as i64 >= err_limit {
        return None;
    }
    let c: ColorHalf = search_color(px, seeds, true);
    Some((pack_bc7_mode5(rotation, &c, &a), c.err as i64 + a.err as i64))
}

/// The mode 4 block, and its error; none where the colour half alone reaches
/// the limit.
pub fn try_bc7_mode4(px: &[[u8; 4]; 16], seeds: &ColorSeeds, err_limit: i64) -> (r: Option<([u8; 16], i64)>)
    requires
        seeds.seeds(rows(*px)),
    ensures
        r is None <==> color_search(rows(*px), false).3 >= err_limit,
        r is None ==> mode4_block(rows(*px)).1 >= err_limit,
        r matches Some((b, e)) ==> (b@, e as int) == mode4_block(rows(*px)) && 0 <= e <= 5000000,
{
    proof {
        reveal(mode4_block);
        reveal(mode4_alpha);
    }
    let c: ColorHalf = search_color(px, seeds, false);
    let samples: [u8; 16] = channel_of(px, 3);
    let (hi, lo) = channel_minmax(px, 3);
    if c.err as i64 >= err_limit {
        proof {
            lemma_alpha_search_range(column(rows(*px), 3), hi, lo, false);
        }
        return None;
    }
    let a: AlphaHalf = search_alpha(&samples, hi, lo, false);
    Some((pack_bc7_mode4(&c, &a), c.err as i64 + a.err as i64))
}

proof fn lemma_color_fit_range(px: Seq<Seq<u8>>, e0: Seq<u8>, e1: Seq<u8>, seven: bool)
    requires
        is_block(px),
    ensures
        color_fit(px, e0, e1, seven).3 >= 0,
{
    let q0 = color_levels(e0, seven);
    let q1 = color_levels(e1, seven);
    lemma_rgb_fit(px, interp_rows(color_bytes(q0, seven), color_bytes(q1, seven), weights2()));
}

proof fn lemma_color_search_range(px: Seq<Seq<u8>>, seven: bool)
    requires
        is_block(px),
    ensures
        color_search(px, seven).3 >= 0,
{
    reveal(color_search);
    lemma_color_fit_range(px, brightest(px), darkest(px), seven);
    lemma_color_fit_range(px, channel_highs(px, 3), channel_lows(px, 3), seven);
    let f0 = color_fit(px, brightest(px), darkest(px), seven);
    let f1 = better_fit(f0, color_fit(px, channel_highs(px, 3), channel_lows(px, 3), seven));
    if let Some((a, b)) = axis_extremes(px) {
        lemma_color_fit_range(px, a, b, seven);
    }
    let f2 = match axis_extremes(px) {
        Some((a, b)) => better_fit(f1, color_fit(px, a, b, seven)),
        None => f1,
    };
    if let Some((a, b)) = ls_endpoints(px, float_weights2(f2.2), 3) {
        lemma_color_fit_range(px, a, b, seven);
    }
}

proof fn lemma_alpha_fit_range(s: Seq<u8>, q0: u8, q1: u8, five: bool)
    requires
        s.len() == 16,
    ensures
        alpha_fit(s, q0, q1, five).3 >= 0,
{
    if five {
        lemma_sample_fit(s, interp_bytes(q0, q1, weights2()));
    } else {
        lemma_sample_fit(s, interp_bytes(stretch6(q0 as int) as u8, stretch6(q1 as int) as u8, weights3()));
    }
}

proof fn lemma_alpha_window_range(s: Seq<u8>, st: AlphaFit, c0: u8, c1: u8, k: nat, five: bool)
    requires
        s.len() == 16,
        st.3 >= 0,
    ensures
        alpha_window(s, st, c0, c1, k, five).3 >= 0,
    decreases k,
{
    if k > 0 {
        lemma_alpha_window_range(s, st, c0, c1, (k - 1) as nat, five);
        let top = if five {
            255int
        } else {
            63int
        };
        lemma_alpha_fit_range(
            s,
            clamped(c0 + ((k - 1) / 5 - 2), 0, top) as u8,
            clamped(c1 + ((k - 1) % 5 - 2), 0, top) as u8,
            five,
        );
    }
}

proof fn lemma_alpha_search_range(s: Seq<u8>, hi: u8, lo: u8, five: bool)
    requires
        s.len() == 16,
    ensures
        alpha_search(s, hi, lo, five).3 >= 0,
{
    let c0 = if five {
        hi
    } else {
        hi / 4
    };
    let c1 = if five {
        lo
    } else {
        lo / 4
    };
    lemma_alpha_fit_range(s, c0, c1, five);
    lemma_alpha_window_range(s, alpha_fit(s, c0, c1, five), c0, c1, 25, five);
}

/// How far each 7-bit level, with low bit `p`, lies from the byte `c`.
pub open spec fn level_costs(c: int, p: int) -> Seq<int> {
    Seq::new(128, |q: int| sq(2 * q + p - c))
}

/// The nearest 7-bit level to the byte `c` under the low bit `p`, the lowest
/// among equals.
pub open spec fn level7(c: u8, p: int) -> u8 {
    best_of(level_costs(c as int, p)) as u8
}

/// The squared error of that level.
pub open spec fn level7_error(c: u8, p: int) -> int {
    level_costs(c as int, p)[best_of(level_costs(c as int, p))]
}

/// The nearest 7-bit level to a byte under a low bit, and its squared error.
pub fn qtab_entry(c: u8, p: u8) -> (r: (u8, u16))
    requires
        p < 2,
    ensures
        r.0 == level7(c, p as int),
        r.1 == level7_error(c, p as int),
        r.0 < 128,
        r.1 <= 1,
{
    let q: u8 = if p == 1 && c % 2 == 0 && c > 0 {
        c / 2 - 1
    } else {
        c / 2
    };
    let e: u16 = if c % 2 == p {
        0
    } else {
        1
    };
    proof {
        reveal(sq);
        let costs = level_costs(c as int, p as int);
        let d = 2 * q + p - c;
        assert(costs[q as int] == d * d);
        assert(d == 0 || d == 1 || d == -1);
        assert(d * d == e) by (nonlinear_arith)
            requires
                d == 0 || d == 1 || d == -1,
                d == 0 ==> e == 0,
                d != 0 ==> e == 1,
        ;
        assert forall|j: int| 0 <= j < 128 implies costs[q as int] <= #[trigger] costs[j] by {
            let x = 2 * j + p - c;
            assert(x * x >= e) by (nonlinear_arith)
                requires
                    e == 0 || (e == 1 && x != 0),
            ;
        }
        assert forall|j: int| 0 <= j < q implies costs[q as int] < #[trigger] costs[j] by {
            let x = 2 * j + p - c;
            assert(x <= -1 && (e == 1 ==> x <= -2));
            assert(x * x > e) by (nonlinear_arith)
                requires
                    x <= -1,
                    e == 1 ==> x <= -2,
                    e == 0 || e == 1,
            ;
        }
        lemma_first_min_unique(costs, 128, q as int);
    }
    (q, e)
}

/// The error of quantising a colour under the low bit `p`.
pub open spec fn quant_error(c: Seq<u8>, p: int) -> int {
    level7_error(c[0], p) + level7_error(c[1], p) + level7_error(c[2], p) + level7_error(c[3], p)
}

/// The low bit that quantises a colour best, zero where both do as well.
pub open spec fn best_low_bit(c: Seq<u8>) -> int {
    if quant_error(c, 1) < quant_error(c, 0) {
        1
    } else {
        0
    }
}

/// The levels of a colour under the low bit `p`.
pub open spec fn levels7(c: Seq<u8>, p: int) -> Seq<u8> {
    Seq::new(4, |i: int| level7(c[i], p))
}

/// The bytes of levels under the low bit `p`.
pub open spec fn bytes7(q: Seq<u8>, p: int) -> Seq<u8> {
    Seq::new(4, |i: int| (2 * q[i] + p) as u8)
}

/// A colour's levels under a given low bit.
pub fn quantize_7p_fixed(c: [u8; 4], p: u8) -> (q: [u8; 4])
    requires
        p < 2,
    ensures
        q@ == levels7(c@, p as int),
        forall|i: int| 0 <= i < 4 ==> #[trigger] q@[i] < 128,
{
    let q: [u8; 4] = [qtab_entry(c[0], p).0, qtab_entry(c[1], p).0, qtab_entry(c[2], p).0, qtab_entry(c[3], p).0];
    proof {
        assert(q@ =~= levels7(c@, p as int));
    }
    q
}

/// The low bit that quantises a colour best.
pub fn low_bit_choice(c: [u8; 4]) -> (p: u8)
    ensures
        p == best_low_bit(c@),
        p < 2,
{
    let s0: u16 = qtab_entry(c[0], 0).1 + qtab_entry(c[1], 0).1 + qtab_entry(c[2], 0).1 + qtab_entry(c[3], 0).1;
    let s1: u16 = qtab_entry(c[0], 1).1 + qtab_entry(c[1], 1).1 + qtab_entry(c[2], 1).1 + qtab_entry(c[3], 1).1;
    if s1 < s0 {
        1
    } else {
        0
    }
}

/// A colour's levels, and the low bit that fits them best.
pub fn quantize_7p(c: [u8; 4]) -> (r: ([u8; 4], u8))
    ensures
        r.1 == best_low_bit(c@),
        r.0@ == levels7(c@, best_low_bit(c@)),
        r.1 < 2,
        forall|i: int| 0 <= i < 4 ==> #[trigger] r.0@[i] < 128,
{
    let p: u8 = low_bit_choice(c);
    (quantize_7p_fixed(c, p), p)
}

/// One channel's byte from its level and low bit.
pub fn unquantize_7p_chan(q: u8, p: u8) -> (v: u8)
    requires
        q < 128,
        p < 2,
    ensures
        v == 2 * q + p,
{
    2 * q + p
}

/// The bytes of a colour's levels and low bit.
pub fn unquantize_7p(q: [u8; 4], p: u8) -> (c: [u8; 4])
    requires
        p < 2,
        forall|i: int| 0 <= i < 4 ==> #[trigger] q@[i] < 128,
    ensures
        c@ == bytes7(q@, p as int),
{
    let c: [u8; 4] = [
        unquantize_7p_chan(q[0], p),
        unquantize_7p_chan(q[1], p),
        unquantize_7p_chan(q[2], p),
        unquantize_7p_chan(q[3], p),
    ];
    proof {
        assert(c@ =~= bytes7(q@, p as int));
    }
    c
}

/// The squared distance between two RGBA colours.
pub open spec fn rgba_distance(p: Seq<u8>, c: Seq<u8>) -> int {
    sq(c[0] - p[0]) + sq(c[1] - p[1]) + sq(c[2] - p[2]) + sq(c[3] - p[3])
}

/// Each texel's distance to each colour of an RGBA palette.
pub open spec fn rgba_costs(px: Seq<Seq<u8>>, pal: Seq<Seq<u8>>) -> Seq<Seq<int>> {
    Seq::new(px.len(), |i: int| Seq::new(pal.len(), |j: int| rgba_distance(px[i], pal[j])))
}

pub proof fn lemma_rgba_distance(p: Seq<u8>, c: Seq<u8>)
    ensures
        0 <= rgba_distance(p, c) <= 260100,
{
    lemma_sq(c[0] - p[0]);
    lemma_sq(c[1] - p[1]);
    lemma_sq(c[2] - p[2]);
    lemma_sq(c[3] - p[3]);
}

/// What fitting an RGBA palette to texels can cost.
pub proof fn lemma_rgba_fit(px: Seq<Seq<u8>>, pal: Seq<Seq<u8>>)
    requires
        px.len() == 16,
        0 < pal.len() <= 16,
    ensures
        forall|i: int| 0 <= i < 16 ==> 0 <= #[trigger] fit_costs(rgba_costs(px, pal))[i] <= 260100,
        forall|i: int| 0 <= i < 16 ==> #[trigger] fit_indices(rgba_costs(px, pal))[i] < pal.len(),
        0 <= fit_error(rgba_costs(px, pal)) <= 4161600,
{
    let costs = rgba_costs(px, pal);
    assert forall|i: int| 0 <= i < 16 implies 0 <= #[trigger] fit_costs(costs)[i] <= 260100 by {
        lemma_first_min_in(costs[i], pal.len());
        lemma_rgba_distance(px[i], pal[best_of(costs[i])]);
    }
    assert forall|i: int| 0 <= i < 16 implies #[trigger] fit_indices(costs)[i] < pal.len() by {
        lemma_first_min_in(costs[i], pal.len());
    }
    lemma_total_bound(fit_costs(costs), 16, 260100);
}

/// The sixteen colours between two endpoints.
pub fn palette_mode6(c0: [u8; 4], c1: [u8; 4]) -> (pal: [[u8; 4]; 16])
    ensures
        rows(pal) == interp_rows(c0@, c1@, weights4()),
{
    let mut pal: [[u8; 4]; 16] = [[0u8; 4]; 16];
    let mut k: usize = 0;
    while k < 16
        invariant
            k <= 16,
            forall|j: int| 0 <= j < k ==> (#[trigger] pal@[j])@ == interp_rows(c0@, c1@, weights4())[j],
        decreases 16 - k,
    {
        let w: u32 = weight4(k);
        pal[k] = [
            interpolate(w, c0[0], c1[0]),
            interpolate(w, c0[1], c1[1]),
            interpolate(w, c0[2], c1[2]),
            interpolate(w, c0[3], c1[3]),
        ];
        proof {
            assert(pal@[k as int]@ =~= interp_rows(c0@, c1@, weights4())[k as int]);
        }
        k = k + 1;
    }
    proof {
        assert(rows(pal) =~= interp_rows(c0@, c1@, weights4()));
    }
    pal
}

/// The nearest of sixteen colours, the first among equals, and its distance.
pub fn best_index_pal(px: &[u8; 4], pal: &[[u8; 4]; 16]) -> (r: (u8, i32))
    ensures
        ({
            let costs = Seq::new(16, |j: int| rgba_distance(px@, pal@[j]@));
            r.0 == best_of(costs) && r.1 == costs[r.0 as int]
        }),
        r.0 < 16,
        0 <= r.1 <= 260100,
{
    let ghost costs = Seq::new(16, |j: int| rgba_distance(px@, pal@[j]@));
    let mut best: usize = 0;
    let mut best_e: i32 = sq_diff(pal[0][0], px[0]) + sq_diff(pal[0][1], px[1]) + sq_diff(pal[0][2], px[2]) + sq_diff(
        pal[0][3],
        px[3],
    );
    let mut k: usize = 1;
    while k < 16
        invariant
            1 <= k <= 16,
            best < k,
            costs == Seq::new(16, |j: int| rgba_distance(px@, pal@[j]@)),
            best == first_min(costs, k as nat),
            best_e == costs[best as int],
            0 <= best_e <= 260100,
        decreases 16 - k,
    {
        let e: i32 = sq_diff(pal[k][0], px[0]) + sq_diff(pal[k][1], px[1]) + sq_diff(pal[k][2], px[2]) + sq_diff(
            pal[k][3],
            px[3],
        );
        proof {
            assert(costs[k as int] == e);
        }
        if e < best_e {
            best_e = e;
            best = k;
        }
        k = k + 1;
    }
    (best as u8, best_e)
}

/// The nearest of sixteen colours for each texel, and the whole error.
pub fn fit_indices_mode6(px: &[[u8; 4]; 16], pal: &[[u8; 4]; 16]) -> (r: ([u8; 16], i64))
    ensures
        r.0@ == fit_indices(rgba_costs(rows(*px), rows(*pal))),
        r.1 == fit_error(rgba_costs(rows(*px), rows(*pal))),
        0 <= r.1 <= 4161600,
        forall|i: int| 0 <= i < 16 ==> #[trigger] r.0@[i] < 16,
{
    let ghost costs = rgba_costs(rows(*px), rows(*pal));
    proof {
        lemma_rgba_fit(rows(*px), rows(*pal));
    }
    let mut idx: [u8; 16] = [0u8; 16];
    let mut err: i64 = 0;
    let mut i: usize = 0;
    while i < 16
        invariant
            i <= 16,
            costs == rgba_costs(rows(*px), rows(*pal)),
            forall|k: int| 0 <= k < i ==> #[trigger] idx@[k] == fit_indices(costs)[k],
            forall|k: int| 0 <= k < i ==> #[trigger] idx@[k] < 16,
            err == total(fit_costs(costs), i as nat),
            0 <= err <= i * 260100,
        decreases 16 - i,
    {
        let (k, e) = best_index_pal(&px[i], pal);
        proof {
            assert(costs[i as int] =~= Seq::new(16, |j: int| rgba_distance(px@[i as int]@, pal@[j]@)));
            assert(fit_indices(costs)[i as int] == k);
            assert(fit_costs(costs)[i as int] == e);
        }
        idx[i] = k;
        err = err + e as i64;
        i = i + 1;
    }
    proof {
        assert(idx@ =~= fit_indices(costs));
    }
    (idx, err)
}

/// Levels and low bit of both endpoints, the indices, and the squared error.
pub type Fit6 = (Seq<u8>, int, Seq<u8>, int, Seq<u8>, int);

/// A mode 6 fit for one endpoint pair. The first index's high bit is not
/// stored: where it would be set, the endpoints change places and the indices
/// count from the other end.
#[verifier::opaque]
pub open spec fn fit6(px: Seq<Seq<u8>>, e0: Seq<u8>, e1: Seq<u8>) -> Fit6 {
    let p0 = best_low_bit(e0);
    let p1 = best_low_bit(e1);
    let q0 = levels7(e0, p0);
    let q1 = levels7(e1, p1);
    let costs = rgba_costs(px, interp_rows(bytes7(q0, p0), bytes7(q1, p1), weights4()));
    let idx = fit_indices(costs);
    if idx[0] > 7 {
        (q1, p1, q0, p0, inverted(idx, 15), fit_error(costs))
    } else {
        (q0, p0, q1, p1, idx, fit_error(costs))
    }
}

/// One evaluated mode 6 candidate.
#[derive(Clone, Copy)]
pub struct Mode6Fit {
    pub q0: [u8; 4],
    pub p0: u8,
    pub q1: [u8; 4],
    pub p1: u8,
    pub indices: [u8; 16],
    pub err: i64,
}

/// The bit fields of a mode 6 block.
pub open spec fn mode6_fields(q0: Seq<u8>, p0: int, q1: Seq<u8>, p1: int, idx: Seq<u8>) -> Seq<(int, nat)> {
    seq![
        (64int, 7nat),
        (q0[0] as int, 7),
        (q1[0] as int, 7),
        (q0[1] as int, 7),
        (q1[1] as int, 7),
        (q0[2] as int, 7),
        (q1[2] as int, 7),
        (q0[3] as int, 7),
        (q1[3] as int, 7),
        (p0, 1),
        (p1, 1),
    ] + index_fields(idx, 4)
}

/// The sixteen bytes of a mode 6 block.
#[verifier::opaque]
pub open spec fn mode6_bytes(q0: Seq<u8>, p0: int, q1: Seq<u8>, p1: int, idx: Seq<u8>) -> Seq<u8> {
    le_bytes(bit_string(mode6_fields(q0, p0, q1, p1, idx), 0), 16)
}

/// The sixteen bytes of a mode 6 block.
pub fn pack_bc7_mode6(q0: [u8; 4], p0: u8, q1: [u8; 4], p1: u8, idx: &[u8; 16]) -> (b: [u8; 16])
    ensures
        b@ == mode6_bytes(q0@, p0 as int, q1@, p1 as int, idx@),
{
    proof {
        reveal(mode6_bytes);
    }
    let mut bw: BitWriter = BitWriter::new();
    bw.write_bits(64, 7);
    bw.write_bits(q0[0] as u32, 7);
    bw.write_bits(q1[0] as u32, 7);
    bw.write_bits(q0[1] as u32, 7);
    bw.write_bits(q1[1] as u32, 7);
    bw.write_bits(q0[2] as u32, 7);
    bw.write_bits(q1[2] as u32, 7);
    bw.write_bits(q0[3] as u32, 7);
    bw.write_bits(q1[3] as u32, 7);
    bw.write_bits(p0 as u32, 1);
    bw.write_bits(p1 as u32, 1);
    write_indices(&mut bw, idx, 4);
    proof {
        assert(bw@ =~= mode6_fields(q0@, p0 as int, q1@, p1 as int, idx@));
    }
    bw.into_array()
}

impl Mode6Fit {
    /// The fit that the candidate holds.
    pub open spec fn view(&self) -> Fit6 {
        (self.q0@, self.p0 as int, self.q1@, self.p1 as int, self.indices@, self.err as int)
    }

    /// The candidate's levels, low bits, indices and error are in range.
    pub open spec fn wf(&self) -> bool {
        &&& forall|i: int| 0 <= i < 4 ==> #[trigger] self.q0@[i] < 128
        &&& forall|i: int| 0 <= i < 4 ==> #[trigger] self.q1@[i] < 128
        &&& self.p0 < 2
        &&& self.p1 < 2
        &&& forall|i: int| 0 <= i < 16 ==> #[trigger] self.indices@[i] < 16
        &&& self.indices@[0] < 8
        &&& 0 <= self.err <= 4161600
    }

    /// The block of the candidate.
    pub fn pack(&self) -> (b: [u8; 16])
        ensures
            b@ == fit6_bytes(self@),
    {
        pack_bc7_mode6(self.q0, self.p0, self.q1, self.p1, &self.indices)
    }
}

/// The block of a mode 6 fit.
pub open spec fn fit6_bytes(f: Fit6) -> Seq<u8> {
    mode6_bytes(f.0, f.1, f.2, f.3, f.4)
}

/// Quantises an endpoint pair, fits the indices, and puts the anchor in order.
pub fn mode6_base(px: &[[u8; 4]; 16], e0: [u8; 4], e1: [u8; 4]) -> (f: Mode6Fit)
    ensures
        f@ == fit6(rows(*px), e0@, e1@),
        f.wf(),
{
    proof {
        reveal(fit6);
    }
    let (q0, p0) = quantize_7p(e0);
    let (q1, p1) = quantize_7p(e1);
    let pal: [[u8; 4]; 16] = palette_mode6(unquantize_7p(q0, p0), unquantize_7p(q1, p1));
    let (idx, err) = fit_indices_mode6(px, &pal);
    if idx[0] > 7 {
        Mode6Fit { q0: q1, p0: p1, q1: q0, p1: p0, indices: invert_indices(idx, 15), err }
    } else {
        Mode6Fit { q0, p0, q1, p1, indices: idx, err }
    }
}

/// The weights of 4-bit indices, in single precision.
pub open spec fn float_weights4(idx: Seq<u8>) -> Seq<u32> {
    Seq::new(16, |i: int| quotient(of_int(weights4()[idx[i] as int]), of_int(64)))
}

/// The least-squares endpoints of sixteen 4-bit indices.
pub fn ls_endpoints_mode6(px: &[[u8; 4]; 16], idx: &[u8; 16]) -> (r: Option<([u8; 4], [u8; 4])>)
    requires
        forall|i: int| 0 <= i < 16 ==> #[trigger] idx@[i] < 16,
    ensures
        r matches Some((a, b)) ==> ls_endpoints(rows(*px), float_weights4(idx@), 4) == Some((a@, b@)),
        r is None ==> ls_endpoints(rows(*px), float_weights4(idx@), 4) is None,
{
    let scale: u32 = from_int32(64);
    let mut ws: [u32; 16] = [0u32; 16];
    let mut i: usize = 0;
    while i < 16
        invariant
            i <= 16,
            scale == of_int(64),
            forall|i: int| 0 <= i < 16 ==> #[trigger] idx@[i] < 16,
            forall|k: int| 0 <= k < i ==> #[trigger] ws@[k] == float_weights4(idx@)[k],
        decreases 16 - i,
    {
        ws[i] = div32(from_int32(weight4(idx[i] as usize) as i64), scale);
        i = i + 1;
    }
    proof {
        assert(ws@.take(16) =~= float_weights4(idx@));
    }
    solve_endpoints(px, &ws, 16)
}

/// The least-squares refit of a mode 6 fit; the fit itself where its indices
/// do not determine endpoints.
pub open spec fn refit6(px: Seq<Seq<u8>>, f: Fit6) -> Fit6 {
    match ls_endpoints(px, float_weights4(f.4), 4) {
        Some((a, b)) => fit6(px, a, b),
        None => f,
    }
}

/// The least-squares refit of a mode 6 fit.
pub fn mode6_refine(px: &[[u8; 4]; 16], base: Mode6Fit) -> (f: Mode6Fit)
    requires
        base.wf(),
    ensures
        f@ == refit6(rows(*px), base@),
        f.wf(),
{
    match ls_endpoints_mode6(px, &base.indices) {
        None => base,
        Some((a, b)) => mode6_base(px, a, b),
    }
}

/// The sum of each texel's four channels.
pub open spec fn channel_sums(px: Seq<Seq<u8>>) -> Seq<int> {
    Seq::new(px.len(), |i: int| px[i][0] + px[i][1] + px[i][2] + px[i][3])
}

/// The first texel of greatest channel sum.
pub open spec fn largest_texel(px: Seq<Seq<u8>>) -> Seq<u8> {
    px[first_min(negated(channel_sums(px)), px.len())]
}

/// The first texel of least channel sum.
pub open spec fn smallest_texel(px: Seq<Seq<u8>>) -> Seq<u8> {
    px[first_min(channel_sums(px), px.len())]
}

/// The texels of greatest and of least channel sum.
pub fn extrema_rgba(px: &[[u8; 4]; 16]) -> (r: ([u8; 4], [u8; 4]))
    ensures
        r.0@ == largest_texel(rows(*px)),
        r.1@ == smallest_texel(rows(*px)),
{
    let ghost ls = channel_sums(rows(*px));
    let ghost ns = negated(ls);
    let mut lo: usize = 0;
    let mut hi: usize = 0;
    let mut min_l: i32 = px[0][0] as i32 + px[0][1] as i32 + px[0][2] as i32 + px[0][3] as i32;
    let mut max_l: i32 = min_l;
    let mut i: usize = 1;
    while i < 16
        invariant
            1 <= i <= 16,
            lo < i,
            hi < i,
            ls == channel_sums(rows(*px)),
            ns == negated(ls),
            lo == first_min(ls, i as nat),
            hi == first_min(ns, i as nat),
            min_l == ls[lo as int],
            max_l == ls[hi as int],
        decreases 16 - i,
    {
        let l: i32 = px[i][0] as i32 + px[i][1] as i32 + px[i][2] as i32 + px[i][3] as i32;
        proof {
            assert(ls[i as int] == l);
        }
        if l < min_l {
            min_l = l;
            lo = i;
        }
        if l > max_l {
            max_l = l;
            hi = i;
        }
        i = i + 1;
    }
    (px[hi], px[lo])
}

/// The greatest and the least value of each channel.
pub fn channel_minmax_rgba(px: &[[u8; 4]; 16]) -> (r: ([u8; 4], [u8; 4]))
    ensures
        r.0@ == channel_highs(rows(*px), 4),
        r.1@ == channel_lows(rows(*px), 4),
        forall|c: int| 0 <= c < 4 ==> #[trigger] r.1@[c] <= r.0@[c],
{
    let (h0, l0) = channel_minmax(px, 0);
    let (h1, l1) = channel_minmax(px, 1);
    let (h2, l2) = channel_minmax(px, 2);
    let (h3, l3) = channel_minmax(px, 3);
    let mx: [u8; 4] = [h0, h1, h2, h3];
    let mn: [u8; 4] = [l0, l1, l2, l3];
    proof {
        assert(mx@ =~= channel_highs(rows(*px), 4));
        assert(mn@ =~= channel_lows(rows(*px), 4));
    }
    (mx, mn)
}

/// The sum of the first `n` values of channel `c`.
pub open spec fn channel_total(px: Seq<Seq<u8>>, c: int, n: nat) -> int
    decreases n,
{
    if n == 0 {
        0
    } else {
        channel_total(px, c, (n - 1) as nat) + px[n - 1][c]
    }
}

/// The mean texel, rounded down.
pub open spec fn mean_texel(px: Seq<Seq<u8>>) -> Seq<u8> {
    Seq::new(4, |c: int| (channel_total(px, c, 16) / 16) as u8)
}

fn mean_channel(px: &[[u8; 4]; 16], c: usize) -> (m: u8)
    requires
        c < 4,
    ensures
        m == channel_total(rows(*px), c as int, 16) / 16,
{
    let mut s: u32 = 0;
    let mut i: usize = 0;
    while i < 16
        invariant
            i <= 16,
            c < 4,
            s == channel_total(rows(*px), c as int, i as nat),
            s <= 255 * i,
        decreases 16 - i,
    {
        proof {
            assert(rows(*px)[i as int][c as int] == px@[i as int]@[c as int]);
        }
        s = s + px[i][c] as u32;
        i = i + 1;
    }
    (s / 16) as u8
}

/// A distance and the two texels that have it.
pub type FarPair = (int, int, int);

/// The pair in hand, or the first pair of `i` and a texel before `j` that is
/// strictly farther apart.
pub open spec fn far_row(px: Seq<Seq<u8>>, st: FarPair, i: int, j: nat) -> FarPair
    decreases j,
{
    if j == 0 || j <= i + 1 {
        st
    } else {
        let before = far_row(px, st, i, (j - 1) as nat);
        let d = rgba_distance(px[j - 1], px[i]);
        if d > before.0 {
            (d, i, j - 1)
        } else {
            before
        }
    }
}

/// The first pair of texels farthest apart, its earlier texel before `n`.
pub open spec fn far_pair(px: Seq<Seq<u8>>, n: nat) -> FarPair
    decreases n,
{
    if n == 0 {
        (-1, 0, 0)
    } else {
        far_row(px, far_pair(px, (n - 1) as nat), n - 1, 16)
    }
}

fn farthest_pair(px: &[[u8; 4]; 16]) -> (r: ([u8; 4], [u8; 4]))
    ensures
        r.0@ == rows(*px)[far_pair(rows(*px), 16).1],
        r.1@ == rows(*px)[far_pair(rows(*px), 16).2],
{
    let ghost p = rows(*px);
    let mut d: i32 = -1;
    let mut a: usize = 0;
    let mut b: usize = 0;
    let mut i: usize = 0;
    while i < 16
        invariant
            i <= 16,
            p == rows(*px),
            a < 16,
            b < 16,
            far_pair(p, i as nat) == (d as int, a as int, b as int),
        decreases 16 - i,
    {
        let ghost row = (d as int, a as int, b as int);
        let mut j: usize = i + 1;
        while j < 16
            invariant
                i < 16,
                i + 1 <= j <= 16,
                p == rows(*px),
                a < 16,
                b < 16,
                far_row(p, row, i as int, j as nat) == (d as int, a as int, b as int),
            decreases 16 - j,
        {
            let e: i32 = sq_diff(px[i][0], px[j][0]) + sq_diff(px[i][1], px[j][1]) + sq_diff(px[i][2], px[j][2])
                + sq_diff(px[i][3], px[j][3]);
            proof {
                assert(rgba_distance(p[j as int], p[i as int]) == e);
            }
            if e > d {
                d = e;
                a = i;
                b = j;
            }
            j = j + 1;
        }
        i = i + 1;
    }
    (px[a], px[b])
}

/// The first fit, unless the second errs strictly less.
pub open spec fn better6(a: Fit6, b: Fit6) -> Fit6 {
    if b.5 < a.5 {
        b
    } else {
        a
    }
}

/// The sum of the four channel spans.
pub open spec fn span_sum4(px: Seq<Seq<u8>>) -> int {
    let hi = channel_highs(px, 4);
    let lo = channel_lows(px, 4);
    hi[0] - lo[0] + (hi[1] - lo[1]) + (hi[2] - lo[2]) + (hi[3] - lo[3])
}

/// Error above which the expensive seeds are tried.
pub const SEED_EXTRA_ERR_GATE: i64 = 256;

/// The best mode 6 fit of the two cheap seeds.
pub open spec fn cheap_fit6(px: Seq<Seq<u8>>) -> Fit6 {
    better6(
        fit6(px, largest_texel(px), smallest_texel(px)),
        fit6(px, channel_highs(px, 4), channel_lows(px, 4)),
    )
}

/// The best mode 6 fit of all seeds: where the cheap ones leave much error on
/// a block that varies, also the mean paired with each extreme and, on a busy
/// block, the two texels farthest apart.
pub open spec fn seeded_fit6(px: Seq<Seq<u8>>) -> Fit6 {
    let f = cheap_fit6(px);
    let span = span_sum4(px);
    if f.5 <= SEED_EXTRA_ERR_GATE || span <= 16 {
        f
    } else {
        let mean = mean_texel(px);
        let g = better6(better6(f, fit6(px, largest_texel(px), mean)), fit6(px, mean, smallest_texel(px)));
        if span > 48 {
            better6(g, fit6(px, px[far_pair(px, 16).1], px[far_pair(px, 16).2]))
        } else {
            g
        }
    }
}

/// The mode 6 fit of a block: the best seed, refitted by least squares where
/// the block varies and the refit errs no more.
pub open spec fn best_fit6(px: Seq<Seq<u8>>) -> Fit6 {
    let f = seeded_fit6(px);
    let g = refit6(px, f);
    if span_sum4(px) > 8 && g.5 <= f.5 {
        g
    } else {
        f
    }
}

fn try_seed(px: &[[u8; 4]; 16], best: Mode6Fit, e0: [u8; 4], e1: [u8; 4]) -> (f: Mode6Fit)
    requires
        best.wf(),
    ensures
        f@ == better6(best@, fit6(rows(*px), e0@, e1@)),
        f.wf(),
{
    let cand: Mode6Fit = mode6_base(px, e0, e1);
    if cand.err < best.err {
        cand
    } else {
        best
    }
}

/// The mode 6 fit of a block.
pub fn encode_bc7_mode6_inner(px: &[[u8; 4]; 16]) -> (f: Mode6Fit)
    ensures
        f@ == best_fit6(rows(*px)),
        f.wf(),
{
    let (mx, mn) = extrema_rgba(px);
    let (hi, lo) = channel_minmax_rgba(px);
    let span: i32 = (hi[0] - lo[0]) as i32 + (hi[1] - lo[1]) as i32 + (hi[2] - lo[2]) as i32 + (hi[3] - lo[3]) as i32;
    let mut best: Mode6Fit = mode6_base(px, mx, mn);
    best = try_seed(px, best, hi, lo);
    if best.err > SEED_EXTRA_ERR_GATE && span > 16 {
        let mean: [u8; 4] = [mean_channel(px, 0), mean_channel(px, 1), mean_channel(px, 2), mean_channel(px, 3)];
        proof {
            assert(mean@ =~= mean_texel(rows(*px)));
        }
        best = try_seed(px, best, mx, mean);
        best = try_seed(px, best, mean, mn);
        if span > 48 {
            let (a, b) = farthest_pair(px);
            best = try_seed(px, best, a, b);
        }
    }
    if span > 8 {
        let refit: Mode6Fit = mode6_refine(px, best);
        if refit.err <= best.err {
            best = refit;
        }
    }
    best
}

/// Each texel with channel `c` and alpha changed places.
pub open spec fn rotated(px: Seq<Seq<u8>>, c: int) -> Seq<Seq<u8>> {
    Seq::new(px.len(), |i: int| px[i].update(c, px[i][3]).update(3, px[i][c]))
}

/// The span of channel `c`.
pub open spec fn channel_span_of(px: Seq<Seq<u8>>, c: int) -> int {
    channel_high(px, c, 16) - channel_low(px, c, 16)
}

/// Whether colour channel `c` varies more than each of the others.
pub open spec fn stands_out(px: Seq<Seq<u8>>, c: int) -> bool {
    let s = channel_span_of(px, c);
    &&& s > 2
    &&& s > channel_span_of(px, 3)
    &&& s > channel_span_of(px, (c + 1) % 3)
    &&& s > channel_span_of(px, (c + 2) % 3)
}

/// The block in hand, or where channel `c` stands out the mode 5 block that
/// decouples it, if that errs less.
pub open spec fn rotation_step(px: Seq<Seq<u8>>, st: Scored, c: int) -> Scored {
    if stands_out(px, c) {
        better(st, mode5_block(rotated(px, c), c + 1))
    } else {
        st
    }
}

/// The block that BC7 encoding gives, and its error: mode 6; modes 5 and 4
/// where alpha varies; mode 1 where the block is opaque and a moderate error is
/// left; mode 5 with a channel that stands out decoupled.
pub open spec fn bc7_encoded(px: Seq<Seq<u8>>) -> Scored {
    let f = best_fit6(px);
    let st0 = (fit6_bytes(f), f.5);
    let st1 = if st0.1 > 0 && channel_span_of(px, 3) > 2 {
        better(better(st0, mode5_block(px, 0)), mode4_block(px))
    } else {
        st0
    };
    let st2 = if 4 < st1.1 <= 1024 && channel_low(px, 3, 16) == 255 {
        mode1_search(px, st1, 8)
    } else {
        st1
    };
    if st2.1 > 0 {
        rotation_step(px, rotation_step(px, rotation_step(px, st2, 0), 1), 2)
    } else {
        st2
    }
}

fn rotate(px: &[[u8; 4]; 16], c: usize) -> (r: [[u8; 4]; 16])
    requires
        c < 3,
    ensures
        rows(r) == rotated(rows(*px), c as int),
{
    let mut r: [[u8; 4]; 16] = *px;
    let mut i: usize = 0;
    while i < 16
        invariant
            i <= 16,
            c < 3,
            forall|k: int| 0 <= k < i ==> (#[trigger] r@[k])@ == rotated(rows(*px), c as int)[k],
            forall|k: int| i <= k < 16 ==> #[trigger] r@[k] == px@[k],
        decreases 16 - i,
    {
        let mut p: [u8; 4] = px[i];
        let t: u8 = p[3];
        p[3] = p[c];
        p[c] = t;
        proof {
            assert(p@ =~= rotated(rows(*px), c as int)[i as int]);
        }
        r[i] = p;
        i = i + 1;
    }
    proof {
        assert(rows(r) =~= rotated(rows(*px), c as int));
    }
    r
}

fn try_rotation(px: &[[u8; 4]; 16], span: u8, rest: u8, c: usize, best: &mut [u8; 16], best_err: &mut i64)
    requires
        c < 3,
        0 <= *old(best_err) <= 5000000,
        span > 2 && span > rest <==> stands_out(rows(*px), c as int),
    ensures
        (final(best)@, *final(best_err) as int) == rotation_step(
            rows(*px),
            (old(best)@, *old(best_err) as int),
            c as int,
        ),
        0 <= *final(best_err) <= *old(best_err),
{
    if span > 2 && span > rest {
        let r: [[u8; 4]; 16] = rotate(px, c);
        let seeds: ColorSeeds = ColorSeeds::new(&r);
        if let Some((b, e)) = try_bc7_mode5(&r, c as u8 + 1, &seeds, *best_err) {
            if e < *best_err {
                *best = b;
                *best_err = e;
            }
        }
    }
}

fn largest(a: u8, b: u8, c: u8) -> (m: u8)
    ensures
        m >= a,
        m >= b,
        m >= c,
        m == a || m == b || m == c,
{
    if a >= b && a >= c {
        a
    } else if b >= c {
        b
    } else {
        c
    }
}

/// Encodes one block as BC7, and gives its squared error.
pub fn encode_bc7_scored(px: &[[u8; 4]; 16]) -> (r: ([u8; 16], i64))
    ensures
        (r.0@, r.1 as int) == bc7_encoded(rows(*px)),
        0 <= r.1 <= 4161600,
{
    let f: Mode6Fit = encode_bc7_mode6_inner(px);
    let mut best: [u8; 16] = f.pack();
    let mut best_err: i64 = f.err;
    let (hi, lo) = channel_minmax_rgba(px);
    proof {
        assert(hi@[0] == channel_high(rows(*px), 0, 16) && lo@[0] == channel_low(rows(*px), 0, 16)) by {
            lemma_channel_bytes(rows(*px), 0, 16);
        }
        assert(hi@[1] == channel_high(rows(*px), 1, 16) && lo@[1] == channel_low(rows(*px), 1, 16)) by {
            lemma_channel_bytes(rows(*px), 1, 16);
        }
        assert(hi@[2] == channel_high(rows(*px), 2, 16) && lo@[2] == channel_low(rows(*px), 2, 16)) by {
            lemma_channel_bytes(rows(*px), 2, 16);
        }
        assert(hi@[3] == channel_high(rows(*px), 3, 16) && lo@[3] == channel_low(rows(*px), 3, 16)) by {
            lemma_channel_bytes(rows(*px), 3, 16);
        }
    }
    let s0: u8 = hi[0] - lo[0];
    let s1: u8 = hi[1] - lo[1];
    let s2: u8 = hi[2] - lo[2];
    let s3: u8 = hi[3] - lo[3];
    if best_err > 0 && s3 > 2 {
        let seeds: ColorSeeds = ColorSeeds::new(px);
        if let Some((b, e)) = try_bc7_mode5(px, 0, &seeds, best_err) {
            if e < best_err {
                best = b;
                best_err = e;
            }
        }
        if let Some((b, e)) = try_bc7_mode4(px, &seeds, best_err) {
            if e < best_err {
                best = b;
                best_err = e;
            }
        }
    }
    if best_err > 4 && best_err <= 1024 && lo[3] == 255 {
        let (b, e) = try_bc7_mode1(px, best, best_err);
        best = b;
        best_err = e;
    }
    if best_err > 0 {
        try_rotation(px, s0, largest(s3, s1, s2), 0, &mut best, &mut best_err);
        try_rotation(px, s1, largest(s3, s2, s0), 1, &mut best, &mut best_err);
        try_rotation(px, s2, largest(s3, s0, s1), 2, &mut best, &mut best_err);
    }
    (best, best_err)
}

proof fn lemma_channel_bytes(px: Seq<Seq<u8>>, c: int, n: nat)
    ensures
        0 <= channel_high(px, c, n) <= 255,
        0 <= channel_low(px, c, n) <= 255,
    decreases n,
{
    if n > 0 {
        lemma_channel_bytes(px, c, (n - 1) as nat);
    }
}

/// Encodes one block as BC7 into the first sixteen bytes of `out`, and gives
/// its squared error.
pub fn encode_bc7_mode6_scored(px: &[[u8; 4]; 16], out: &mut [u8]) -> (err: i64)
    requires
        old(out)@.len() >= 16,
    ensures
        final(out)@ == splice(old(out)@, 0, bc7_encoded(rows(*px)).0),
        err == bc7_encoded(rows(*px)).1,
        bc7_encoded(rows(*px)).0.len() == 16,
{
    let (b, e) = encode_bc7_scored(px);
    store(out, 0, &b);
    e
}

/// Encodes one block as BC7 into the first sixteen bytes of `out`.
pub fn encode_bc7_mode6(px: &[[u8; 4]; 16], out: &mut [u8])
    requires
        old(out)@.len() >= 16,
    ensures
        final(out)@ == splice(old(out)@, 0, bc7_encoded(rows(*px)).0),
        bc7_encoded(rows(*px)).0.len() == 16,
{
    let _ = encode_bc7_mode6_scored(px, out);
}

} // verus!
