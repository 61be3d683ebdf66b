//! What the mip levels of a layout are made of.

use vstd::prelude::*;

use crate::encode::mips::{box_mean, box_size, half_side, law_mean_stays_in_range, lemma_output_position, next_level, reach, tap, tap_sum, texel_at};
use crate::encode::{lemma_level_len, level_pixels, EncodeLayout};
use crate::surface::{law_side_is_halved, mip_side};

verus! {

/// Channel `c` of texel `(x, y, z)` of an image of `w` by `h` texels a slice.
pub open spec fn at(image: Seq<u8>, w: int, h: int, x: int, y: int, z: int, c: int) -> int {
    image[((z * h + y) * w + x) * 4 + c] as int
}

/// The texel that lies `i`, `j`, `k` past twice `(x, y, z)`, as often as it is
/// there: not at all past a side of one.
pub open spec fn under(image: Seq<u8>, s: (int, int, int), x: int, y: int, z: int, c: int, i: int, j: int, k: int) -> int {
    if (i == 0 || s.0 > 1) && (j == 0 || s.1 > 1) && (k == 0 || s.2 > 1) {
        at(image, s.0, s.1, 2 * x + i, 2 * y + j, 2 * z + k, c)
    } else {
        0
    }
}

/// The sum of the texels under `(x, y, z)`.
pub open spec fn sum_under(image: Seq<u8>, s: (int, int, int), x: int, y: int, z: int, c: int) -> int {
    under(image, s, x, y, z, c, 0, 0, 0) + under(image, s, x, y, z, c, 1, 0, 0) + under(image, s, x, y, z, c, 0, 1, 0)
        + under(image, s, x, y, z, c, 1, 1, 0) + under(image, s, x, y, z, c, 0, 0, 1) + under(
        image,
        s,
        x,
        y,
        z,
        c,
        1,
        0,
        1,
    ) + under(image, s, x, y, z, c, 0, 1, 1) + under(image, s, x, y, z, c, 1, 1, 1)
}

/// Two, but one along a side of one.
pub open spec fn texels_along(n: int) -> int {
    if n > 1 {
        2
    } else {
        1
    }
}

/// Halving an image: each texel of the half is the mean of the texels it covers,
/// rounded to nearest, halves up.
pub proof fn law_half_is_the_mean(image: Seq<u8>, w: int, h: int, d: int, x: int, y: int, z: int, c: int)
    requires
        w > 0,
        h > 0,
        d > 0,
        0 <= x && (2 * x + 1 < w || x == 0),
        0 <= y && (2 * y + 1 < h || y == 0),
        0 <= z && (2 * z + 1 < d || z == 0),
        0 <= c < 4,
    ensures
        ({
            let (a, b) = (if w > 1 {
                w / 2
            } else {
                1
            }, if h > 1 {
                h / 2
            } else {
                1
            });
            let n = texels_along(w) * texels_along(h) * texels_along(d);
            let got = at(next_level(image, w, h, d), a, b, x, y, z, c);
            let sum = sum_under(image, (w, h, d), x, y, z, c);
            n * got <= sum + n / 2 < n * got + n
        }),
        next_level(image, w, h, d).len() == half_side(w) * half_side(h) * half_side(d) * 4,
{
    let (dw, dh, dd) = (half_side(w), half_side(h), half_side(d));
    let k = ((z * dh + y) * dw + x) * 4 + c;
    assert(0 <= x < dw && 0 <= y < dh && 0 <= z < dd);
    lemma_output_position(dw, dh, x, y, z, c, k);
    assert(0 <= k < dw * dh * dd * 4) by (nonlinear_arith)
        requires
            k == ((z * dh + y) * dw + x) * 4 + c,
            0 <= x < dw,
            0 <= y < dh,
            0 <= z < dd,
            0 <= c < 4,
    ;
    let m = box_mean(image, w, h, d, x, y, z, c);
    assert forall|xx: int, yy: int, zz: int|
        0 <= xx < w && 0 <= yy < h && 0 <= zz < d implies 0 <= #[trigger] texel_at(image, w, h, xx, yy, zz, c) <= 255 by {}
    law_mean_stays_in_range(image, w, h, d, x, y, z, c, 0, 255);
    assert(next_level(image, w, h, d)[k] == m as u8);
    lemma_taps(image, w, h, d, x, y, z, c);
    let n = texels_along(w) * texels_along(h) * texels_along(d);
    lemma_counts(w, h, d);
    let sum = sum_under(image, (w, h, d), x, y, z, c);
    lemma_rounded(sum + n / 2, n, m);
    let (a, b) = (if w > 1 {
        w / 2
    } else {
        1
    }, if h > 1 {
        h / 2
    } else {
        1
    });
    assert(a == dw && b == dh);
    assert(at(next_level(image, w, h, d), a, b, x, y, z, c) == m);
}

proof fn lemma_rounded(s: int, n: int, m: int)
    requires
        n == 1 || n == 2 || n == 4 || n == 8,
        m == s / n,
    ensures
        n * m <= s < n * m + n,
{
}

proof fn lemma_counts(w: int, h: int, d: int)
    requires
        w > 0,
        h > 0,
        d > 0,
    ensures
        ({
            let n = texels_along(w) * texels_along(h) * texels_along(d);
            n == box_size(w, h, d) && (n == 1 || n == 2 || n == 4 || n == 8)
        }),
{
    assert(reach(w) == texels_along(w) && reach(h) == texels_along(h) && reach(d) == texels_along(d));
}

proof fn lemma_taps(image: Seq<u8>, w: int, h: int, d: int, x: int, y: int, z: int, c: int)
    requires
        w > 0,
        h > 0,
        d > 0,
    ensures
        tap_sum(image, w, h, d, x, y, z, c, 8) == sum_under(image, (w, h, d), x, y, z, c),
{
    reveal_with_fuel(tap_sum, 9);
    let s = (w, h, d);
    assert(tap(image, w, h, d, x, y, z, c, 0) == under(image, s, x, y, z, c, 0, 0, 0));
    assert(tap(image, w, h, d, x, y, z, c, 1) == under(image, s, x, y, z, c, 1, 0, 0));
    assert(tap(image, w, h, d, x, y, z, c, 2) == under(image, s, x, y, z, c, 0, 1, 0));
    assert(tap(image, w, h, d, x, y, z, c, 3) == under(image, s, x, y, z, c, 1, 1, 0));
    assert(tap(image, w, h, d, x, y, z, c, 4) == under(image, s, x, y, z, c, 0, 0, 1));
    assert(tap(image, w, h, d, x, y, z, c, 5) == under(image, s, x, y, z, c, 1, 0, 1));
    assert(tap(image, w, h, d, x, y, z, c, 6) == under(image, s, x, y, z, c, 0, 1, 1));
    assert(tap(image, w, h, d, x, y, z, c, 7) == under(image, s, x, y, z, c, 1, 1, 1));
}

impl EncodeLayout {
    /// The first level of a layer is the layer's own stretch of the pixels.
    pub proof fn law_first_level_is_the_source(self, pixels: Seq<u8>, layer: int)
        ensures
            ({
                let n = self.width * self.height * self.depth * 4;
                self.mip_pixels(pixels, layer, 0) == pixels.subrange(layer * n, layer * n + n)
            }),
    {
    }

    /// Every further level is half the one before it: each of its texels,
    /// addressed by the level's own sides, is the mean of the texels under it,
    /// addressed by the sides of the level before.
    pub proof fn law_levels_are_halved(self, pixels: Seq<u8>, layer: int, m: u32, x: int, y: int, z: int, c: int)
        requires
            0 < m,
            self.width > 0,
            self.height > 0,
            self.depth > 0,
            0 <= x < mip_side(self.width, m),
            0 <= y < mip_side(self.height, m),
            0 <= z < mip_side(self.depth, m),
            0 <= c < 4,
        ensures
            ({
                let k = (m - 1) as u32;
                let s = (
                    mip_side(self.width, k) as int,
                    mip_side(self.height, k) as int,
                    mip_side(self.depth, k) as int,
                );
                let above = self.mip_pixels(pixels, layer, k as nat);
                let n = texels_along(s.0) * texels_along(s.1) * texels_along(s.2);
                let got = at(
                    self.mip_pixels(pixels, layer, m as nat),
                    mip_side(self.width, m) as int,
                    mip_side(self.height, m) as int,
                    x,
                    y,
                    z,
                    c,
                );
                n * got <= sum_under(above, s, x, y, z, c) + n / 2 < n * got + n
            }),
    {
        let k = (m - 1) as u32;
        law_side_is_halved(self.width, k);
        law_side_is_halved(self.height, k);
        law_side_is_halved(self.depth, k);
        law_half_is_the_mean(
            self.mip_pixels(pixels, layer, k as nat),
            mip_side(self.width, k) as int,
            mip_side(self.height, k) as int,
            mip_side(self.depth, k) as int,
            x,
            y,
            z,
            c,
        );
    }

    /// A level has four bytes for every texel of its own sides.
    pub proof fn law_level_has_its_texels(self, pixels: Seq<u8>, layer: int, m: u32)
        requires
            self.width > 0,
            self.height > 0,
            self.depth > 0,
            0 <= layer,
            (layer + 1) * (self.width * self.height * self.depth * 4) <= pixels.len(),
        ensures
            self.mip_pixels(pixels, layer, m as nat).len() == mip_side(self.width, m) * mip_side(self.height, m) * mip_side(
                self.depth,
                m,
            ) * 4,
    {
        let n = self.width * self.height * self.depth * 4;
        assert(0 <= n && 0 <= layer * n && layer * n + n == (layer + 1) * n) by (nonlinear_arith)
            requires
                n == self.width * self.height * self.depth * 4,
                self.width > 0,
                self.height > 0,
                self.depth > 0,
                layer >= 0,
        ;
        lemma_level_len(self.layer_pixels(pixels, layer), self.width, self.height, self.depth, m);
    }
}

/// In a 2D image whose columns are each of one value in a channel, so are the
/// columns of every level.
pub proof fn law_constant_columns_stay_constant(src: Seq<u8>, w: u32, h: u32, m: u32, x: int, y: int, c: int)
    requires
        w > 0,
        h > 0,
        src.len() == w * h * 1 * 4,
        forall|u: int, v: int| 0 <= u < w && 0 <= v < h ==> #[trigger] at(src, w as int, h as int, u, v, 0, c) == at(
            src,
            w as int,
            h as int,
            u,
            0,
            0,
            c,
        ),
        0 <= x < mip_side(w, m),
        0 <= y < mip_side(h, m),
        0 <= c < 4,
    ensures
        ({
            let level = level_pixels(src, w, h, 1, m as nat);
            let (a, b) = (mip_side(w, m) as int, mip_side(h, m) as int);
            at(level, a, b, x, y, 0, c) == at(level, a, b, x, 0, 0, c)
        }),
    decreases m,
{
    if m == 0 {
        reveal_with_fuel(mip_side, 1);
    } else {
        let k = (m - 1) as u32;
        law_side_is_halved(w, k);
        law_side_is_halved(h, k);
        let one = mip_side(1, k);
        lemma_one_stays(k);
        let (p, q) = (mip_side(w, k) as int, mip_side(h, k) as int);
        let above = level_pixels(src, w, h, 1, k as nat);
        law_half_is_the_mean(above, p, q, 1, x, y, 0, c);
        law_half_is_the_mean(above, p, q, 1, x, 0, 0, c);
        assert forall|u: int, v: int| 0 <= u < p && 0 <= v < q implies #[trigger] at(above, p, q, u, v, 0, c) == at(
            above,
            p,
            q,
            u,
            0,
            0,
            c,
        ) by {
            law_constant_columns_stay_constant(src, w, h, k, u, v, c);
        }
        let s = (p, q, 1int);
        assert(under(above, s, x, y, 0, c, 0, 0, 0) == under(above, s, x, 0, 0, c, 0, 0, 0));
        assert(under(above, s, x, y, 0, c, 1, 0, 0) == under(above, s, x, 0, 0, c, 1, 0, 0));
        assert(under(above, s, x, y, 0, c, 0, 1, 0) == under(above, s, x, 0, 0, c, 0, 1, 0));
        assert(under(above, s, x, y, 0, c, 1, 1, 0) == under(above, s, x, 0, 0, c, 1, 1, 0));
        lemma_counts(p, q, 1);
        let n = texels_along(p) * texels_along(q) * texels_along(1);
        lemma_same_mean(
            n,
            sum_under(above, s, x, y, 0, c),
            at(level_pixels(src, w, h, 1, m as nat), mip_side(w, m) as int, mip_side(h, m) as int, x, y, 0, c),
            at(level_pixels(src, w, h, 1, m as nat), mip_side(w, m) as int, mip_side(h, m) as int, x, 0, 0, c),
        );
    }
}

proof fn lemma_same_mean(n: int, s: int, a: int, b: int)
    requires
        n == 1 || n == 2 || n == 4 || n == 8,
        n * a <= s + n / 2 < n * a + n,
        n * b <= s + n / 2 < n * b + n,
    ensures
        a == b,
{
}

proof fn lemma_one_stays(m: u32)
    ensures
        mip_side(1, m) == 1,
    decreases m,
{
    if m > 0 {
        law_side_is_halved(1, (m - 1) as u32);
        lemma_one_stays((m - 1) as u32);
    }
}

} // verus!
