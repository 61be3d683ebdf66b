//! Box-filtered mip levels.

use vstd::prelude::*;

use crate::error::Error;

verus! {

/// Half a side, but at least one.
pub open spec fn half_side(n: int) -> int {
    if n / 2 == 0 {
        1
    } else {
        n / 2
    }
}

/// How many texels of an axis of `n` a texel of the next level covers.
pub open spec fn reach(n: int) -> int {
    if n == 1 {
        1
    } else {
        2
    }
}

/// Channel `c` of texel `(x, y, z)`.
pub open spec fn texel_at(src: Seq<u8>, w: int, h: int, x: int, y: int, z: int, c: int) -> int {
    src[((z * h + y) * w + x) * 4 + c] as int
}

/// Tap `i` of eight under texel `(x, y, z)` of the next level; zero where the
/// source has no such texel.
pub open spec fn tap(src: Seq<u8>, w: int, h: int, d: int, x: int, y: int, z: int, c: int, i: int) -> int {
    let (dx, dy, dz) = (i % 2, i / 2 % 2, i / 4);
    if dx < reach(w) && dy < reach(h) && dz < reach(d) {
        texel_at(src, w, h, 2 * x + dx, 2 * y + dy, 2 * z + dz, c)
    } else {
        0
    }
}

/// The sum of the first `n` taps.
pub open spec fn tap_sum(src: Seq<u8>, w: int, h: int, d: int, x: int, y: int, z: int, c: int, n: nat) -> int
    decreases n,
{
    if n == 0 {
        0
    } else {
        tap_sum(src, w, h, d, x, y, z, c, (n - 1) as nat) + tap(src, w, h, d, x, y, z, c, n - 1)
    }
}

/// How many source texels a texel of the next level covers.
pub open spec fn box_size(w: int, h: int, d: int) -> int {
    reach(w) * reach(h) * reach(d)
}

/// Channel `c` of texel `(x, y, z)` of the next level: the mean of the source
/// texels it covers, rounded half up.
pub open spec fn box_mean(src: Seq<u8>, w: int, h: int, d: int, x: int, y: int, z: int, c: int) -> int {
    (tap_sum(src, w, h, d, x, y, z, c, 8) + box_size(w, h, d) / 2) / box_size(w, h, d)
}

/// The next mip level of an image.
pub open spec fn next_level(src: Seq<u8>, w: int, h: int, d: int) -> Seq<u8> {
    let (dw, dh, dd) = (half_side(w), half_side(h), half_side(d));
    Seq::new(
        (dw * dh * dd * 4) as nat,
        |k: int| box_mean(src, w, h, d, k / 4 % dw, k / 4 / dw % dh, k / 4 / dw / dh, k % 4) as u8,
    )
}

proof fn lemma_reach(n: int, x: int, i: int)
    requires
        n > 0,
        0 <= x < half_side(n),
        0 <= i < reach(n),
    ensures
        0 <= 2 * x + i < n,
{
}

proof fn lemma_texel_index(w: int, h: int, d: int, x: int, y: int, z: int)
    requires
        0 <= x < w,
        0 <= y < h,
        0 <= z < d,
    ensures
        0 <= z * h,
        0 <= (z * h + y) * w,
        z * h + y <= (z * h + y) * w,
        ((z * h + y) * w + x) * 4 + 3 < w * h * d * 4,
{
    let r = z * h + y;
    assert(0 <= z * h && r < h * d) by (nonlinear_arith)
        requires
            r == z * h + y,
            0 <= y < h,
            0 <= z < d,
    ;
    assert(0 <= r * w && r <= r * w && r * w + x < w * (h * d)) by (nonlinear_arith)
        requires
            0 <= r < h * d,
            0 <= x < w,
    ;
    assert(w * (h * d) == w * h * d) by (nonlinear_arith);
}

/// A tap is a byte.
proof fn lemma_tap_sum_bound(src: Seq<u8>, w: int, h: int, d: int, x: int, y: int, z: int, c: int, n: nat)
    ensures
        0 <= tap_sum(src, w, h, d, x, y, z, c, n) <= 255 * n,
    decreases n,
{
    if n > 0 {
        lemma_tap_sum_bound(src, w, h, d, x, y, z, c, (n - 1) as nat);
    }
}

/// Bounds on the sum of taps: the source texels that are there, each between
/// `lo` and `hi`.
proof fn lemma_taps_between(src: Seq<u8>, w: int, h: int, d: int, x: int, y: int, z: int, c: int, lo: int, hi: int)
    requires
        w > 0,
        h > 0,
        d > 0,
        0 <= lo <= hi <= 255,
        0 <= x < half_side(w),
        0 <= y < half_side(h),
        0 <= z < half_side(d),
        forall|xx: int, yy: int, zz: int|
            0 <= xx < w && 0 <= yy < h && 0 <= zz < d ==> lo <= #[trigger] texel_at(src, w, h, xx, yy, zz, c) <= hi,
    ensures
        lo * box_size(w, h, d) <= tap_sum(src, w, h, d, x, y, z, c, 8) <= hi * box_size(w, h, d),
{
    reveal_with_fuel(tap_sum, 9);
    let (rw, rh, rd) = (reach(w), reach(h), reach(d));
    assert forall|i: int| 0 <= i < 8 implies (if i % 2 < rw && i / 2 % 2 < rh && i / 4 < rd {
        lo <= #[trigger] tap(src, w, h, d, x, y, z, c, i) <= hi
    } else {
        tap(src, w, h, d, x, y, z, c, i) == 0
    }) by {
        if i % 2 < rw && i / 2 % 2 < rh && i / 4 < rd {
            lemma_reach(w, x, i % 2);
            lemma_reach(h, y, i / 2 % 2);
            lemma_reach(d, z, i / 4);
            assert(lo <= texel_at(src, w, h, 2 * x + i % 2, 2 * y + i / 2 % 2, 2 * z + i / 4, c) <= hi);
        }
    }
    let t = |i: int| tap(src, w, h, d, x, y, z, c, i);
    assert(tap_sum(src, w, h, d, x, y, z, c, 8) == t(0) + t(1) + t(2) + t(3) + t(4) + t(5) + t(6) + t(7));
    assert(rw == 1 || rw == 2);
    assert(rh == 1 || rh == 2);
    assert(rd == 1 || rd == 2);
    if rw == 1 {
        assert(t(1) == 0 && t(3) == 0 && t(5) == 0 && t(7) == 0);
    }
    if rh == 1 {
        assert(t(2) == 0 && t(3) == 0 && t(6) == 0 && t(7) == 0);
    }
    if rd == 1 {
        assert(t(4) == 0 && t(5) == 0 && t(6) == 0 && t(7) == 0);
    }
    assert(box_size(w, h, d) == 1 || box_size(w, h, d) == 2 || box_size(w, h, d) == 4 || box_size(w, h, d) == 8);
}

proof fn lemma_mean_between(s: int, n: int, lo: int, hi: int)
    requires
        n == 1 || n == 2 || n == 4 || n == 8,
        lo * n <= s <= hi * n,
    ensures
        lo <= (s + n / 2) / n <= hi,
{
}

/// A mip level stays within the range of the level above it: where a channel
/// lies between `lo` and `hi`, so does the channel of every texel of the next
/// level.
pub proof fn law_mean_stays_in_range(src: Seq<u8>, w: int, h: int, d: int, x: int, y: int, z: int, c: int, lo: int, hi: int)
    requires
        w > 0,
        h > 0,
        d > 0,
        0 <= lo <= hi <= 255,
        0 <= x < half_side(w),
        0 <= y < half_side(h),
        0 <= z < half_side(d),
        forall|xx: int, yy: int, zz: int|
            0 <= xx < w && 0 <= yy < h && 0 <= zz < d ==> lo <= #[trigger] texel_at(src, w, h, xx, yy, zz, c) <= hi,
    ensures
        lo <= box_mean(src, w, h, d, x, y, z, c) <= hi,
{
    lemma_taps_between(src, w, h, d, x, y, z, c, lo, hi);
    let n = box_size(w, h, d);
    assert(n == 1 || n == 2 || n == 4 || n == 8) by {
        assert(reach(w) == 1 || reach(w) == 2);
        assert(reach(h) == 1 || reach(h) == 2);
        assert(reach(d) == 1 || reach(d) == 2);
    }
    lemma_mean_between(tap_sum(src, w, h, d, x, y, z, c, 8), n, lo, hi);
}

/// A flat channel stays flat.
pub proof fn law_flat_stays_flat(src: Seq<u8>, w: int, h: int, d: int, x: int, y: int, z: int, c: int, v: int)
    requires
        w > 0,
        h > 0,
        d > 0,
        0 <= v <= 255,
        0 <= x < half_side(w),
        0 <= y < half_side(h),
        0 <= z < half_side(d),
        forall|xx: int, yy: int, zz: int|
            0 <= xx < w && 0 <= yy < h && 0 <= zz < d ==> #[trigger] texel_at(src, w, h, xx, yy, zz, c) == v,
    ensures
        box_mean(src, w, h, d, x, y, z, c) == v,
{
    law_mean_stays_in_range(src, w, h, d, x, y, z, c, v, v);
}

/// A single texel is its own next level.
pub proof fn law_single_texel_is_fixed(src: Seq<u8>)
    requires
        src.len() == 4,
    ensures
        next_level(src, 1, 1, 1) == src,
{
    assert forall|k: int| 0 <= k < 4 implies next_level(src, 1, 1, 1)[k] == src[k] by {
        reveal_with_fuel(tap_sum, 9);
        assert(k / 4 == 0 && k % 4 == k);
        assert(tap(src, 1, 1, 1, 0, 0, 0, k, 0) == src[k]);
        assert(tap_sum(src, 1, 1, 1, 0, 0, 0, k, 8) == src[k]);
        assert(box_size(1, 1, 1) == 1);
        assert(box_mean(src, 1, 1, 1, 0, 0, 0, k) == src[k]);
        let one = half_side(1);
        assert(one == 1 && 0int % one == 0 && 0int / one == 0);
        assert(next_level(src, 1, 1, 1)[k] == box_mean(src, 1, 1, 1, 0, 0, 0, k) as u8);
    }
    assert(next_level(src, 1, 1, 1) =~= src);
}

fn half(n: u32) -> (r: usize)
    ensures
        r == half_side(n as int),
{
    if n / 2 == 0 {
        1
    } else {
        (n / 2) as usize
    }
}

fn taps_over(n: u32) -> (r: usize)
    requires
        n > 0,
    ensures
        r == reach(n as int),
        r == 1 || r == 2,
{
    if n == 1 {
        1
    } else {
        2
    }
}

fn mean_at(src: &[u8], width: u32, height: u32, depth: u32, x: usize, y: usize, z: usize, c: usize) -> (v: u8)
    requires
        width > 0,
        height > 0,
        depth > 0,
        c < 4,
        x < half_side(width as int),
        y < half_side(height as int),
        z < half_side(depth as int),
        src@.len() >= width * height * depth * 4,
    ensures
        v == box_mean(
            src@,
            width as int,
            height as int,
            depth as int,
            x as int,
            y as int,
            z as int,
            c as int,
        ),
{
    let len: usize = src.len();
    let (w, h, d): (usize, usize, usize) = (width as usize, height as usize, depth as usize);
    let (rw, rh, rd): (usize, usize, usize) = (taps_over(width), taps_over(height), taps_over(depth));
    let mut acc: u32 = 0;
    let mut i: usize = 0;
    while i < 8
        invariant
            i <= 8,
            len == src@.len(),
            w == width,
            h == height,
            d == depth,
            w > 0,
            h > 0,
            d > 0,
            c < 4,
            rw == reach(w as int),
            rh == reach(h as int),
            rd == reach(d as int),
            x < half_side(w as int),
            y < half_side(h as int),
            z < half_side(d as int),
            src@.len() >= w * h * d * 4,
            acc <= 255 * i,
            acc == tap_sum(src@, w as int, h as int, d as int, x as int, y as int, z as int, c as int, i as nat),
        decreases 8 - i,
    {
        let (dx, dy, dz): (usize, usize, usize) = (i % 2, i / 2 % 2, i / 4);
        if dx < rw && dy < rh && dz < rd {
            proof {
                lemma_reach(w as int, x as int, dx as int);
                lemma_reach(h as int, y as int, dy as int);
                lemma_reach(d as int, z as int, dz as int);
                lemma_texel_index(w as int, h as int, d as int, 2 * x + dx, 2 * y + dy, 2 * z + dz);
            }
            let k: usize = (((2 * z + dz) * h + (2 * y + dy)) * w + (2 * x + dx)) * 4 + c;
            acc = acc + src[k] as u32;
        }
        i = i + 1;
    }
    proof {
        assert(rw * rh == 1 || rw * rh == 2 || rw * rh == 4) by (nonlinear_arith)
            requires
                rw == 1 || rw == 2,
                rh == 1 || rh == 2,
        ;
        let a = rw * rh;
        assert(a * rd == 1 || a * rd == 2 || a * rd == 4 || a * rd == 8) by (nonlinear_arith)
            requires
                a == 1 || a == 2 || a == 4,
                rd == 1 || rd == 2,
        ;
    }
    let n: u32 = (rw * rh * rd) as u32;
    proof {
        let ghost (wi, hi, di) = (w as int, h as int, d as int);
        assert forall|xx: int, yy: int, zz: int|
            0 <= xx < wi && 0 <= yy < hi && 0 <= zz < di implies 0 <= #[trigger] texel_at(
            src@,
            wi,
            hi,
            xx,
            yy,
            zz,
            c as int,
        ) <= 255 by {}
        law_mean_stays_in_range(src@, wi, hi, di, x as int, y as int, z as int, c as int, 0, 255);
    }
    ((acc + n / 2) / n) as u8
}

pub proof fn lemma_output_position(dw: int, dh: int, x: int, y: int, z: int, c: int, k: int)
    requires
        0 <= x < dw,
        0 <= y < dh,
        0 <= z,
        0 <= c < 4,
        k == ((z * dh + y) * dw + x) * 4 + c,
    ensures
        k % 4 == c,
        k / 4 % dw == x,
        k / 4 / dw % dh == y,
        k / 4 / dw / dh == z,
{
    let t = (z * dh + y) * dw + x;
    assert(k / 4 == t && k % 4 == c);
    vstd::arithmetic::div_mod::lemma_fundamental_div_mod_converse(t, dw, z * dh + y, x);
    vstd::arithmetic::div_mod::lemma_fundamental_div_mod_converse(z * dh + y, dh, z, y);
}

/// The next mip level, into a buffer that is made to fit and fully
/// overwritten.
pub fn downsample_rgba8_into(src: &[u8], width: u32, height: u32, depth: u32, out_buf: &mut Vec<u8>) -> (r: Result<(), Error>)
    requires
        width > 0,
        height > 0,
        depth > 0,
        src@.len() >= width * height * depth * 4,
    ensures
        r is Ok,
        final(out_buf)@ == next_level(src@, width as int, height as int, depth as int),
{
    let _len: usize = src.len();
    let (dw, dh, dd): (usize, usize, usize) = (half(width), half(height), half(depth));
    out_buf.clear();
    let ghost want = next_level(src@, width as int, height as int, depth as int);
    let ghost all = dw * dh * dd * 4;
    proof {
        assert(dw * dh * dd * 4 <= width * height * depth * 4 && 0 <= dw * dh * dd) by {
            let (a, b, c) = (dw as int, dh as int, dd as int);
            let (w, h, d) = (width as int, height as int, depth as int);
            assert(0 <= a * b <= w * h) by (nonlinear_arith)
                requires
                    0 <= a <= w,
                    0 <= b <= h,
            ;
            assert(0 <= a * b * c <= w * h * d) by (nonlinear_arith)
                requires
                    0 <= a * b <= w * h,
                    0 <= c <= d,
            ;
        }
        assert(0 * dh == 0 && (0 * dh) * dw == 0) by (nonlinear_arith);
    }
    let mut z: usize = 0;
    while z < dd
        invariant
            z <= dd,
            width > 0,
            height > 0,
            depth > 0,
            src@.len() >= width * height * depth * 4,
            dw == half_side(width as int),
            dh == half_side(height as int),
            dd == half_side(depth as int),
            want == next_level(src@, width as int, height as int, depth as int),
            want.len() == dw * dh * dd * 4,
            out_buf@.len() == (z * dh) * dw * 4,
            out_buf@.len() <= want.len(),
            forall|k: int| 0 <= k < out_buf@.len() ==> #[trigger] out_buf@[k] == want[k],
        decreases dd - z,
    {
        let mut y: usize = 0;
        while y < dh
            invariant
                z < dd,
                y <= dh,
                width > 0,
                height > 0,
                depth > 0,
                src@.len() >= width * height * depth * 4,
                dw == half_side(width as int),
                dh == half_side(height as int),
                dd == half_side(depth as int),
                want == next_level(src@, width as int, height as int, depth as int),
                want.len() == dw * dh * dd * 4,
                out_buf@.len() == (z * dh + y) * dw * 4,
                out_buf@.len() <= want.len(),
                forall|k: int| 0 <= k < out_buf@.len() ==> #[trigger] out_buf@[k] == want[k],
            decreases dh - y,
        {
            let mut x: usize = 0;
            while x < dw
                invariant
                    z < dd,
                    y < dh,
                    x <= dw,
                    width > 0,
                    height > 0,
                    depth > 0,
                    src@.len() >= width * height * depth * 4,
                    dw == half_side(width as int),
                    dh == half_side(height as int),
                    dd == half_side(depth as int),
                    want == next_level(src@, width as int, height as int, depth as int),
                    want.len() == dw * dh * dd * 4,
                    out_buf@.len() == ((z * dh + y) * dw + x) * 4,
                    out_buf@.len() <= want.len(),
                    forall|k: int| 0 <= k < out_buf@.len() ==> #[trigger] out_buf@[k] == want[k],
                decreases dw - x,
            {
                proof {
                    lemma_texel_index(dw as int, dh as int, dd as int, x as int, y as int, z as int);
                }
                let mut c: usize = 0;
                while c < 4
                    invariant
                        z < dd,
                        y < dh,
                        x < dw,
                        c <= 4,
                        width > 0,
                        height > 0,
                        depth > 0,
                        src@.len() >= width * height * depth * 4,
                        dw == half_side(width as int),
                        dh == half_side(height as int),
                        dd == half_side(depth as int),
                        want == next_level(src@, width as int, height as int, depth as int),
                        want.len() == dw * dh * dd * 4,
                        out_buf@.len() == ((z * dh + y) * dw + x) * 4 + c,
                        ((z * dh + y) * dw + x) * 4 + 3 < want.len(),
                        forall|k: int| 0 <= k < out_buf@.len() ==> #[trigger] out_buf@[k] == want[k],
                    decreases 4 - c,
                {
                    proof {
                        lemma_output_position(
                            dw as int,
                            dh as int,
                            x as int,
                            y as int,
                            z as int,
                            c as int,
                            out_buf@.len() as int,
                        );
                    }
                    let v: u8 = mean_at(src, width, height, depth, x, y, z, c);
                    let ghost before = out_buf@;
                    out_buf.push(v);
                    proof {
                        assert(want[before.len() as int] == v);
                        assert forall|k: int| 0 <= k < out_buf@.len() implies #[trigger] out_buf@[k] == want[k] by {
                            if k < before.len() {
                                assert(before[k] == want[k]);
                            }
                        }
                    }
                    c = c + 1;
                }
                x = x + 1;
            }
            proof {
                assert((z * dh + y) * dw + dw == (z * dh + (y + 1)) * dw) by (nonlinear_arith);
                assert((z * dh + (y + 1)) * dw <= dw * dh * dd) by (nonlinear_arith)
                    requires
                        z + 1 <= dd,
                        y + 1 <= dh,
                        0 <= z,
                        0 <= dw,
                        0 <= dh,
                ;
            }
            y = y + 1;
        }
        proof {
            assert(z * dh + dh == (z + 1) * dh) by (nonlinear_arith);
        }
        z = z + 1;
    }
    proof {
        assert((dd * dh) * dw * 4 == dw * dh * dd * 4) by (nonlinear_arith);
        assert(out_buf@ =~= want);
    }
    Ok(())
}

/// The next mip level.
pub fn downsample_rgba8(src: &[u8], width: u32, height: u32, depth: u32) -> (r: Result<Vec<u8>, Error>)
    requires
        width > 0,
        height > 0,
        depth > 0,
        src@.len() >= width * height * depth * 4,
    ensures
        r matches Ok(v) && v@ == next_level(src@, width as int, height as int, depth as int),
{
    let mut out: Vec<u8> = Vec::new();
    match downsample_rgba8_into(src, width, height, depth, &mut out) {
        Ok(_) => Ok(out),
        Err(e) => Err(e),
    }
}

} // verus!
