//! Decoders: from DDS payloads to tightly packed RGBA pixels.
//!
//! Channel bytes come out as stored: formats tagged sRGB are not converted to
//! linear light.

use vstd::prelude::*;

use std::ops::Range;

use crate::content::{product3, slice_bytes, slice_payload_bytes, DecodeContent, HdrDecodeContent, ImageRgba8, ImageRgbaF32};
use crate::dds::{DdsBase, Payload};
use crate::decode::bc6h::{bc6h_outcome, bc6h_pixels, decode_bc6h};
use crate::decode::bcn::{alloc_outcome, block_rgba, decode_blocks, decode_blocks_into, decode_outcome, surface_pixels, tiled_texel};
use crate::decode::uncompressed::{decode_bgra8, decode_bgra8_into, decode_rgba8, decode_rgba8_into, plain_outcome, plain_outcome_into};
use crate::error::Error;
use crate::encode::blocks::{block_count, blocks_across};
use crate::surface::{lemma_mip_side_step, SubresourceId, SurfaceView};
use crate::swizzle::swapped;

pub mod bc6h;
pub mod bcdec;
pub mod bcn;
pub mod laws;
pub mod reference;
pub mod uncompressed;

verus! {

/// The RGBA8 pixels of one slice.
pub open spec fn slice_pixels(kind: DecodeContent, data: Seq<u8>, w: int, h: int) -> Seq<u8> {
    match kind {
        DecodeContent::Rgba8 => data.take(w * h * 4),
        DecodeContent::Bgra8 => swapped(data.take(w * h * 4)),
        _ => surface_pixels(kind, data, w, h),
    }
}

/// Whether the decode of one slice into a buffer succeeds, and if not, why.
pub open spec fn slice_outcome_into(kind: DecodeContent, len: int, w: int, h: int, out_len: int) -> Result<(), Error> {
    match kind {
        DecodeContent::Rgba8 | DecodeContent::Bgra8 => plain_outcome_into(len, w, h, out_len),
        _ => decode_outcome(kind, len, w, h, out_len),
    }
}

/// Whether the decode of one slice succeeds, and if not, why.
pub open spec fn slice_outcome(kind: DecodeContent, len: int, w: int, h: int) -> Result<(), Error> {
    match kind {
        DecodeContent::Rgba8 | DecodeContent::Bgra8 => plain_outcome(len, w, h),
        _ => alloc_outcome(kind, len, w, h),
    }
}

/// Decodes one slice into caller memory, which must be exactly
/// `width * height * 4` bytes.
pub fn decode_slice_into(kind: DecodeContent, data: &[u8], width: u32, height: u32, out: &mut [u8]) -> (r: Result<
    (),
    Error,
>)
    ensures
        r == slice_outcome_into(kind, data@.len() as int, width as int, height as int, old(out)@.len() as int),
        r is Ok ==> final(out)@ == slice_pixels(kind, data@, width as int, height as int),
        r is Err ==> final(out)@ == old(out)@,
{
    match kind {
        DecodeContent::Rgba8 => decode_rgba8_into(data, width, height, out),
        DecodeContent::Bgra8 => decode_bgra8_into(data, width, height, out),
        _ => decode_blocks_into(kind, data, width, height, out),
    }
}

/// Decodes one slice.
pub fn decode_slice(kind: DecodeContent, data: &[u8], width: u32, height: u32) -> (r: Result<Vec<u8>, Error>)
    ensures
        r matches Ok(v) ==> slice_outcome(kind, data@.len() as int, width as int, height as int) is Ok && v@
            == slice_pixels(kind, data@, width as int, height as int),
        r matches Err(e) ==> slice_outcome(kind, data@.len() as int, width as int, height as int) == Err::<(), Error>(e),
{
    match kind {
        DecodeContent::Rgba8 => decode_rgba8(data, width, height),
        DecodeContent::Bgra8 => decode_bgra8(data, width, height),
        _ => decode_blocks(kind, data, width, height),
    }
}

/// The RGBA8 pixels of the first `n` slices of a volume, stacked.
pub open spec fn stacked_pixels(kind: DecodeContent, data: Seq<u8>, w: int, h: int, n: nat) -> Seq<u8>
    decreases n,
{
    if n == 0 {
        Seq::empty()
    } else {
        let z = n - 1;
        let s = slice_bytes(kind, w, h);
        stacked_pixels(kind, data, w, h, (n - 1) as nat) + slice_pixels(kind, data.subrange(z * s, z * s + s), w, h)
    }
}

/// The RGBA8 pixels of a surface: one slice, or the slices of a volume stacked.
pub open spec fn decoded_pixels(kind: DecodeContent, data: Seq<u8>, w: int, h: int, d: int) -> Seq<u8> {
    if d == 1 {
        slice_pixels(kind, data, w, h)
    } else {
        stacked_pixels(kind, data, w, h, d as nat)
    }
}

/// Whether the decode of a surface succeeds, and if not, why.
pub open spec fn surface_outcome(kind: DecodeContent, len: int, w: int, h: int, d: int) -> Result<(), Error> {
    let s = slice_bytes(kind, w, h);
    if d == 0 {
        Err(Error::InvalidField("zero depth"))
    } else if d == 1 {
        slice_outcome(kind, len, w, h)
    } else if w == 0 || h == 0 {
        Err(Error::InvalidField("zero image dimension"))
    } else if s > usize::MAX || s * d > usize::MAX {
        Err(Error::OutOfBounds)
    } else if len < s * d {
        Err(Error::TruncatedData)
    } else {
        slice_outcome(kind, s, w, h)
    }
}

/// Decodes a surface: one slice, or every slice of a volume, stacked.
pub fn decode_surface_pixels(kind: DecodeContent, data: &[u8], width: u32, height: u32, depth: u32) -> (r: Result<
    Vec<u8>,
    Error,
>)
    ensures
        r matches Ok(v) ==> surface_outcome(kind, data@.len() as int, width as int, height as int, depth as int) is Ok
            && v@ == decoded_pixels(kind, data@, width as int, height as int, depth as int),
        r matches Err(e) ==> surface_outcome(kind, data@.len() as int, width as int, height as int, depth as int)
            == Err::<(), Error>(e),
{
    if depth == 0 {
        return Err(Error::InvalidField("zero depth"));
    }
    if depth == 1 {
        return decode_slice(kind, data, width, height);
    }
    let s: usize = match slice_payload_bytes(kind, width, height) {
        Ok(s) => s,
        Err(e) => {
            return Err(e);
        },
    };
    let need: usize = match s.checked_mul(depth as usize) {
        Some(n) => n,
        None => {
            return Err(Error::OutOfBounds);
        },
    };
    if data.len() < need {
        return Err(Error::TruncatedData);
    }
    let mut out: Vec<u8> = Vec::new();
    let mut z: u32 = 0;
    while z < depth
        invariant
            z <= depth,
            depth > 1,
            width > 0,
            height > 0,
            s == slice_bytes(kind, width as int, height as int),
            need == s * depth,
            data@.len() >= need,
            need <= usize::MAX,
            surface_outcome(kind, data@.len() as int, width as int, height as int, depth as int) == slice_outcome(
                kind,
                s as int,
                width as int,
                height as int,
            ),
            z > 0 ==> slice_outcome(kind, s as int, width as int, height as int) is Ok,
            out@ == stacked_pixels(kind, data@, width as int, height as int, z as nat),
        decreases depth - z,
    {
        proof {
            assert(0 <= z * s && z * s + s <= s * depth) by (nonlinear_arith)
                requires
                    0 <= z,
                    z + 1 <= depth,
                    s >= 0,
            ;
        }
        let at: usize = (z as usize) * s;
        match decode_slice(kind, vstd::slice::slice_subrange(data, at, at + s), width, height) {
            Ok(mut v) => {
                out.append(&mut v);
            },
            Err(e) => {
                return Err(e);
            },
        }
        z = z + 1;
    }
    Ok(out)
}

/// A decoded slice has four bytes for every pixel.
pub proof fn lemma_slice_pixels_len(kind: DecodeContent, data: Seq<u8>, w: int, h: int)
    requires
        0 <= w * h * 4,
        data.len() >= slice_bytes(kind, w, h),
    ensures
        slice_pixels(kind, data, w, h).len() == w * h * 4,
{
}

/// Pixel rows of one row of blocks.
pub open spec fn rows_per_block(kind: DecodeContent) -> int {
    if kind.block_size() is Some {
        4
    } else {
        1
    }
}

/// Payload bytes of one row of blocks.
pub open spec fn row_bytes(kind: DecodeContent, w: int) -> int {
    match kind.block_size() {
        Some(b) => block_count(w) * b,
        None => w * 4,
    }
}

/// Rows of blocks that cover `h` pixel rows.
pub open spec fn block_row_count(kind: DecodeContent, h: int) -> int {
    if kind.block_size() is Some {
        block_count(h)
    } else {
        h
    }
}

/// The first pixel row after the rows of blocks before `row`.
pub open spec fn row_edge(kind: DecodeContent, h: int, row: int) -> int {
    if row * rows_per_block(kind) < h {
        row * rows_per_block(kind)
    } else {
        h
    }
}

/// Pixel rows per row of blocks: four for BCn, else one.
pub fn block_height(kind: DecodeContent) -> (n: u32)
    ensures
        n == rows_per_block(kind),
{
    match kind {
        DecodeContent::Rgba8 | DecodeContent::Bgra8 => 1,
        _ => 4,
    }
}

/// Payload bytes of one row of blocks.
pub fn block_row_bytes(kind: DecodeContent, width: u32) -> (r: Result<usize, Error>)
    ensures
        row_bytes(kind, width as int) > usize::MAX ==> r == Err::<usize, Error>(Error::OutOfBounds),
        row_bytes(kind, width as int) <= usize::MAX ==> r == Ok::<usize, Error>(row_bytes(kind, width as int) as usize),
{
    let (n, per): (usize, usize) = match kind.block_bytes() {
        Some(b) => (blocks_across(width as usize), b),
        None => (width as usize, 4),
    };
    match n.checked_mul(per) {
        Some(b) => Ok(b),
        None => Err(Error::OutOfBounds),
    }
}

proof fn lemma_part_of_tiles(kind: DecodeContent, data: Seq<u8>, w: int, h: int, a: int, b: int)
    requires
        w > 0,
        h > 0,
        kind.block_size() is Some,
        0 <= a < b <= block_count(h),
        data.len() >= b * row_bytes(kind, w),
    ensures
        surface_pixels(
            kind,
            data.subrange(a * row_bytes(kind, w), b * row_bytes(kind, w)),
            w,
            row_edge(kind, h, b) - row_edge(kind, h, a),
        ) == surface_pixels(kind, data, w, h).subrange(row_edge(kind, h, a) * w * 4, row_edge(kind, h, b) * w * 4),
{
    let n = kind.block_size().unwrap();
    let bx = block_count(w);
    let p = row_bytes(kind, w);
    let y0 = 4 * a;
    let y1 = row_edge(kind, h, b);
    let texels = |block: Seq<u8>| block_rgba(kind, block);
    let part = data.subrange(a * p, b * p);
    assert(0 <= a * p <= b * p) by (nonlinear_arith)
        requires
            0 <= a < b,
            0 <= p,
    ;
    let whole = surface_pixels(kind, data, w, h);
    assert(0 <= y0 * w * 4 <= y1 * w * 4 <= w * h * 4 && (y1 - y0) * w == w * (y1 - y0) && y1 * w * 4 - y0 * w * 4 == w * (
    y1 - y0) * 4) by (nonlinear_arith)
        requires
            0 <= y0 <= y1 <= h,
            w > 0,
    ;
    let lhs = surface_pixels(kind, part, w, y1 - y0);
    let rhs = whole.subrange(y0 * w * 4, y1 * w * 4);
    assert(lhs.len() == rhs.len());
    assert forall|k: int| 0 <= k < lhs.len() implies lhs[k] == rhs[k] by {
        let t = k / 4;
        assert(0 <= t < w * (y1 - y0));
        assert(rhs[k] == whole[y0 * w * 4 + k]);
        let kk = y0 * w * 4 + k;
        assert(kk / 4 == y0 * w + t && kk % 4 == k % 4);
        let u = y0 * w + t;
        vstd::arithmetic::div_mod::lemma_fundamental_div_mod(t, w);
        vstd::arithmetic::div_mod::lemma_mod_bound(t, w);
        assert(u == (y0 + t / w) * w + t % w) by (nonlinear_arith)
            requires
                u == y0 * w + t,
                t == w * (t / w) + t % w,
        ;
        vstd::arithmetic::div_mod::lemma_fundamental_div_mod_converse(u, w, y0 + t / w, t % w);
        let x = t % w;
        let y = t / w;
        assert(0 <= y < y1 - y0) by (nonlinear_arith)
            requires
                t == w * y + x,
                0 <= x < w,
                0 <= t < w * (y1 - y0),
        ;
        let i = (y / 4) * bx + x / 4;
        let j = ((y0 + y) / 4) * bx + x / 4;
        assert((y0 + y) / 4 == a + y / 4 && (y0 + y) % 4 == y % 4);
        assert(j == a * bx + i) by (nonlinear_arith)
            requires
                i == (y / 4) * bx + x / 4,
                j == (a + y / 4) * bx + x / 4,
        ;
        assert(p == bx * n);
        assert(j * n == a * p + i * n && 0 <= i * n && i * n + n <= b * p - a * p) by (nonlinear_arith)
            requires
                j == a * bx + i,
                i == (y / 4) * bx + x / 4,
                p == bx * n,
                n > 0,
                0 <= y / 4 < b - a,
                0 <= x / 4 < bx,
                0 <= a,
        ;
        assert(part.subrange(i * n, i * n + n) =~= data.subrange(j * n, j * n + n));
        assert(lhs[k] == tiled_texel(texels, n, part, w, t, k % 4));
        assert(whole[kk] == tiled_texel(texels, n, data, w, u, k % 4));
    }
    assert(lhs =~= rhs);
}

/// Rows of blocks decode on their own to the pixel rows that the whole slice
/// has there.
pub proof fn law_block_rows_are_part_of_the_slice(kind: DecodeContent, data: Seq<u8>, w: int, h: int, a: int, b: int)
    requires
        w > 0,
        h > 0,
        0 <= a < b <= block_row_count(kind, h),
        data.len() >= slice_bytes(kind, w, h),
    ensures
        slice_pixels(
            kind,
            data.subrange(a * row_bytes(kind, w), b * row_bytes(kind, w)),
            w,
            row_edge(kind, h, b) - row_edge(kind, h, a),
        ) == slice_pixels(kind, data, w, h).subrange(row_edge(kind, h, a) * w * 4, row_edge(kind, h, b) * w * 4),
        slice_bytes(kind, w, h) == block_row_count(kind, h) * row_bytes(kind, w),
{
    let p = row_bytes(kind, w);
    match kind.block_size() {
        Some(n) => {
            let (x, y) = (block_count(w), block_count(h));
            assert(x * y * n == y * (x * n)) by (nonlinear_arith);
            assert(b * p <= y * p) by (nonlinear_arith)
                requires
                    b <= y,
                    p >= 0,
            ;
            lemma_part_of_tiles(kind, data, w, h, a, b);
        },
        None => {
            assert(a * (w * 4) == a * w * 4 && b * (w * 4) == b * w * 4 && h * (w * 4) == w * h * 4) by (nonlinear_arith);
            assert(0 <= a * w * 4 <= b * w * 4 <= w * h * 4 && w * (b - a) * 4 == b * w * 4 - a * w * 4) by (nonlinear_arith)
                requires
                    0 <= a < b <= h,
                    w > 0,
            ;
            let part = data.subrange(a * w * 4, b * w * 4);
            let r = rows_per_block(kind);
            assert(a * r == a && b * r == b) by (nonlinear_arith)
                requires
                    r == 1,
            ;
            assert(row_edge(kind, h, a) == a && row_edge(kind, h, b) == b);
            assert(data.subrange(a * p, b * p) == part);
            assert(part.take(w * (b - a) * 4) =~= data.take(w * h * 4).subrange(a * w * 4, b * w * 4));
            assert(swapped(part.take(w * (b - a) * 4)) =~= swapped(data.take(w * h * 4)).subrange(a * w * 4, b * w * 4)) by {
                assert(a * w * 4 == 4 * (a * w));
            }
            assert(kind == DecodeContent::Rgba8 || kind == DecodeContent::Bgra8);
        },
    }
}

/// Slices of a volume decode to equally many pixels each, in order: the
/// stacked pixels of the first `n` slices are those slices' pixels.
pub proof fn law_volume_is_its_slices(kind: DecodeContent, data: Seq<u8>, w: int, h: int, n: nat, z: int)
    requires
        w > 0,
        h > 0,
        0 <= z < n,
        data.len() >= slice_bytes(kind, w, h) * n,
    ensures
        stacked_pixels(kind, data, w, h, n).len() == n * (w * h * 4),
        stacked_pixels(kind, data, w, h, n).subrange(z * (w * h * 4), (z + 1) * (w * h * 4)) == slice_pixels(
            kind,
            data.subrange(z * slice_bytes(kind, w, h), (z + 1) * slice_bytes(kind, w, h)),
            w,
            h,
        ),
    decreases n,
{
    let s = slice_bytes(kind, w, h);
    let o = w * h * 4;
    assert(o >= 0) by (nonlinear_arith)
        requires
            o == w * h * 4,
            w > 0,
            h > 0,
    ;
    lemma_slice_bytes_positive(kind, w, h);
    let last = (n - 1) as nat;
    assert((n - 1) * s + s == n * s && n * s == s * n && 0 <= (n - 1) * s && (n - 1) * o + o == n * o && s * (n - 1) == (n
        - 1) * s) by (nonlinear_arith)
        requires
            n >= 1,
            s >= 0,
    ;
    lemma_slice_pixels_len(kind, data.subrange((n - 1) * s, (n - 1) * s + s), w, h);
    if last > 0 {
        law_volume_is_its_slices(kind, data, w, h, last, if z < last {
            z
        } else {
            0
        });
    }
    let head = stacked_pixels(kind, data, w, h, last);
    let all = stacked_pixels(kind, data, w, h, n);
    assert(head.len() == last * o);
    assert((z + 1) * o == z * o + o && 0 <= z * o && (z + 1) * s == z * s + s) by (nonlinear_arith)
        requires
            0 <= z,
            o >= 0,
    ;
    if z < last {
        assert((z + 1) * o <= last * o) by (nonlinear_arith)
            requires
                z + 1 <= last,
                o >= 0,
        ;
        assert(all.subrange(z * o, (z + 1) * o) =~= head.subrange(z * o, (z + 1) * o));
    } else {
        assert(all.subrange(z * o, (z + 1) * o) =~= slice_pixels(kind, data.subrange(z * s, (z + 1) * s), w, h));
    }
}

pub proof fn lemma_slice_bytes_positive(kind: DecodeContent, w: int, h: int)
    requires
        w > 0,
        h > 0,
    ensures
        slice_bytes(kind, w, h) > 0,
{
    let (x, y) = (block_count(w), block_count(h));
    assert(x * y > 0) by (nonlinear_arith)
        requires
            x > 0,
            y > 0,
    ;
    if let Some(n) = kind.block_size() {
        assert(x * y * n > 0) by (nonlinear_arith)
            requires
                x * y > 0,
                n > 0,
        ;
    }
    assert(w * h > 0) by (nonlinear_arith)
        requires
            w > 0,
            h > 0,
    ;
}

/// The RGBA pixels of the first `n` slices of a BC6H volume, stacked.
pub open spec fn hdr_stack(data: Seq<u8>, w: int, h: int, signed: bool, n: nat) -> Seq<u32>
    decreases n,
{
    if n == 0 {
        Seq::empty()
    } else {
        let s = block_count(w) * block_count(h) * 16;
        hdr_stack(data, w, h, signed, (n - 1) as nat) + bc6h_pixels(
            data.subrange((n - 1) * s, (n - 1) * s + s),
            w,
            h,
            signed,
        )
    }
}

/// Whether the decode of a BC6H surface succeeds, and if not, why.
pub open spec fn hdr_outcome(len: int, w: int, h: int, d: int) -> Result<(), Error> {
    let s = block_count(w) * block_count(h) * 16;
    if s > usize::MAX || s * d > usize::MAX {
        Err(Error::OutOfBounds)
    } else if len < s * d {
        Err(Error::TruncatedData)
    } else {
        bc6h_outcome(s, w, h)
    }
}

/// Decodes a BC6H surface, slice by slice.
pub fn decode_hdr_pixels(data: &[u8], width: u32, height: u32, depth: u32, signed: bool) -> (r: Result<Vec<u32>, Error>)
    requires
        width > 0,
        height > 0,
        depth > 0,
    ensures
        r matches Ok(v) ==> hdr_outcome(data@.len() as int, width as int, height as int, depth as int) is Ok && v@
            == hdr_stack(data@, width as int, height as int, signed, depth as nat),
        r matches Err(e) ==> hdr_outcome(data@.len() as int, width as int, height as int, depth as int) == Err::<(), Error>(
            e,
        ),
{
    let s: usize = match product3(blocks_across(width as usize), blocks_across(height as usize), 16) {
        Ok(s) => s,
        Err(e) => {
            return Err(e);
        },
    };
    let need: usize = match s.checked_mul(depth as usize) {
        Some(n) => n,
        None => {
            return Err(Error::OutOfBounds);
        },
    };
    if data.len() < need {
        return Err(Error::TruncatedData);
    }
    let mut out: Vec<u32> = Vec::new();
    let mut z: u32 = 0;
    while z < depth
        invariant
            z <= depth,
            s == block_count(width as int) * block_count(height as int) * 16,
            need == s * depth,
            data@.len() >= need,
            need <= usize::MAX,
            hdr_outcome(data@.len() as int, width as int, height as int, depth as int) == bc6h_outcome(
                s as int,
                width as int,
                height as int,
            ),
            z > 0 ==> bc6h_outcome(s as int, width as int, height as int) is Ok,
            out@ == hdr_stack(data@, width as int, height as int, signed, z as nat),
        decreases depth - z,
    {
        proof {
            assert(0 <= z * s && z * s + s <= s * depth) by (nonlinear_arith)
                requires
                    0 <= z,
                    z + 1 <= depth,
                    s >= 0,
            ;
        }
        let at: usize = (z as usize) * s;
        match decode_bc6h(vstd::slice::slice_subrange(data, at, at + s), width, height, signed) {
            Ok(mut v) => {
                out.append(&mut v);
            },
            Err(e) => {
                return Err(e);
            },
        }
        z = z + 1;
    }
    Ok(out)
}

/// Whether the decode of a surface into a buffer that is made to fit succeeds,
/// and if not, why.
pub open spec fn refill_outcome(kind: DecodeContent, len: int, w: int, h: int, d: int) -> Result<(), Error> {
    let s = slice_bytes(kind, w, h);
    if s > usize::MAX || s * d > usize::MAX {
        Err(Error::OutOfBounds)
    } else if len < s * d {
        Err(Error::TruncatedData)
    } else if w * h * d * 4 > usize::MAX {
        Err(Error::OutOfBounds)
    } else {
        Ok(())
    }
}

/// Decodes a surface into `dst`, which is made to fit.
pub fn decode_surface_into(kind: DecodeContent, data: &[u8], width: u32, height: u32, depth: u32, dst: &mut Vec<u8>) -> (r:
    Result<(), Error>)
    requires
        width > 0,
        height > 0,
        depth > 0,
    ensures
        r == refill_outcome(kind, data@.len() as int, width as int, height as int, depth as int),
        r is Ok ==> final(dst)@ == decoded_pixels(kind, data@, width as int, height as int, depth as int),
        r is Err ==> final(dst)@ == old(dst)@,
{
    let s: usize = match slice_payload_bytes(kind, width, height) {
        Ok(s) => s,
        Err(e) => {
            return Err(e);
        },
    };
    let need_src: usize = match s.checked_mul(depth as usize) {
        Some(n) => n,
        None => {
            return Err(Error::OutOfBounds);
        },
    };
    if data.len() < need_src {
        return Err(Error::TruncatedData);
    }
    proof {
        let (w, h, d) = (width as int, height as int, depth as int);
        assert(w * h <= w * h * d && w * h * d <= w * h * d * 4 && w * h * d * 4 == w * h * 4 * d && w * h * 4 <= w * h * 4 * d
            && 0 <= w * h)
            by (nonlinear_arith)
            requires
                w > 0,
                h > 0,
                d > 0,
        ;
    }
    let texels: usize = match product3(width as usize, height as usize, depth as usize) {
        Ok(n) => n,
        Err(e) => {
            return Err(e);
        },
    };
    let need: usize = match texels.checked_mul(4) {
        Some(n) => n,
        None => {
            return Err(Error::OutOfBounds);
        },
    };
    if dst.len() != need {
        dst.clear();
        dst.resize(need, 0);
    }
    if depth == 1 {
        proof {
            assert(s * 1 == s);
        }
        return decode_slice_into(kind, data, width, height, dst.as_mut_slice());
    }
    let per: usize = need / (depth as usize);
    proof {
        let o = width * height * 4;
        vstd::arithmetic::div_mod::lemma_fundamental_div_mod_converse(need as int, depth as int, o as int, 0);
    }
    let mut z: u32 = 0;
    while z < depth
        invariant
            z <= depth,
            depth > 1,
            width > 0,
            height > 0,
            s == slice_bytes(kind, width as int, height as int),
            need_src == s * depth,
            need_src <= usize::MAX,
            data@.len() >= need_src,
            per == width * height * 4,
            need == per * depth,
            dst@.len() == need,
            dst@.take(z * per) == stacked_pixels(kind, data@, width as int, height as int, z as nat),
            refill_outcome(kind, data@.len() as int, width as int, height as int, depth as int) is Ok,
        decreases depth - z,
    {
        proof {
            assert(0 <= z * s && z * s + s <= s * depth && 0 <= z * per && z * per + per <= per * depth && (z + 1) * per == z
                * per + per) by (nonlinear_arith)
                requires
                    0 <= z,
                    z + 1 <= depth,
                    s >= 0,
                    per >= 0,
            ;
        }
        let at: usize = (z as usize) * s;
        let to: usize = (z as usize) * per;
        let ghost before = dst@;
        let part: &[u8] = vstd::slice::slice_subrange(data, at, at + s);
        let (_, rest) = dst.as_mut_slice().split_at_mut(to);
        let (room, _) = rest.split_at_mut(per);
        match decode_slice_into(kind, part, width, height, room) {
            Ok(_) => {},
            Err(e) => {
                return Err(e);
            },
        }
        proof {
            lemma_slice_pixels_len(kind, part@, width as int, height as int);
            assert(dst@.take((z + 1) * per) =~= before.take(z * per) + slice_pixels(
                kind,
                part@,
                width as int,
                height as int,
            ));
        }
        z = z + 1;
    }
    proof {
        assert(dst@.take(depth * per) =~= dst@) by {
            assert(depth * per == per * depth) by (nonlinear_arith);
        }
    }
    Ok(())
}

impl<D: Payload> DdsBase<D> {
    /// Whether a subresource decodes to RGBA8, and if not, why.
    pub open spec fn rgba8_outcome(&self, id: SubresourceId) -> Result<(), Error> {
        let s = self.sides(id.mip);
        match self.place(id) {
            Err(e) => Err(e),
            Ok((a, b)) => match self.content() {
                Err(e) => Err(e),
                Ok(kind) => surface_outcome(kind, b - a, s.0 as int, s.1 as int, s.2 as int),
            },
        }
    }

    /// The RGBA8 pixels of a subresource.
    pub open spec fn rgba8_pixels(&self, id: SubresourceId) -> Seq<u8> {
        let s = self.sides(id.mip);
        decoded_pixels(self.content().unwrap(), self.surface_bytes(id), s.0 as int, s.1 as int, s.2 as int)
    }

    /// Decodes one subresource to tightly packed RGBA8. The slices of a volume
    /// are stacked. Stored sRGB bytes are not made linear.
    pub fn decode_rgba8(&self, id: SubresourceId) -> (r: Result<ImageRgba8, Error>)
        ensures
            r matches Ok(img) ==> self.rgba8_outcome(id) is Ok && (img.width, img.height, img.depth) == self.sides(id.mip)
                && img.pixels@ == self.rgba8_pixels(id),
            r matches Err(e) ==> self.rgba8_outcome(id) == Err::<(), Error>(e),
    {
        let surf: SurfaceView<'_> = match self.surface(id) {
            Ok(s) => s,
            Err(e) => {
                return Err(e);
            },
        };
        let kind: DecodeContent = match self.decode_content() {
            Ok(k) => k,
            Err(e) => {
                return Err(e);
            },
        };
        proof {
            self.law_subresources_are_disjoint(id, id);
        }
        match decode_surface_pixels(kind, surf.data, surf.width, surf.height, surf.depth) {
            Ok(pixels) => Ok(ImageRgba8 { width: surf.width, height: surf.height, depth: surf.depth, pixels }),
            Err(e) => Err(e),
        }
    }

    /// Whether a BC6H subresource decodes, and if not, why.
    pub open spec fn f32_outcome(&self, id: SubresourceId) -> Result<(), Error> {
        let s = self.sides(id.mip);
        match self.hdr_content() {
            Err(e) => Err(e),
            Ok(_) => match self.place(id) {
                Err(e) => Err(e),
                Ok((a, b)) => hdr_outcome(b - a, s.0 as int, s.1 as int, s.2 as int),
            },
        }
    }

    /// The single-precision RGBA pixels of a BC6H subresource.
    pub open spec fn f32_pixels(&self, id: SubresourceId) -> Seq<u32> {
        let s = self.sides(id.mip);
        let signed = self.hdr_content() == Ok::<HdrDecodeContent, Error>(HdrDecodeContent::Bc6hSf16);
        hdr_stack(self.surface_bytes(id), s.0 as int, s.1 as int, signed, s.2 as nat)
    }

    /// Decodes one BC6H subresource to tightly packed RGBA in single precision,
    /// opaque. The slices of a volume are stacked.
    pub fn decode_rgba_f32(&self, id: SubresourceId) -> (r: Result<ImageRgbaF32, Error>)
        ensures
            r matches Ok(img) ==> self.f32_outcome(id) is Ok && (img.width, img.height, img.depth) == self.sides(id.mip)
                && img.pixels@ == hdr_stack(
                self.surface_bytes(id),
                img.width as int,
                img.height as int,
                self.hdr_content() == Ok::<HdrDecodeContent, Error>(HdrDecodeContent::Bc6hSf16),
                img.depth as nat,
            ) && img.pixels@ == self.f32_pixels(id),
            r matches Err(e) ==> self.f32_outcome(id) == Err::<(), Error>(e),
    {
        let kind: HdrDecodeContent = match self.hdr_decode_content() {
            Ok(k) => k,
            Err(e) => {
                return Err(e);
            },
        };
        let signed: bool = match kind {
            HdrDecodeContent::Bc6hSf16 => true,
            HdrDecodeContent::Bc6hUf16 => false,
        };
        let surf: SurfaceView<'_> = match self.surface(id) {
            Ok(s) => s,
            Err(e) => {
                return Err(e);
            },
        };
        proof {
            self.law_subresources_are_disjoint(id, id);
            lemma_mip_side_step(self.header.width, id.mip);
            lemma_mip_side_step(self.header.height, id.mip);
            lemma_mip_side_step(self.full_depth(), id.mip);
        }
        match decode_hdr_pixels(surf.data, surf.width, surf.height, surf.depth, signed) {
            Ok(pixels) => Ok(ImageRgbaF32 { width: surf.width, height: surf.height, depth: surf.depth, pixels }),
            Err(e) => Err(e),
        }
    }

    /// Whether a subresource decodes into a recycled buffer, and if not, why.
    pub open spec fn rgba8_into_outcome(&self, id: SubresourceId) -> Result<(), Error> {
        let s = self.sides(id.mip);
        match self.place(id) {
            Err(e) => Err(e),
            Ok((a, b)) => match self.content() {
                Err(e) => Err(e),
                Ok(kind) => refill_outcome(kind, b - a, s.0 as int, s.1 as int, s.2 as int),
            },
        }
    }

    /// Whatever decodes into a recycled buffer also decodes into a new one; both
    /// give the same pixels, which are the subresource's.
    pub proof fn law_recycled_buffers_lose_nothing(&self, id: SubresourceId)
        requires
            self.rgba8_into_outcome(id) is Ok,
        ensures
            self.rgba8_outcome(id) is Ok,
    {
        lemma_mip_side_step(self.header.width, id.mip);
        lemma_mip_side_step(self.header.height, id.mip);
        lemma_mip_side_step(self.full_depth(), id.mip);
        let s = self.sides(id.mip);
        let (w, h, d) = (s.0 as int, s.1 as int, s.2 as int);
        assert(0 <= w * h * 4 <= w * h * d * 4) by (nonlinear_arith)
            requires
                w > 0,
                h > 0,
                d > 0,
        ;
        if d == 1 {
            assert(slice_bytes(self.content().unwrap(), w, h) * 1 == slice_bytes(self.content().unwrap(), w, h));
        }
    }

    /// Decodes one subresource to RGBA8 into a buffer that the caller keeps:
    /// `dst` is made to fit and fully overwritten. Gives the dimensions.
    pub fn decode_rgba8_into(&self, id: SubresourceId, dst: &mut Vec<u8>) -> (r: Result<(u32, u32, u32), Error>)
        ensures
            r matches Ok(d) ==> self.rgba8_into_outcome(id) is Ok && d == self.sides(id.mip) && final(dst)@
                == self.rgba8_pixels(id),
            r matches Err(e) ==> self.rgba8_into_outcome(id) == Err::<(), Error>(e) && final(dst)@ == old(dst)@,
    {
        let surf: SurfaceView<'_> = match self.surface(id) {
            Ok(s) => s,
            Err(e) => {
                return Err(e);
            },
        };
        let kind: DecodeContent = match self.decode_content() {
            Ok(k) => k,
            Err(e) => {
                return Err(e);
            },
        };
        proof {
            self.law_subresources_are_disjoint(id, id);
            lemma_mip_side_step(self.header.width, id.mip);
            lemma_mip_side_step(self.header.height, id.mip);
            lemma_mip_side_step(self.full_depth(), id.mip);
        }
        match decode_surface_into(kind, surf.data, surf.width, surf.height, surf.depth, dst) {
            Ok(_) => Ok((surf.width, surf.height, surf.depth)),
            Err(e) => Err(e),
        }
    }

    /// Rows of blocks in one subresource, or why there are none.
    pub open spec fn rows_of(&self, id: SubresourceId) -> Result<u32, Error> {
        match (self.place(id), self.content()) {
            (Err(e), _) => Err(e),
            (Ok(_), Err(e)) => Err(e),
            (Ok(_), Ok(kind)) => Ok(block_row_count(kind, self.sides(id.mip).1 as int) as u32),
        }
    }

    /// Rows of blocks in one subresource: four pixel rows each for BCn, one
    /// for uncompressed formats.
    pub fn block_rows(&self, id: SubresourceId) -> (r: Result<u32, Error>)
        ensures
            r matches Ok(n) ==> self.place(id) is Ok && self.content() is Ok && n == block_row_count(
                self.content().unwrap(),
                self.sides(id.mip).1 as int,
            ),
            r matches Err(e) ==> if self.place(id) is Err {
                self.place(id) == Err::<(int, int), Error>(e)
            } else {
                self.content() == Err::<DecodeContent, Error>(e)
            },
            r == self.rows_of(id),
    {
        let surf: SurfaceView<'_> = match self.surface(id) {
            Ok(s) => s,
            Err(e) => {
                return Err(e);
            },
        };
        let kind: DecodeContent = match self.decode_content() {
            Ok(k) => k,
            Err(e) => {
                return Err(e);
            },
        };
        proof {
            lemma_mip_side_step(self.header.height, id.mip);
        }
        Ok((surf.height - 1) / block_height(kind) + 1)
    }

    /// Whether the rows of blocks from `a` up to `b` decode into `out_len`
    /// bytes, and if not, why.
    pub open spec fn rows_outcome(&self, id: SubresourceId, a: int, b: int, out_len: int) -> Result<(), Error> {
        let s = self.sides(id.mip);
        match self.place(id) {
            Err(e) => Err(e),
            Ok((from, to)) => match self.content() {
                Err(e) => Err(e),
                Ok(kind) => {
                    let (w, h) = (s.0 as int, s.1 as int);
                    if s.2 != 1 {
                        Err(Error::UnsupportedFormat)
                    } else if a > b || b > block_row_count(kind, h) {
                        Err(Error::OutOfBounds)
                    } else if a == b {
                        Ok(())
                    } else if row_bytes(kind, w) > usize::MAX {
                        Err(Error::OutOfBounds)
                    } else if b * row_bytes(kind, w) > to - from {
                        Err(Error::TruncatedData)
                    } else if out_len != w * (row_edge(kind, h, b) - row_edge(kind, h, a)) * 4 {
                        Err(Error::OutOfBounds)
                    } else {
                        Ok(())
                    }
                },
            },
        }
    }

    /// Decodes the rows of blocks `rows` of one subresource into `dst`, which
    /// receives those rows alone, tightly packed: the pixel rows that a decode
    /// of the whole has there. Volumes are not split.
    pub fn decode_block_rows_into(&self, id: SubresourceId, rows: Range<u32>, dst: &mut [u8]) -> (r: Result<(), Error>)
        ensures
            r == self.rows_outcome(id, rows.start as int, rows.end as int, old(dst)@.len() as int),
            r is Err || rows.start == rows.end ==> final(dst)@ == old(dst)@,
            r is Ok && rows.start < rows.end ==> ({
                let kind = self.content().unwrap();
                let (w, h) = (self.sides(id.mip).0 as int, self.sides(id.mip).1 as int);
                let p = row_bytes(kind, w);
                &&& final(dst)@ == slice_pixels(
                    kind,
                    self.surface_bytes(id).subrange(rows.start * p, rows.end * p),
                    w,
                    row_edge(kind, h, rows.end as int) - row_edge(kind, h, rows.start as int),
                )
                &&& self.surface_bytes(id).len() >= slice_bytes(kind, w, h) ==> final(dst)@ == self.rgba8_pixels(
                    id,
                ).subrange(row_edge(kind, h, rows.start as int) * w * 4, row_edge(kind, h, rows.end as int) * w * 4)
            }),
    {
        let surf: SurfaceView<'_> = match self.surface(id) {
            Ok(s) => s,
            Err(e) => {
                return Err(e);
            },
        };
        let kind: DecodeContent = match self.decode_content() {
            Ok(k) => k,
            Err(e) => {
                return Err(e);
            },
        };
        proof {
            self.law_subresources_are_disjoint(id, id);
            lemma_mip_side_step(self.header.width, id.mip);
            lemma_mip_side_step(self.header.height, id.mip);
        }
        if surf.depth != 1 {
            return Err(Error::UnsupportedFormat);
        }
        let total: u32 = match self.block_rows(id) {
            Ok(n) => n,
            Err(e) => {
                return Err(e);
            },
        };
        if rows.start > rows.end || rows.end > total {
            return Err(Error::OutOfBounds);
        }
        if rows.start == rows.end {
            return Ok(());
        }
        decode_rows(kind, surf.data, surf.width, surf.height, rows.start, rows.end, dst)
    }
}

/// Decodes the rows of blocks from `a` up to `b` of a slice.
fn decode_rows(kind: DecodeContent, data: &[u8], width: u32, height: u32, a: u32, b: u32, dst: &mut [u8]) -> (r: Result<
    (),
    Error,
>)
    requires
        width > 0,
        height > 0,
        a < b <= block_row_count(kind, height as int),
    ensures
        ({
            let (w, h) = (width as int, height as int);
            let p = row_bytes(kind, w);
            let rows = row_edge(kind, h, b as int) - row_edge(kind, h, a as int);
            &&& r == (if p > usize::MAX {
                Err::<(), Error>(Error::OutOfBounds)
            } else if b * p > data@.len() {
                Err::<(), Error>(Error::TruncatedData)
            } else if old(dst)@.len() != w * rows * 4 {
                Err::<(), Error>(Error::OutOfBounds)
            } else {
                Ok::<(), Error>(())
            })
            &&& r is Err ==> final(dst)@ == old(dst)@
            &&& r is Ok ==> final(dst)@ == slice_pixels(kind, data@.subrange(a * p, b * p), w, rows)
            &&& r is Ok && data@.len() >= slice_bytes(kind, w, h) ==> final(dst)@ == slice_pixels(kind, data@, w, h).subrange(
                row_edge(kind, h, a as int) * w * 4,
                row_edge(kind, h, b as int) * w * 4,
            )
        }),
{
    let bh: u32 = block_height(kind);
    let y0: u32 = a * bh;
    let y1: u32 = if b <= (height - 1) / bh {
        b * bh
    } else {
        height
    };
    proof {
        assert(y0 == row_edge(kind, height as int, a as int));
        assert(y1 == row_edge(kind, height as int, b as int));
        assert(y0 < y1);
    }
    let len: usize = data.len();
    let dst_len: usize = dst.len();
    let pitch: usize = match block_row_bytes(kind, width) {
        Ok(p) => p,
        Err(e) => {
            return Err(e);
        },
    };
    let to: usize = match (b as usize).checked_mul(pitch) {
        Some(n) => n,
        None => {
            return Err(Error::TruncatedData);
        },
    };
    if to > len {
        return Err(Error::TruncatedData);
    }
    proof {
        assert(0 <= a * pitch <= b * pitch && b * pitch - a * pitch == (b - a) * pitch) by (nonlinear_arith)
            requires
                0 <= a <= b,
                pitch >= 0,
        ;
        let (w, rows) = (width as int, y1 - y0);
        match kind.block_size() {
            Some(n) => {
                assert(block_count(rows) == b - a);
                let x = block_count(w);
                assert(x * (b - a) * n == (b - a) * (x * n)) by (nonlinear_arith);
            },
            None => {
                assert(w * (b - a) * 4 == (b - a) * (w * 4)) by (nonlinear_arith);
            },
        }
    }
    let from: usize = (a as usize) * pitch;
    let part: &[u8] = vstd::slice::slice_subrange(data, from, to);
    proof {
        if data@.len() >= slice_bytes(kind, width as int, height as int) {
            law_block_rows_are_part_of_the_slice(kind, data@, width as int, height as int, a as int, b as int);
        }
    }
    decode_slice_into(kind, part, width, y1 - y0, dst)
}

} // verus!
