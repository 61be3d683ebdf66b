//! One slice, or one surface, to a payload.

use vstd::prelude::*;

use crate::binary32::{less, less32};
use crate::content::{product3, slice_bytes, slice_payload_bytes, DecodeContent};
use crate::encode::blocks::alpha::{alpha_encoded, alpha_flat, column, encode_bc3, encode_bc4, encode_bc4_flat, encode_bc5, encode_bc5_flat};
use crate::encode::blocks::bc1::{bc1_encoded, bc2_alpha, encode_bc1, encode_bc2};
use crate::encode::blocks::bc7::{bc7_encoded, encode_bc7_mode6};
use crate::encode::blocks::image::{encode_image, image_outcome, image_payload, lemma_image_payload};
use crate::encode::blocks::rdo::{bc1_rdo_payload, encode_image_bc1_rdo, rdo_outcome};
use crate::encode::blocks::rdo7::{bc7_rdo_payload, encode_image_bc7_rdo};
use crate::encode::blocks::{channel_range, channel_span, EncodeQuality};
use crate::error::Error;
use crate::model::{rows, splice, store};
use crate::swizzle::{swap_rb, swapped};

verus! {

/// The bytes that one block of texels encodes to. A flat image takes the short
/// way for BC4 and BC5.
pub open spec fn encoded_block(kind: DecodeContent, q: EncodeQuality, flat: bool, px: Seq<Seq<u8>>) -> Seq<u8> {
    match kind {
        DecodeContent::Bc1 => bc1_encoded(px, q).0,
        DecodeContent::Bc2 => bc2_alpha(px) + bc1_encoded(px, q).0,
        DecodeContent::Bc3 => alpha_encoded(column(px, 3), q, false).0 + bc1_encoded(px, q).0,
        DecodeContent::Bc4UNorm | DecodeContent::Bc4SNorm => {
            let signed = kind == DecodeContent::Bc4SNorm;
            if flat {
                alpha_flat(column(px, 0), signed).0
            } else {
                alpha_encoded(column(px, 0), q, signed).0
            }
        },
        DecodeContent::Bc5UNorm | DecodeContent::Bc5SNorm => {
            let signed = kind == DecodeContent::Bc5SNorm;
            if flat {
                alpha_flat(column(px, 0), signed).0 + alpha_flat(column(px, 1), signed).0
            } else {
                alpha_encoded(column(px, 0), q, signed).0 + alpha_encoded(column(px, 1), q, signed).0
            }
        },
        _ => bc7_encoded(px).0,
    }
}

/// Encodes one block of texels.
pub fn encode_block(kind: DecodeContent, q: EncodeQuality, flat: bool, px: &[[u8; 4]; 16]) -> (b: [u8; 16])
    requires
        kind.block_size() is Some,
    ensures
        b@.take(kind.block_size().unwrap()) == encoded_block(kind, q, flat, rows(*px)),
{
    let mut b: [u8; 16] = [0u8; 16];
    let signed: bool = match kind {
        DecodeContent::Bc4SNorm | DecodeContent::Bc5SNorm => true,
        _ => false,
    };
    match kind {
        DecodeContent::Bc1 => {
            encode_bc1(px, q, &mut b);
        },
        DecodeContent::Bc2 => {
            encode_bc2(px, q, &mut b);
        },
        DecodeContent::Bc3 => {
            encode_bc3(px, q, &mut b);
        },
        DecodeContent::Bc4UNorm | DecodeContent::Bc4SNorm => {
            if flat {
                encode_bc4_flat(px, signed, &mut b);
            } else {
                encode_bc4(px, signed, q, &mut b);
            }
        },
        DecodeContent::Bc5UNorm | DecodeContent::Bc5SNorm => {
            if flat {
                encode_bc5_flat(px, signed, &mut b);
            } else {
                encode_bc5(px, signed, q, &mut b);
            }
        },
        _ => {
            encode_bc7_mode6(px, &mut b);
        },
    }
    proof {
        assert(b@.take(kind.block_size().unwrap()) =~= encoded_block(kind, q, flat, rows(*px)));
    }
    b
}

/// The span of a channel over the image is at most two.
pub open spec fn near_flat(rgba: Seq<u8>, w: int, h: int, c: int) -> bool {
    let (lo, hi) = channel_range(rgba, c, (w * h) as nat);
    hi - lo <= 2
}

/// Whether an image is so flat that BC4 or BC5 takes the short way.
pub open spec fn is_flat(kind: DecodeContent, rgba: Seq<u8>, w: int, h: int) -> bool {
    match kind {
        DecodeContent::Bc4UNorm | DecodeContent::Bc4SNorm => near_flat(rgba, w, h, 0),
        DecodeContent::Bc5UNorm | DecodeContent::Bc5SNorm => near_flat(rgba, w, h, 0) && near_flat(rgba, w, h, 1),
        _ => false,
    }
}

/// Whether a strength asks for the rate-distortion pass.
pub open spec fn optimised(kind: DecodeContent, lambda: u32) -> bool {
    (kind == DecodeContent::Bc1 || kind == DecodeContent::Bc7) && less(0, lambda)
}

/// What a slice encodes to.
pub open spec fn slice_payload(kind: DecodeContent, q: EncodeQuality, lambda: u32, rgba: Seq<u8>, w: int, h: int) -> Seq<u8> {
    if kind == DecodeContent::Rgba8 {
        rgba.take(w * h * 4)
    } else if kind == DecodeContent::Bgra8 {
        swapped(rgba.take(w * h * 4))
    } else if optimised(kind, lambda) {
        if kind == DecodeContent::Bc1 {
            bc1_rdo_payload(rgba, w, h, q, lambda)
        } else {
            bc7_rdo_payload(rgba, w, h, lambda)
        }
    } else {
        let flat = is_flat(kind, rgba, w, h);
        image_payload(
            |px: Seq<Seq<u8>>| encoded_block(kind, q, flat, px),
            kind.block_size().unwrap(),
            rgba,
            w,
            h,
        )
    }
}

/// Whether the encode of a slice succeeds, and if not, why.
pub open spec fn encode_slice_outcome(kind: DecodeContent, lambda: u32, len: int, w: int, h: int, out_len: int) -> Result<
    (),
    Error,
> {
    if kind.block_size() is None {
        let n = w * h * 4;
        if w == 0 || h == 0 {
            Err(Error::InvalidField("zero image dimension"))
        } else if n > usize::MAX {
            Err(Error::OutOfBounds)
        } else if len < n || out_len < n {
            Err(Error::TruncatedData)
        } else {
            Ok(())
        }
    } else if optimised(kind, lambda) {
        rdo_outcome(len, w, h, kind.block_size().unwrap(), out_len)
    } else {
        image_outcome(len, w, h, kind.block_size().unwrap(), out_len)
    }
}

fn measure_flat(kind: DecodeContent, rgba: &[u8], width: u32, height: u32) -> (flat: bool)
    requires
        rgba@.len() >= width * height * 4,
    ensures
        flat == is_flat(kind, rgba@, width as int, height as int),
{
    match kind {
        DecodeContent::Bc4UNorm | DecodeContent::Bc4SNorm => channel_span(rgba, width, height, 0) <= 2,
        DecodeContent::Bc5UNorm | DecodeContent::Bc5SNorm => channel_span(rgba, width, height, 0) <= 2 && channel_span(
            rgba,
            width,
            height,
            1,
        ) <= 2,
        _ => false,
    }
}

fn encode_plain(swap: bool, rgba: &[u8], width: u32, height: u32, out: &mut [u8]) -> (r: Result<(), Error>)
    ensures
        ({
            let kind = if swap {
                DecodeContent::Bgra8
            } else {
                DecodeContent::Rgba8
            };
            let (w, h) = (width as int, height as int);
            &&& r == encode_slice_outcome(kind, 0, rgba@.len() as int, w, h, old(out)@.len() as int)
            &&& r is Ok ==> final(out)@ == splice(old(out)@, 0, slice_payload(kind, EncodeQuality::Quality, 0, rgba@, w, h))
            &&& r is Err ==> final(out)@ == old(out)@
        }),
{
    let n: usize = match slice_payload_bytes(DecodeContent::Rgba8, width, height) {
        Ok(n) => n,
        Err(e) => {
            return Err(e);
        },
    };
    if out.len() < n || rgba.len() < n {
        return Err(Error::TruncatedData);
    }
    let part: &[u8] = vstd::slice::slice_subrange(rgba, 0, n);
    proof {
        assert(part@ =~= rgba@.take(width * height * 4));
    }
    if swap {
        let (head, _) = out.split_at_mut(n);
        let done: bool = swap_rb(part, head);
        proof {
            assert(n % 4 == 0);
            assert(done);
            assert(out@ =~= splice(old(out)@, 0, swapped(part@)));
        }
    } else {
        store(out, 0, part);
    }
    Ok(())
}

fn encode_blocks(kind: DecodeContent, q: EncodeQuality, rgba: &[u8], width: u32, height: u32, out: &mut [u8]) -> (r: Result<
    (),
    Error,
>)
    requires
        kind.block_size() is Some,
    ensures
        r == image_outcome(
            rgba@.len() as int,
            width as int,
            height as int,
            kind.block_size().unwrap(),
            old(out)@.len() as int,
        ),
        r is Ok ==> final(out)@ == splice(
            old(out)@,
            0,
            image_payload(
                |px: Seq<Seq<u8>>|
                    encoded_block(kind, q, is_flat(kind, rgba@, width as int, height as int), px),
                kind.block_size().unwrap(),
                rgba@,
                width as int,
                height as int,
            ),
        ),
        r is Err ==> final(out)@ == old(out)@,
{
    let size: usize = match kind.block_bytes() {
        Some(b) => b,
        None => 16,
    };
    let len: usize = rgba.len();
    let enough: bool = match product3(width as usize, height as usize, 4) {
        Ok(n) => n <= len,
        Err(_) => false,
    };
    let flat: bool = if enough {
        measure_flat(kind, rgba, width, height)
    } else {
        false
    };
    let f = |px: &[[u8; 4]; 16]| -> (b: [u8; 16])
        ensures
            b@.take(kind.block_size().unwrap()) == encoded_block(kind, q, flat, rows(*px)),
        { encode_block(kind, q, flat, px) };
    let r: Result<(), Error> = encode_image(rgba, width, height, size, f, out);
    proof {
        if r is Ok {
            let enc = |px: Seq<Seq<u8>>| encoded_block(kind, q, is_flat(kind, rgba@, width as int, height as int), px);
            lemma_image_payload(f, enc, size as int, rgba@, width as int, height as int, old(out)@, out@);
        }
    }
    r
}

/// Encodes one slice into `out`.
pub fn encode_slice(
    kind: DecodeContent,
    q: EncodeQuality,
    lambda: u32,
    rgba: &[u8],
    width: u32,
    height: u32,
    out: &mut [u8],
) -> (r: Result<(), Error>)
    ensures
        r == encode_slice_outcome(
            kind,
            lambda,
            rgba@.len() as int,
            width as int,
            height as int,
            old(out)@.len() as int,
        ),
        r is Ok ==> final(out)@ == splice(
            old(out)@,
            0,
            slice_payload(kind, q, lambda, rgba@, width as int, height as int),
        ),
        r is Err ==> final(out)@ == old(out)@,
{
    let strong: bool = less32(0, lambda);
    match kind {
        DecodeContent::Rgba8 => encode_plain(false, rgba, width, height, out),
        DecodeContent::Bgra8 => encode_plain(true, rgba, width, height, out),
        DecodeContent::Bc1 => if strong {
            encode_image_bc1_rdo(rgba, width, height, q, lambda, out)
        } else {
            encode_blocks(kind, q, rgba, width, height, out)
        },
        DecodeContent::Bc7 => if strong {
            encode_image_bc7_rdo(rgba, width, height, lambda, out)
        } else {
            encode_blocks(kind, q, rgba, width, height, out)
        },
        _ => encode_blocks(kind, q, rgba, width, height, out),
    }
}

/// What the first `n` slices of a volume encode to, one after another.
pub open spec fn stacked_payload(
    kind: DecodeContent,
    q: EncodeQuality,
    lambda: u32,
    rgba: Seq<u8>,
    w: int,
    h: int,
    n: nat,
) -> Seq<u8>
    decreases n,
{
    if n == 0 {
        Seq::empty()
    } else {
        let s = w * h * 4;
        stacked_payload(kind, q, lambda, rgba, w, h, (n - 1) as nat) + slice_payload(
            kind,
            q,
            lambda,
            rgba.subrange((n - 1) * s, (n - 1) * s + s),
            w,
            h,
        )
    }
}

/// Whether the encode of a surface succeeds, and if not, why.
pub open spec fn encode_surface_outcome(kind: DecodeContent, len: int, w: int, h: int, d: int, out_len: int) -> Result<
    (),
    Error,
> {
    let s = w * h * 4;
    let o = slice_bytes(kind, w, h);
    if s > usize::MAX {
        Err(Error::OutOfBounds)
    } else if w == 0 || h == 0 {
        Err(Error::InvalidField("zero image dimension"))
    } else if o > usize::MAX || s * d > usize::MAX || o * d > usize::MAX {
        Err(Error::OutOfBounds)
    } else if len < s * d || out_len < o * d {
        Err(Error::TruncatedData)
    } else {
        Ok(())
    }
}

/// A slice's payload has the length that its kind and size give.
pub proof fn lemma_slice_payload_len(kind: DecodeContent, q: EncodeQuality, lambda: u32, rgba: Seq<u8>, w: int, h: int)
    requires
        w > 0,
        h > 0,
        rgba.len() >= w * h * 4,
    ensures
        slice_payload(kind, q, lambda, rgba, w, h).len() == slice_bytes(kind, w, h),
        slice_bytes(kind, w, h) >= 0,
{
    let x = crate::encode::blocks::block_count(w);
    let y = crate::encode::blocks::block_count(h);
    let n = x * y;
    assert(n >= 0 && w * h >= 0) by (nonlinear_arith)
        requires
            n == x * y,
            x >= 0,
            y >= 0,
            w > 0,
            h > 0,
    ;
    if kind == DecodeContent::Bc1 {
        crate::encode::blocks::rdo::lemma_rdo_blocks_len(
            rgba,
            w,
            h,
            q,
            crate::encode::blocks::rdo::image_dictionary(rgba, w, h, q),
            lambda,
            n as nat,
        );
    } else if kind == DecodeContent::Bc7 {
        crate::encode::blocks::rdo7::lemma_rdo_blocks7_len(rgba, w, h, lambda, n as nat);
    }
}

/// Encodes one surface, slice by slice, into the first bytes of `out`.
#[verifier::rlimit(40)]
pub fn encode_surface(
    kind: DecodeContent,
    q: EncodeQuality,
    lambda: u32,
    rgba: &[u8],
    width: u32,
    height: u32,
    depth: u32,
    out: &mut [u8],
) -> (r: Result<(), Error>)
    ensures
        r == encode_surface_outcome(
            kind,
            rgba@.len() as int,
            width as int,
            height as int,
            depth as int,
            old(out)@.len() as int,
        ),
        r is Ok ==> final(out)@ == splice(
            old(out)@,
            0,
            stacked_payload(kind, q, lambda, rgba@, width as int, height as int, depth as nat),
        ),
        final(out)@.len() == old(out)@.len(),
        r is Err ==> final(out)@ == old(out)@,
{
    let out_len: usize = out.len();
    let len: usize = rgba.len();
    let s: usize = match product3(width as usize, height as usize, 4) {
        Ok(n) => n,
        Err(e) => {
            return Err(e);
        },
    };
    let o: usize = match slice_payload_bytes(kind, width, height) {
        Ok(n) => n,
        Err(e) => {
            return Err(e);
        },
    };
    let need_rgba: usize = match s.checked_mul(depth as usize) {
        Some(n) => n,
        None => {
            return Err(Error::OutOfBounds);
        },
    };
    let need_out: usize = match o.checked_mul(depth as usize) {
        Some(n) => n,
        None => {
            return Err(Error::OutOfBounds);
        },
    };
    if len < need_rgba || out_len < need_out {
        return Err(Error::TruncatedData);
    }
    let ghost start = out@;
    let mut z: u32 = 0;
    proof {
        assert(out@ =~= splice(start, 0, Seq::<u8>::empty()));
        assert(0 * o == 0);
    }
    while z < depth
        invariant
            z <= depth,
            width > 0,
            height > 0,
            s == width * height * 4,
            o == slice_bytes(kind, width as int, height as int),
            need_rgba == s * depth,
            need_out == o * depth,
            len == rgba@.len(),
            out_len == out@.len(),
            out_len == start.len(),
            start == old(out)@,
            len >= need_rgba,
            out_len >= need_out,
            stacked_payload(kind, q, lambda, rgba@, width as int, height as int, z as nat).len() == z * o,
            out@ == splice(start, 0, stacked_payload(kind, q, lambda, rgba@, width as int, height as int, z as nat)),
        decreases depth - z,
    {
        proof {
            assert(0 <= z * s && z * s + s <= s * depth && 0 <= z * o && z * o + o <= o * depth && (z + 1) * o == z * o + o)
                by (nonlinear_arith)
                requires
                    0 <= z,
                    z + 1 <= depth,
                    s >= 0,
                    o >= 0,
            ;
        }
        let from: usize = (z as usize) * s;
        let to: usize = (z as usize) * o;
        let part: &[u8] = vstd::slice::slice_subrange(rgba, from, from + s);
        let ghost head = stacked_payload(kind, q, lambda, rgba@, width as int, height as int, z as nat);
        let ghost piece = slice_payload(kind, q, lambda, part@, width as int, height as int);
        proof {
            lemma_slice_payload_len(kind, q, lambda, part@, width as int, height as int);
        }
        let (_, rest) = out.split_at_mut(to);
        let (room, _) = rest.split_at_mut(o);
        match encode_slice(kind, q, lambda, part, width, height, room) {
            Ok(_) => {},
            Err(e) => {
                return Err(e);
            },
        }
        proof {
            assert(out@ =~= splice(start, 0, head + piece));
        }
        z = z + 1;
    }
    Ok(())
}

} // verus!
