//! Decode with the general block decoder alone, for comparison: no block takes
//! a fast path.

use vstd::prelude::*;

use crate::content::{product3, slice_bytes, slice_payload_bytes, DecodeContent};
use crate::decode::bcdec::general_bc7;
use crate::decode::bcn::{bc7_rgba, block_grid, block_rgba, tile_blocks, tiled};
use crate::decode::{decode_slice, decoded_pixels, slice_pixels, stacked_pixels, surface_outcome};
use crate::encode::blocks::block_count;
use crate::error::Error;

verus! {

/// The RGBA8 pixels of one slice, with every BC7 block through the general
/// decoder.
pub open spec fn reference_slice_pixels(kind: DecodeContent, data: Seq<u8>, w: int, h: int) -> Seq<u8> {
    if kind == DecodeContent::Bc7 {
        tiled(|block: Seq<u8>| bc7_rgba(block), 16, data, w, h)
    } else {
        slice_pixels(kind, data, w, h)
    }
}

/// The same of the first `n` slices of a volume, stacked.
pub open spec fn reference_stack(kind: DecodeContent, data: Seq<u8>, w: int, h: int, n: nat) -> Seq<u8>
    decreases n,
{
    if n == 0 {
        Seq::empty()
    } else {
        let s = slice_bytes(kind, w, h);
        reference_stack(kind, data, w, h, (n - 1) as nat) + reference_slice_pixels(
            kind,
            data.subrange((n - 1) * s, (n - 1) * s + s),
            w,
            h,
        )
    }
}

/// The same of a surface: one slice, or the slices of a volume stacked.
pub open spec fn reference_pixels(kind: DecodeContent, data: Seq<u8>, w: int, h: int, d: int) -> Seq<u8> {
    if d == 1 {
        reference_slice_pixels(kind, data, w, h)
    } else {
        reference_stack(kind, data, w, h, d as nat)
    }
}

/// Whether the decode of one slice succeeds, and if not, why: an empty slice of
/// blocks decodes to nothing.
pub open spec fn reference_slice_outcome(kind: DecodeContent, len: int, w: int, h: int) -> Result<(), Error> {
    let s = slice_bytes(kind, w, h);
    if kind.block_size() is None && (w == 0 || h == 0) {
        Err(Error::InvalidField("zero image dimension"))
    } else if s > usize::MAX {
        Err(Error::OutOfBounds)
    } else if len < s {
        Err(Error::TruncatedData)
    } else {
        Ok(())
    }
}

fn reference_slice(kind: DecodeContent, data: &[u8], width: u32, height: u32) -> (r: Result<Vec<u8>, Error>)
    requires
        kind.block_size() is Some ==> slice_bytes(kind, width as int, height as int) <= usize::MAX && width * height * 4
            <= usize::MAX,
    ensures
        r matches Ok(v) ==> reference_slice_outcome(kind, data@.len() as int, width as int, height as int) is Ok && v@
            == reference_slice_pixels(kind, data@, width as int, height as int),
        r matches Err(e) ==> reference_slice_outcome(kind, data@.len() as int, width as int, height as int) == Err::<
            (),
            Error,
        >(e),
{
    if width == 0 || height == 0 {
        proof {
            let (x, y) = (block_count(width as int), block_count(height as int));
            assert(width * height == 0 && x * y == 0) by (nonlinear_arith)
                requires
                    width == 0 || height == 0,
                    width == 0 ==> x == 0,
                    height == 0 ==> y == 0,
            ;
            assert(reference_slice_pixels(kind, data@, width as int, height as int) =~= Seq::<u8>::empty());
        }
        return match kind {
            DecodeContent::Rgba8 | DecodeContent::Bgra8 => Err(Error::InvalidField("zero image dimension")),
            _ => Ok(Vec::new()),
        };
    }
    match kind {
        DecodeContent::Bc7 => {},
        _ => {
            return decode_slice(kind, data, width, height);
        },
    }
    match block_grid(width, height, 16) {
        Err(e) => {
            return Err(e);
        },
        Ok((_, _, need)) => {
            if data.len() < need {
                return Err(Error::TruncatedData);
            }
        },
    }
    let n: usize = match product3(width as usize, height as usize, 4) {
        Ok(n) => n,
        Err(e) => {
            return Err(e);
        },
    };
    let mut out: Vec<u8> = vec![0u8; n];
    let ghost texels = |block: Seq<u8>| bc7_rgba(block);
    let f = |block: &[u8]| -> (px: [u8; 64])
        requires
            block@.len() == 16,
        ensures
            px@ == bc7_rgba(block@),
        { general_bc7(block) };
    tile_blocks(f, Ghost(texels), 16, data, width as usize, height as usize, out.as_mut_slice());
    Ok(out)
}

/// Whether the decode of a surface succeeds, and if not, why.
pub open spec fn reference_outcome(kind: DecodeContent, len: int, w: int, h: int, d: int) -> Result<(), Error> {
    let s = slice_bytes(kind, w, h);
    if d == 0 {
        Err(Error::InvalidField("zero depth"))
    } else if d == 1 {
        reference_slice_outcome(kind, len, w, h)
    } else if w == 0 || h == 0 {
        Err(Error::InvalidField("zero image dimension"))
    } else if s > usize::MAX || s * d > usize::MAX {
        Err(Error::OutOfBounds)
    } else if len < s * d {
        Err(Error::TruncatedData)
    } else {
        Ok(())
    }
}

/// Decodes a surface with the general block decoder: one slice, or every slice
/// of a volume, stacked.
pub fn reference_rgba8(kind: DecodeContent, data: &[u8], width: u32, height: u32, depth: u32) -> (r: Result<Vec<u8>, Error>)
    requires
        kind.block_size() is Some && depth > 0 ==> width * height * 4 <= usize::MAX,
        kind.block_size() is Some && depth == 1 ==> slice_bytes(kind, width as int, height as int) <= usize::MAX,
    ensures
        r matches Ok(v) ==> reference_outcome(kind, data@.len() as int, width as int, height as int, depth as int) is Ok
            && v@ == reference_pixels(kind, data@, width as int, height as int, depth as int),
        r matches Err(e) ==> reference_outcome(kind, data@.len() as int, width as int, height as int, depth as int)
            == Err::<(), Error>(e),
{
    if depth == 0 {
        return Err(Error::InvalidField("zero depth"));
    }
    if depth == 1 {
        return reference_slice(kind, data, width, height);
    }
    let s: usize = match slice_payload_bytes(kind, width, height) {
        Ok(s) => s,
        Err(e) => {
            return Err(e);
        },
    };
    let need: usize = match s.checked_mul(depth as usize) {
        Some(n) => n,
        None => {
            return Err(Error::OutOfBounds);
        },
    };
    if data.len() < need {
        return Err(Error::TruncatedData);
    }
    let mut out: Vec<u8> = Vec::new();
    let mut z: u32 = 0;
    while z < depth
        invariant
            z <= depth,
            depth > 1,
            width > 0,
            height > 0,
            s == slice_bytes(kind, width as int, height as int),
            need == s * depth,
            data@.len() >= need,
            need <= usize::MAX,
            reference_outcome(kind, data@.len() as int, width as int, height as int, depth as int) is Ok,
            s <= usize::MAX,
            kind.block_size() is Some ==> width * height * 4 <= usize::MAX,
            out@ == reference_stack(kind, data@, width as int, height as int, z as nat),
        decreases depth - z,
    {
        proof {
            assert(0 <= z * s && z * s + s <= s * depth) by (nonlinear_arith)
                requires
                    0 <= z,
                    z + 1 <= depth,
                    s >= 0,
            ;
        }
        let at: usize = (z as usize) * s;
        match reference_slice(kind, vstd::slice::slice_subrange(data, at, at + s), width, height) {
            Ok(mut v) => {
                out.append(&mut v);
            },
            Err(e) => {
                return Err(e);
            },
        }
        z = z + 1;
    }
    Ok(out)
}

proof fn lemma_stack_is_the_decode(kind: DecodeContent, data: Seq<u8>, w: int, h: int, n: nat)
    ensures
        reference_stack(kind, data, w, h, n) == stacked_pixels(kind, data, w, h, n),
    decreases n,
{
    if n > 0 {
        let s = slice_bytes(kind, w, h);
        lemma_stack_is_the_decode(kind, data, w, h, (n - 1) as nat);
        lemma_slice_is_the_decode(kind, data.subrange((n - 1) * s, (n - 1) * s + s), w, h);
    }
}

proof fn lemma_slice_is_the_decode(kind: DecodeContent, data: Seq<u8>, w: int, h: int)
    ensures
        reference_slice_pixels(kind, data, w, h) == slice_pixels(kind, data, w, h),
{
    if kind == DecodeContent::Bc7 {
        assert((|block: Seq<u8>| bc7_rgba(block)) =~= (|block: Seq<u8>| block_rgba(kind, block)));
    }
}

/// The general decoder and the fast paths agree on every surface that is not
/// empty: the same pixels, or the same error.
pub proof fn law_reference_is_the_decode(kind: DecodeContent, data: Seq<u8>, w: int, h: int, d: int)
    requires
        w > 0,
        h > 0,
        d >= 0,
        kind.block_size() is Some && d > 0 ==> w * h * 4 <= usize::MAX,
        kind.block_size() is Some && d == 1 ==> slice_bytes(kind, w, h) <= usize::MAX,
    ensures
        reference_outcome(kind, data.len() as int, w, h, d) == surface_outcome(kind, data.len() as int, w, h, d),
        reference_pixels(kind, data, w, h, d) == decoded_pixels(kind, data, w, h, d),
{
    lemma_slice_is_the_decode(kind, data, w, h);
    lemma_stack_is_the_decode(kind, data, w, h, d as nat);
}

} // verus!
