//! BC6H surfaces to RGBA in single precision, each number as its bit pattern.

use vstd::prelude::*;

use crate::content::product3;
use crate::decode::bcdec::{bc6h_texels, general_bc6h, mode11_texels};
use crate::decode::bcn::{block_grid, blocks_outcome, tile_blocks, tiled};
use crate::error::Error;

verus! {

/// One, in single precision.
pub const ONE: u32 = 0x3F80_0000;

/// Sixteen RGB texels as RGBA texels, opaque.
pub open spec fn widened(rgb: Seq<u32>) -> Seq<u32> {
    Seq::new(
        64,
        |k: int|
            if k % 4 == 3 {
                ONE
            } else {
                rgb[k / 4 * 3 + k % 4]
            },
    )
}

/// The sixteen RGB texels of a BC6H block.
pub open spec fn bc6h_rgb(block: Seq<u8>, signed: bool) -> Seq<u32> {
    if !signed && block[0] % 32 == 3 {
        mode11_texels(block)
    } else {
        bc6h_texels(block, signed)
    }
}

/// The RGBA pixels of a BC6H slice.
pub open spec fn bc6h_pixels(data: Seq<u8>, w: int, h: int, signed: bool) -> Seq<u32> {
    tiled(|block: Seq<u8>| widened(bc6h_rgb(block, signed)), 16, data, w, h)
}

fn widen(rgb: &[u32; 48]) -> (px: [u32; 64])
    ensures
        px@ == widened(rgb@),
{
    let mut px: [u32; 64] = [0u32; 64];
    let mut p: usize = 0;
    while p < 16
        invariant
            p <= 16,
            forall|k: int| 0 <= k < 4 * p ==> #[trigger] px@[k] == widened(rgb@)[k],
        decreases 16 - p,
    {
        px[4 * p] = rgb[3 * p];
        px[4 * p + 1] = rgb[3 * p + 1];
        px[4 * p + 2] = rgb[3 * p + 2];
        px[4 * p + 3] = ONE;
        p = p + 1;
    }
    proof {
        assert(px@ =~= widened(rgb@));
    }
    px
}

/// Checks a slice's dimensions and payload.
fn validate(data: &[u8], width: u32, height: u32) -> (r: Result<(), Error>)
    ensures
        r == blocks_outcome(16, data@.len() as int, width as int, height as int, width * height * 4),
{
    match block_grid(width, height, 16) {
        Err(e) => Err(e),
        Ok((_, _, need)) => if data.len() < need {
            Err(Error::TruncatedData)
        } else {
            Ok(())
        },
    }
}

/// Decodes a BC6H slice into `out`, which must be exactly one RGBA surface.
pub fn decode_bc6h_into(data: &[u8], width: u32, height: u32, signed: bool, out: &mut [u32]) -> (r: Result<(), Error>)
    ensures
        r == blocks_outcome(16, data@.len() as int, width as int, height as int, old(out)@.len() as int),
        r is Ok ==> final(out)@ == bc6h_pixels(data@, width as int, height as int, signed),
        r is Err ==> final(out)@ == old(out)@,
{
    match validate(data, width, height) {
        Ok(_) => {},
        Err(e) => {
            return Err(e);
        },
    }
    let len: usize = out.len();
    match product3(width as usize, height as usize, 4) {
        Ok(n) => {
            if len != n {
                return Err(Error::OutOfBounds);
            }
        },
        Err(_) => {
            return Err(Error::OutOfBounds);
        },
    }
    let ghost texels = |block: Seq<u8>| widened(bc6h_rgb(block, signed));
    let f = |block: &[u8]| -> (px: [u32; 64])
        requires
            block@.len() == 16,
        ensures
            px@ == widened(bc6h_rgb(block@, signed)),
        { widen(&general_bc6h(block, signed)) };
    tile_blocks(f, Ghost(texels), 16, data, width as usize, height as usize, out);
    Ok(())
}

/// Whether the decode of a BC6H slice into a buffer of its own succeeds, and
/// if not, why.
pub open spec fn bc6h_outcome(len: int, w: int, h: int) -> Result<(), Error> {
    let base = blocks_outcome(16, len, w, h, w * h * 4);
    if base is Ok && w * h * 4 > usize::MAX {
        Err(Error::OutOfBounds)
    } else {
        base
    }
}

/// Decodes a BC6H slice.
pub fn decode_bc6h(data: &[u8], width: u32, height: u32, signed: bool) -> (r: Result<Vec<u32>, Error>)
    ensures
        r matches Ok(v) ==> bc6h_outcome(data@.len() as int, width as int, height as int) is Ok && v@ == bc6h_pixels(
            data@,
            width as int,
            height as int,
            signed,
        ),
        r matches Err(e) ==> bc6h_outcome(data@.len() as int, width as int, height as int) == Err::<(), Error>(e),
{
    match validate(data, width, height) {
        Ok(_) => {},
        Err(e) => {
            return Err(e);
        },
    }
    let n: usize = match product3(width as usize, height as usize, 4) {
        Ok(n) => n,
        Err(e) => {
            return Err(e);
        },
    };
    let mut out: Vec<u32> = vec![0u32; n];
    match decode_bc6h_into(data, width, height, signed, out.as_mut_slice()) {
        Ok(_) => Ok(out),
        Err(e) => Err(e),
    }
}

} // verus!
