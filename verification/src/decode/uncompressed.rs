//! Uncompressed surfaces to RGBA8.

use vstd::prelude::*;

use crate::content::product3;
use crate::error::Error;
use crate::model::store;
use crate::swizzle::{swap_rb, swapped};

verus! {

/// Whether an uncompressed surface of `w` by `h` pixels can be read from `len`
/// bytes, and if not, why.
pub open spec fn plain_outcome(len: int, w: int, h: int) -> Result<(), Error> {
    if w * h * 4 > usize::MAX {
        Err(Error::OutOfBounds)
    } else if len < w * h * 4 {
        Err(Error::TruncatedData)
    } else {
        Ok(())
    }
}

/// The same, where the pixels go into a buffer of `out_len` bytes.
pub open spec fn plain_outcome_into(len: int, w: int, h: int, out_len: int) -> Result<(), Error> {
    if plain_outcome(len, w, h) is Ok && out_len != w * h * 4 {
        Err(Error::OutOfBounds)
    } else {
        plain_outcome(len, w, h)
    }
}

fn plain_length(len: usize, width: u32, height: u32) -> (r: Result<usize, Error>)
    ensures
        r matches Ok(n) ==> n == width * height * 4 && plain_outcome(len as int, width as int, height as int) is Ok,
        r matches Err(e) ==> plain_outcome(len as int, width as int, height as int) == Err::<(), Error>(e),
{
    match product3(width as usize, height as usize, 4) {
        Err(e) => Err(e),
        Ok(n) => if len < n {
            Err(Error::TruncatedData)
        } else {
            Ok(n)
        },
    }
}

/// Copies an RGBA8 surface.
pub fn decode_rgba8_into(data: &[u8], width: u32, height: u32, out: &mut [u8]) -> (r: Result<(), Error>)
    ensures
        r == plain_outcome_into(data@.len() as int, width as int, height as int, old(out)@.len() as int),
        r is Ok ==> final(out)@ == data@.take(width * height * 4),
        r is Err ==> final(out)@ == old(out)@,
{
    let n: usize = match plain_length(data.len(), width, height) {
        Ok(n) => n,
        Err(e) => {
            return Err(e);
        },
    };
    if out.len() != n {
        return Err(Error::OutOfBounds);
    }
    store(out, 0, vstd::slice::slice_subrange(data, 0, n));
    proof {
        assert(out@ =~= data@.take(n as int));
    }
    Ok(())
}

/// Copies an RGBA8 surface.
pub fn decode_rgba8(data: &[u8], width: u32, height: u32) -> (r: Result<Vec<u8>, Error>)
    ensures
        r matches Ok(v) ==> plain_outcome(data@.len() as int, width as int, height as int) is Ok && v@ == data@.take(
            width * height * 4,
        ),
        r matches Err(e) ==> plain_outcome(data@.len() as int, width as int, height as int) == Err::<(), Error>(e),
{
    let n: usize = match plain_length(data.len(), width, height) {
        Ok(n) => n,
        Err(e) => {
            return Err(e);
        },
    };
    let v: Vec<u8> = vstd::slice::slice_to_vec(vstd::slice::slice_subrange(data, 0, n));
    proof {
        assert(v@ =~= data@.take(n as int));
    }
    Ok(v)
}

/// Reads a BGRA8 surface as RGBA8.
pub fn decode_bgra8_into(data: &[u8], width: u32, height: u32, out: &mut [u8]) -> (r: Result<(), Error>)
    ensures
        r == plain_outcome_into(data@.len() as int, width as int, height as int, old(out)@.len() as int),
        r is Ok ==> final(out)@ == swapped(data@.take(width * height * 4)),
        r is Err ==> final(out)@ == old(out)@,
{
    let n: usize = match plain_length(data.len(), width, height) {
        Ok(n) => n,
        Err(e) => {
            return Err(e);
        },
    };
    if out.len() != n {
        return Err(Error::OutOfBounds);
    }
    let src: &[u8] = vstd::slice::slice_subrange(data, 0, n);
    proof {
        assert(src@ =~= data@.take(n as int));
    }
    let _ = swap_rb(src, out);
    Ok(())
}

/// Reads a BGRA8 surface as RGBA8.
pub fn decode_bgra8(data: &[u8], width: u32, height: u32) -> (r: Result<Vec<u8>, Error>)
    ensures
        r matches Ok(v) ==> plain_outcome(data@.len() as int, width as int, height as int) is Ok && v@ == swapped(
            data@.take(width * height * 4),
        ),
        r matches Err(e) ==> plain_outcome(data@.len() as int, width as int, height as int) == Err::<(), Error>(e),
{
    let n: usize = match plain_length(data.len(), width, height) {
        Ok(n) => n,
        Err(e) => {
            return Err(e);
        },
    };
    let mut out: Vec<u8> = vec![0u8; n];
    match decode_bgra8_into(data, width, height, out.as_mut_slice()) {
        Ok(()) => Ok(out),
        Err(e) => Err(e),
    }
}

} // verus!
