//! An image as a payload of blocks, one after another in row order.

use vstd::prelude::*;

use crate::content::product3;
use crate::encode::blocks::rdo::{block_at, joined};
use crate::encode::blocks::{block_count, blocks_across, gather_block};
use crate::error::Error;
use crate::model::{rows, splice, store};

verus! {

/// Whether `bytes` are the first `size` bytes that the block encoder `f` gives
/// for the texels `px`.
pub open spec fn encoded_by<F: Fn(&[[u8; 4]; 16]) -> [u8; 16]>(f: F, px: Seq<Seq<u8>>, bytes: Seq<u8>, size: int) -> bool {
    exists|a: [[u8; 4]; 16], b: [u8; 16]|
        rows(a) == px && bytes == b@.take(size) && #[trigger] call_ensures(f, (&a,), b)
}

/// Whether the encode of an image of blocks of `size` bytes succeeds, and if
/// not, why.
pub open spec fn image_outcome(len: int, w: int, h: int, size: int, out_len: int) -> Result<(), Error> {
    let need = block_count(w) * block_count(h) * size;
    if block_count(w) * block_count(h) > usize::MAX || need > usize::MAX {
        Err(Error::OutOfBounds)
    } else if out_len < need {
        Err(Error::TruncatedData)
    } else if len < w * h * 4 {
        Err(Error::TruncatedData)
    } else {
        Ok(())
    }
}

/// What an image encodes to, block by block.
pub open spec fn image_payload(enc: spec_fn(Seq<Seq<u8>>) -> Seq<u8>, size: int, rgba: Seq<u8>, w: int, h: int) -> Seq<u8> {
    joined(Seq::new((block_count(w) * block_count(h)) as nat, |i: int| enc(block_at(rgba, w, h, i))), size)
}

/// Encodes an image block by block: each block's texels go to `encode_block`,
/// and the first `block_bytes` bytes of what it gives follow one another in
/// `out`. Positions past the edge repeat the edge.
pub fn encode_image<F: Fn(&[[u8; 4]; 16]) -> [u8; 16]>(
    rgba: &[u8],
    width: u32,
    height: u32,
    block_bytes: usize,
    encode_block: F,
    out: &mut [u8],
) -> (r: Result<(), Error>)
    requires
        block_bytes <= 16,
        forall|px: [[u8; 4]; 16]| #[trigger] call_requires(encode_block, (&px,)),
    ensures
        r == image_outcome(rgba@.len() as int, width as int, height as int, block_bytes as int, old(out)@.len() as int),
        r is Err ==> final(out)@ == old(out)@,
        final(out)@.len() == old(out)@.len(),
        r is Ok ==> forall|i: int|
            0 <= i < block_count(width as int) * block_count(height as int) ==> encoded_by(
                encode_block,
                #[trigger] block_at(rgba@, width as int, height as int, i),
                final(out)@.subrange(i * block_bytes, i * block_bytes + block_bytes),
                block_bytes as int,
            ),
        r is Ok ==> forall|k: int|
            block_count(width as int) * block_count(height as int) * block_bytes <= k < old(out)@.len()
                ==> #[trigger] final(out)@[k] == old(out)@[k],
{
    let w: usize = width as usize;
    let h: usize = height as usize;
    let bx_n: usize = blocks_across(w);
    let by_n: usize = blocks_across(h);
    let out_len: usize = out.len();
    let len: usize = rgba.len();
    match product3(bx_n, by_n, block_bytes) {
        Err(e) => {
            return Err(e);
        },
        Ok(need) => {
            if out_len < need {
                return Err(Error::TruncatedData);
            }
        },
    }
    match product3(w, h, 4) {
        Err(_) => {
            return Err(Error::TruncatedData);
        },
        Ok(n) => {
            if len < n {
                return Err(Error::TruncatedData);
            }
        },
    }
    let ghost start = out@;
    let ghost size = block_bytes as int;
    proof {
        lemma_fewer_blocks(w as int, h as int);
    }
    let mut by: usize = 0;
    while by < by_n
        invariant
            by <= by_n,
            w == width,
            h == height,
            bx_n == block_count(w as int),
            by_n == block_count(h as int),
            block_bytes <= 16,
            size == block_bytes,
            forall|px: [[u8; 4]; 16]| #[trigger] call_requires(encode_block, (&px,)),
            rgba@.len() >= w * h * 4,
            start.len() == out@.len(),
            out_len == out@.len(),
            bx_n * by_n * block_bytes <= out@.len(),
            bx_n * by_n <= usize::MAX,
            forall|i: int|
                0 <= i < by * bx_n ==> encoded_by(
                    encode_block,
                    #[trigger] block_at(rgba@, w as int, h as int, i),
                    out@.subrange(i * size, i * size + size),
                    size,
                ),
            forall|k: int| by * bx_n * block_bytes <= k < start.len() ==> #[trigger] out@[k] == start[k],
        decreases by_n - by,
    {
        let mut bx: usize = 0;
        while bx < bx_n
            invariant
                by < by_n,
                bx <= bx_n,
                w == width,
                h == height,
                bx_n == block_count(w as int),
                by_n == block_count(h as int),
                block_bytes <= 16,
                size == block_bytes,
                forall|px: [[u8; 4]; 16]| #[trigger] call_requires(encode_block, (&px,)),
                rgba@.len() >= w * h * 4,
                start.len() == out@.len(),
                out_len == out@.len(),
                bx_n * by_n * block_bytes <= out@.len(),
                bx_n * by_n <= usize::MAX,
                forall|i: int|
                    0 <= i < by * bx_n + bx ==> encoded_by(
                        encode_block,
                        #[trigger] block_at(rgba@, w as int, h as int, i),
                        out@.subrange(i * size, i * size + size),
                        size,
                    ),
                forall|k: int| (by * bx_n + bx) * block_bytes <= k < start.len() ==> #[trigger] out@[k] == start[k],
            decreases bx_n - bx,
        {
            proof {
                lemma_grid_step(bx_n as int, by_n as int, bx as int, by as int, size);
                lemma_block_at(rgba@, w as int, h as int, bx as int, by as int);
            }
            let px: [[u8; 4]; 16] = gather_block(rgba, w, h, bx, by);
            let b: [u8; 16] = encode_block(&px);
            let i: usize = by * bx_n + bx;
            let at: usize = i * block_bytes;
            let part: &[u8] = vstd::slice::slice_subrange(vstd::array::array_as_slice(&b), 0, block_bytes);
            let ghost before = out@;
            store(out, at, part);
            proof {
                assert(part@ =~= b@.take(size));
                assert(out@.subrange(i * size, i * size + size) =~= part@);
                assert(encoded_by(encode_block, block_at(rgba@, w as int, h as int, i as int), part@, size));
                assert forall|j: int| 0 <= j < i + 1 implies encoded_by(
                    encode_block,
                    #[trigger] block_at(rgba@, w as int, h as int, j),
                    out@.subrange(j * size, j * size + size),
                    size,
                ) by {
                    if j < i {
                        assert(0 <= j * size && j * size + size <= i * size) by (nonlinear_arith)
                            requires
                                0 <= j,
                                j + 1 <= i,
                                size >= 0,
                        ;
                        assert(out@.subrange(j * size, j * size + size) =~= before.subrange(j * size, j * size + size));
                    }
                }
                assert forall|k: int| (i + 1) * block_bytes <= k < start.len() implies #[trigger] out@[k] == start[k] by {
                    assert((i + 1) * size == i * size + size) by (nonlinear_arith);
                    assert(out@[k] == before[k]);
                }
            }
            bx = bx + 1;
        }
        proof {
            assert((by + 1) * bx_n == by * bx_n + bx_n) by (nonlinear_arith);
        }
        by = by + 1;
    }
    proof {
        assert(by_n * bx_n == bx_n * by_n) by (nonlinear_arith);
    }
    Ok(())
}

proof fn lemma_grid_step(bx_n: int, by_n: int, bx: int, by: int, size: int)
    requires
        0 <= bx < bx_n,
        0 <= by < by_n,
        size >= 0,
    ensures
        0 <= by * bx_n,
        by * bx_n + bx < bx_n * by_n,
        0 <= (by * bx_n + bx) * size,
        (by * bx_n + bx) * size + size <= bx_n * by_n * size,
{
    let i = by * bx_n + bx;
    assert(0 <= by * bx_n && i + 1 <= bx_n * by_n) by (nonlinear_arith)
        requires
            i == by * bx_n + bx,
            0 <= bx < bx_n,
            0 <= by < by_n,
    ;
    assert(0 <= i * size && i * size + size <= bx_n * by_n * size) by (nonlinear_arith)
        requires
            0 <= i,
            i + 1 <= bx_n * by_n,
            size >= 0,
    ;
}

/// An image has no more blocks than pixels.
proof fn lemma_fewer_blocks(w: int, h: int)
    requires
        0 <= w,
        0 <= h,
    ensures
        0 <= block_count(w) * block_count(h) <= w * h,
{
    assert(0 <= block_count(w) * block_count(h) <= w * h) by (nonlinear_arith)
        requires
            0 <= block_count(w) <= w,
            0 <= block_count(h) <= h,
    ;
}

proof fn lemma_block_at(rgba: Seq<u8>, w: int, h: int, bx: int, by: int)
    requires
        0 <= bx < block_count(w),
        0 <= by,
    ensures
        block_at(rgba, w, h, by * block_count(w) + bx) == crate::encode::blocks::block_texels(rgba, w, h, bx, by),
{
    vstd::arithmetic::div_mod::lemma_fundamental_div_mod_converse(
        by * block_count(w) + bx,
        block_count(w),
        by,
        bx,
    );
}

/// An encoded image, told block by block, is the payload of the blocks.
pub proof fn lemma_image_payload<F: Fn(&[[u8; 4]; 16]) -> [u8; 16]>(
    f: F,
    enc: spec_fn(Seq<Seq<u8>>) -> Seq<u8>,
    size: int,
    rgba: Seq<u8>,
    w: int,
    h: int,
    before: Seq<u8>,
    after: Seq<u8>,
)
    requires
        size > 0,
        0 <= w,
        0 <= h,
        before.len() == after.len(),
        block_count(w) * block_count(h) * size <= before.len(),
        forall|a: [[u8; 4]; 16], b: [u8; 16]| #[trigger] call_ensures(f, (&a,), b) ==> b@.take(size) == enc(rows(a)),
        forall|i: int|
            0 <= i < block_count(w) * block_count(h) ==> encoded_by(
                f,
                #[trigger] block_at(rgba, w, h, i),
                after.subrange(i * size, i * size + size),
                size,
            ),
        forall|k: int| block_count(w) * block_count(h) * size <= k < before.len() ==> #[trigger] after[k] == before[k],
    ensures
        after == splice(before, 0, image_payload(enc, size, rgba, w, h)),
{
    let n = block_count(w) * block_count(h);
    assert(n >= 0) by (nonlinear_arith)
        requires
            n == block_count(w) * block_count(h),
            block_count(w) >= 0,
            block_count(h) >= 0,
    ;
    let p = image_payload(enc, size, rgba, w, h);
    assert(p.len() == n * size) by {
        assert(n * size >= 0) by (nonlinear_arith)
            requires
                n >= 0,
                size > 0,
        ;
    }
    assert forall|k: int| 0 <= k < before.len() implies after[k] == splice(before, 0, p)[k] by {
        if k < n * size {
            let i = k / size;
            vstd::arithmetic::div_mod::lemma_fundamental_div_mod(k, size);
            vstd::arithmetic::div_mod::lemma_mod_bound(k, size);
            assert(0 <= i < n && 0 <= i * size && i * size + size <= n * size && k == i * size + k % size) by (nonlinear_arith)
                requires
                    k == size * i + k % size,
                    0 <= k % size < size,
                    0 <= k < n * size,
                    size > 0,
            ;
            let px = block_at(rgba, w, h, i);
            assert(encoded_by(f, px, after.subrange(i * size, i * size + size), size));
            let (a, b): ([[u8; 4]; 16], [u8; 16]) = choose|a: [[u8; 4]; 16], b: [u8; 16]|
                rows(a) == px && after.subrange(i * size, i * size + size) == b@.take(size) && #[trigger] call_ensures(
                    f,
                    (&a,),
                    b,
                );
            assert(after.subrange(i * size, i * size + size) == enc(px));
            assert(after[k] == after.subrange(i * size, i * size + size)[k % size]);
        }
    }
    assert(after =~= splice(before, 0, p));
}

} // verus!
