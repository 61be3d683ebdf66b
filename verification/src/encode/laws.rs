//! What an encoded slice decodes to.

use vstd::prelude::*;

use crate::content::DecodeContent;
use crate::decode::bcn::{block_rgba, tiled_texel};
use crate::decode::slice_pixels;
use crate::encode::blocks::alpha::{alpha_block, alpha_flat, column, high_level, law_alpha_score, lemma_alpha_encoded, lemma_consider_sound, lemma_levels_in_range, low_level};
use crate::encode::blocks::bc1::lemma_bc1_encoded;
use crate::encode::blocks::laws_rdo::{law_bc1_rdo_blocks_are_legal, law_bc7_blocks_are_legal, law_bc7_rdo_blocks_are_legal};
use crate::encode::blocks::rdo::{block_at, image_dictionary, joined, rdo_blocks};
use crate::encode::blocks::rdo7::rdo_blocks7;
use crate::encode::blocks::{block_count, is_block, EncodeQuality};
use crate::encode::slice::{encoded_block, is_flat, optimised, slice_payload};

verus! {

proof fn lemma_flat_len(s: Seq<u8>, signed: bool)
    requires
        s.len() == 16,
    ensures
        alpha_flat(s, signed).0.len() == 8,
{
    lemma_levels_in_range(s, signed, 16);
    let (lo, hi) = (low_level(s, signed), high_level(s, signed));
    law_alpha_score(s, hi, lo, signed);
    lemma_consider_sound(s, alpha_block(s, hi, lo, signed), lo, hi, signed);
}

/// A block encodes to as many bytes as its kind has.
pub proof fn lemma_encoded_block_len(kind: DecodeContent, q: EncodeQuality, flat: bool, px: Seq<Seq<u8>>)
    requires
        kind.block_size() is Some,
        is_block(px),
    ensures
        encoded_block(kind, q, flat, px).len() == kind.block_size().unwrap(),
{
    lemma_bc1_encoded(px, q);
    lemma_alpha_encoded(column(px, 0), q, false);
    lemma_alpha_encoded(column(px, 0), q, true);
    lemma_alpha_encoded(column(px, 1), q, false);
    lemma_alpha_encoded(column(px, 1), q, true);
    lemma_alpha_encoded(column(px, 3), q, false);
    lemma_flat_len(column(px, 0), false);
    lemma_flat_len(column(px, 0), true);
    lemma_flat_len(column(px, 1), false);
    lemma_flat_len(column(px, 1), true);
    law_bc7_blocks_are_legal(px);
}

/// Blocks joined one after another are found again at their places.
pub proof fn lemma_joined_block(blocks: Seq<Seq<u8>>, size: int, i: int)
    requires
        size > 0,
        0 <= i < blocks.len(),
        blocks[i].len() == size,
    ensures
        joined(blocks, size).subrange(i * size, i * size + size) == blocks[i],
{
    let n = blocks.len() as int;
    assert(0 <= i * size && i * size + size <= n * size && n * size >= 0) by (nonlinear_arith)
        requires
            0 <= i,
            i + 1 <= n,
            size > 0,
    ;
    let part = joined(blocks, size).subrange(i * size, i * size + size);
    assert forall|k: int| 0 <= k < size implies part[k] == blocks[i][k] by {
        vstd::arithmetic::div_mod::lemma_fundamental_div_mod_converse(i * size + k, size, i, k);
    }
    assert(part =~= blocks[i]);
}

/// The number of the block that holds texel `(x, y)`.
pub open spec fn block_of(w: int, x: int, y: int) -> int {
    (y / 4) * block_count(w) + x / 4
}

/// Blocks joined one after another decode, at every texel, to what the block
/// that holds the texel decodes to.
proof fn lemma_joined_decodes(kind: DecodeContent, blocks: Seq<Seq<u8>>, w: int, h: int, x: int, y: int, c: int)
    requires
        kind.block_size() is Some,
        0 <= x < w,
        0 <= y < h,
        0 <= c < 4,
        blocks.len() == block_count(w) * block_count(h),
        0 <= block_of(w, x, y) < blocks.len() ==> blocks[block_of(w, x, y)].len() == kind.block_size().unwrap(),
    ensures
        0 <= block_of(w, x, y) < blocks.len(),
        slice_pixels(kind, joined(blocks, kind.block_size().unwrap()), w, h)[(y * w + x) * 4 + c] == block_rgba(
            kind,
            blocks[block_of(w, x, y)],
        )[((y % 4) * 4 + x % 4) * 4 + c],
{
    let size = kind.block_size().unwrap();
    let (bw, bh) = (block_count(w), block_count(h));
    let n = bw * bh;
    let i = block_of(w, x, y);
    assert(0 <= i < n) by (nonlinear_arith)
        requires
            i == (y / 4) * bw + x / 4,
            n == bw * bh,
            0 <= x / 4 < bw,
            0 <= y / 4 < bh,
    ;
    lemma_joined_block(blocks, size, i);
    let data = joined(blocks, size);
    let t = y * w + x;
    vstd::arithmetic::div_mod::lemma_fundamental_div_mod_converse(t, w, y, x);
    let k = t * 4 + c;
    assert(0 <= k < w * h * 4) by (nonlinear_arith)
        requires
            k == (y * w + x) * 4 + c,
            0 <= c < 4,
            0 <= x < w,
            0 <= y < h,
    ;
    assert(k / 4 == t && k % 4 == c);
    let texels = |block: Seq<u8>| block_rgba(kind, block);
    assert(slice_pixels(kind, data, w, h)[k] == tiled_texel(texels, size, data, w, t, c));
}

/// Decoding an encoded slice gives, at every texel, what the block that holds
/// the texel decodes to, and that block is the encoding of the sixteen texels
/// there.
pub proof fn law_texels_decode_from_their_blocks(
    kind: DecodeContent,
    q: EncodeQuality,
    lambda: u32,
    rgba: Seq<u8>,
    w: int,
    h: int,
    x: int,
    y: int,
    c: int,
)
    requires
        kind.block_size() is Some,
        !optimised(kind, lambda),
        0 <= x < w,
        0 <= y < h,
        0 <= c < 4,
    ensures
        slice_pixels(kind, slice_payload(kind, q, lambda, rgba, w, h), w, h)[(y * w + x) * 4 + c] == block_rgba(
            kind,
            encoded_block(kind, q, is_flat(kind, rgba, w, h), block_at(rgba, w, h, block_of(w, x, y))),
        )[((y % 4) * 4 + x % 4) * 4 + c],
{
    let flat = is_flat(kind, rgba, w, h);
    let n = block_count(w) * block_count(h);
    assert(n >= 0) by (nonlinear_arith)
        requires
            n == block_count(w) * block_count(h),
            block_count(w) >= 0,
            block_count(h) >= 0,
    ;
    let enc = |px: Seq<Seq<u8>>| encoded_block(kind, q, flat, px);
    let blocks = Seq::new(n as nat, |i: int| enc(block_at(rgba, w, h, i)));
    let px = block_at(rgba, w, h, block_of(w, x, y));
    assert(is_block(px));
    lemma_encoded_block_len(kind, q, flat, px);
    lemma_joined_decodes(kind, blocks, w, h, x, y, c);
}

/// The same under a rate-distortion strength: the block is the one that the
/// pass emitted there.
pub proof fn law_optimised_texels_decode_from_their_blocks(
    kind: DecodeContent,
    q: EncodeQuality,
    lambda: u32,
    rgba: Seq<u8>,
    w: int,
    h: int,
    x: int,
    y: int,
    c: int,
)
    requires
        optimised(kind, lambda),
        0 <= x < w,
        0 <= y < h,
        0 <= c < 4,
    ensures
        ({
            let n = (block_count(w) * block_count(h)) as nat;
            let blocks = if kind == DecodeContent::Bc1 {
                rdo_blocks(rgba, w, h, q, image_dictionary(rgba, w, h, q), lambda, n)
            } else {
                rdo_blocks7(rgba, w, h, lambda, n)
            };
            slice_pixels(kind, slice_payload(kind, q, lambda, rgba, w, h), w, h)[(y * w + x) * 4 + c] == block_rgba(
                kind,
                blocks[block_of(w, x, y)],
            )[((y % 4) * 4 + x % 4) * 4 + c]
        }),
{
    let n = block_count(w) * block_count(h);
    assert(n >= 0) by (nonlinear_arith)
        requires
            n == block_count(w) * block_count(h),
            block_count(w) >= 0,
            block_count(h) >= 0,
    ;
    if kind == DecodeContent::Bc1 {
        let dict = image_dictionary(rgba, w, h, q);
        law_bc1_rdo_blocks_are_legal(rgba, w, h, q, dict, lambda, n as nat);
        lemma_joined_decodes(kind, rdo_blocks(rgba, w, h, q, dict, lambda, n as nat), w, h, x, y, c);
    } else {
        law_bc7_rdo_blocks_are_legal(rgba, w, h, lambda, n as nat);
        lemma_joined_decodes(kind, rdo_blocks7(rgba, w, h, lambda, n as nat), w, h, x, y, c);
    }
}

} // verus!
