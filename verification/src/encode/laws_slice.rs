//! When a slice takes which way, and what it needs.

use vstd::prelude::*;

use crate::binary32::less;
use crate::content::{slice_bytes, DecodeContent};
use crate::encode::blocks::rdo::bc1_rdo_payload;
use crate::encode::blocks::rdo7::bc7_rdo_payload;
use crate::encode::blocks::{block_count, channel_range, color565, mix, word565, EncodeQuality};
use crate::encode::slice::{encode_slice_outcome, encode_surface_outcome, is_flat, slice_payload, stacked_payload};
use crate::error::Error;

verus! {

/// No two texels of an image are more than two apart in a channel.
pub open spec fn within_two(rgba: Seq<u8>, texels: int, c: int) -> bool {
    forall|i: int, j: int| 0 <= i < texels && 0 <= j < texels ==> #[trigger] rgba[4 * i + c] <= #[trigger] rgba[4 * j + c] + 2
}

proof fn lemma_range(rgba: Seq<u8>, c: int, n: nat)
    requires
        n > 0,
    ensures
        ({
            let (lo, hi) = channel_range(rgba, c, n);
            &&& forall|i: int| 0 <= i < n ==> lo <= #[trigger] rgba[4 * i + c] <= hi
            &&& exists|i: int| 0 <= i < n && #[trigger] rgba[4 * i + c] == lo
            &&& exists|i: int| 0 <= i < n && #[trigger] rgba[4 * i + c] == hi
        }),
    decreases n,
{
    reveal_with_fuel(channel_range, 2);
    let last = rgba[4 * (n - 1) + c];
    assert(rgba[(n - 1) * 4 + c] == last);
    if n > 1 {
        lemma_range(rgba, c, (n - 1) as nat);
    }
}

/// An image takes the short way exactly where it is of BC4 or BC5, and no two of its
/// texels are more than two apart in red or, for BC5, in red or in green.
pub proof fn law_flat_images(kind: DecodeContent, rgba: Seq<u8>, w: int, h: int)
    requires
        w > 0,
        h > 0,
        rgba.len() >= w * h * 4,
    ensures
        is_flat(kind, rgba, w, h) <==> match kind {
            DecodeContent::Bc4UNorm | DecodeContent::Bc4SNorm => within_two(rgba, w * h, 0),
            DecodeContent::Bc5UNorm | DecodeContent::Bc5SNorm => within_two(rgba, w * h, 0) && within_two(rgba, w * h, 1),
            _ => false,
        },
{
    assert(w * h > 0) by (nonlinear_arith)
        requires
            w > 0,
            h > 0,
    ;
    lemma_flat_channel(rgba, w * h, 0);
    lemma_flat_channel(rgba, w * h, 1);
}

proof fn lemma_flat_channel(rgba: Seq<u8>, n: int, c: int)
    requires
        n > 0,
    ensures
        ({
            let (lo, hi) = channel_range(rgba, c, n as nat);
            hi - lo <= 2 <==> within_two(rgba, n, c)
        }),
{
    let (lo, hi) = channel_range(rgba, c, n as nat);
    lemma_range(rgba, c, n as nat);
    let i = choose|i: int| 0 <= i < n && #[trigger] rgba[4 * i + c] == lo;
    let j = choose|j: int| 0 <= j < n && #[trigger] rgba[4 * j + c] == hi;
    assert(rgba[4 * i + c] == lo && rgba[4 * j + c] == hi);
}

/// A BC1 or BC7 slice goes through the rate-distortion pass exactly where the price
/// of a byte is above zero; no other content does, whatever the price.
pub proof fn law_price_asks_for_the_pass(kind: DecodeContent, q: EncodeQuality, lambda: u32, rgba: Seq<u8>, w: int, h: int)
    ensures
        kind == DecodeContent::Bc1 && 0 < lambda <= 0x7F80_0000 ==> slice_payload(kind, q, lambda, rgba, w, h)
            == bc1_rdo_payload(rgba, w, h, q, lambda),
        kind == DecodeContent::Bc7 && 0 < lambda <= 0x7F80_0000 ==> slice_payload(kind, q, lambda, rgba, w, h)
            == bc7_rdo_payload(rgba, w, h, lambda),
        lambda == 0 || lambda > 0x7F80_0000 || (kind != DecodeContent::Bc1 && kind != DecodeContent::Bc7) ==> slice_payload(
            kind,
            q,
            lambda,
            rgba,
            w,
            h,
        ) == slice_payload(kind, q, 0, rgba, w, h),
{
    reveal(less);
}

/// A slice encodes exactly where there are four bytes for each texel to read and the
/// bytes of its blocks, or texels, to write; with fewer it is truncated.
pub proof fn law_slice_needs_its_bytes(kind: DecodeContent, lambda: u32, len: int, w: int, h: int, out_len: int)
    requires
        w > 0,
        h > 0,
        w * h * 4 <= usize::MAX,
        slice_bytes(kind, w, h) <= usize::MAX,
    ensures
        encode_slice_outcome(kind, lambda, len, w, h, out_len) == (if len >= w * h * 4 && out_len >= slice_bytes(kind, w, h) {
            Ok::<(), Error>(())
        } else {
            Err::<(), Error>(Error::TruncatedData)
        }),
{
    let (x, y) = (block_count(w), block_count(h));
    assert(x > 0 && y > 0);
    if let Some(n) = kind.block_size() {
        assert(x * y <= x * y * n) by (nonlinear_arith)
            requires
                x > 0,
                y > 0,
                n >= 1,
        ;
    }
}

/// A volume encodes exactly where its slices do, one after another.
pub proof fn law_volume_needs_its_slices(kind: DecodeContent, len: int, w: int, h: int, d: int, out_len: int)
    requires
        w > 0,
        h > 0,
        d > 0,
        w * h * 4 * d <= usize::MAX,
        slice_bytes(kind, w, h) * d <= usize::MAX,
    ensures
        encode_surface_outcome(kind, len, w, h, d, out_len) == (if len >= w * h * 4 * d && out_len >= slice_bytes(kind, w, h)
            * d {
            Ok::<(), Error>(())
        } else {
            Err::<(), Error>(Error::TruncatedData)
        }),
{
    crate::decode::lemma_slice_bytes_positive(kind, w, h);
    let (s, o) = (w * h * 4, slice_bytes(kind, w, h));
    assert(0 < w * h) by (nonlinear_arith)
        requires
            w > 0,
            h > 0,
    ;
    assert(s <= s * d && o <= o * d) by (nonlinear_arith)
        requires
            s > 0,
            o > 0,
            d > 0,
    ;
}

/// A slice of a volume encodes to its own bytes, whatever the slices around it: the
/// last slice's payload follows those of the slices before.
pub proof fn law_slices_are_stacked(kind: DecodeContent, q: EncodeQuality, lambda: u32, rgba: Seq<u8>, w: int, h: int, n: nat)
    ensures
        stacked_payload(kind, q, lambda, rgba, w, h, 0).len() == 0,
        stacked_payload(kind, q, lambda, rgba, w, h, n + 1) == stacked_payload(kind, q, lambda, rgba, w, h, n)
            + slice_payload(kind, q, lambda, rgba.subrange(n * (w * h * 4), n * (w * h * 4) + w * h * 4), w, h),
{
    assert((n + 1 - 1) * (w * h * 4) == n * (w * h * 4));
}

/// A 5:6:5 word is kept by its colour, and a colour keeps its five, six and five high
/// bits in its word.
pub proof fn law_words_keep_their_colours(w: int, c: Seq<u8>)
    requires
        0 <= w < 65536,
        c.len() == 3,
    ensures
        word565(color565(w)) == w,
        0 <= word565(c) < 65536,
        color565(word565(c))[0] / 8 == c[0] / 8,
        color565(word565(c))[1] / 4 == c[1] / 4,
        color565(word565(c))[2] / 8 == c[2] / 8,
        color565(0) == seq![0u8, 0u8, 0u8],
        color565(65535) == seq![255u8, 255u8, 255u8],
{
    let (r, g, b) = (w / 2048, w / 32 % 64, w % 32);
    assert(0 <= r < 32 && w / 2048 % 32 == r);
    assert(w == 2048 * r + 32 * g + b);
    lemma_stretched(r, g, b);
    let v = word565(c);
    let (x, y, z) = (c[0] as int / 8, c[1] as int / 4, c[2] as int / 8);
    assert(v == x * 2048 + y * 32 + z);
    assert(v / 2048 == x && v / 32 == x * 64 + y && v % 32 == z);
    assert(v / 2048 % 32 == x && v / 32 % 64 == y);
    lemma_stretched(x, y, z);
    assert(color565(0) =~= seq![0u8, 0u8, 0u8]);
    assert(color565(65535) =~= seq![255u8, 255u8, 255u8]);
}

proof fn lemma_stretched(r: int, g: int, b: int)
    requires
        0 <= r < 32,
        0 <= g < 64,
        0 <= b < 32,
    ensures
        (r * 8 + r / 4) / 8 == r && r * 8 + r / 4 <= 255,
        (g * 4 + g / 16) / 4 == g && g * 4 + g / 16 <= 255,
        (b * 8 + b / 4) / 8 == b && b * 8 + b / 4 <= 255,
{
}

/// A mix is rounded down and lies between its parts; parts that are equal are kept.
pub proof fn law_mix_is_between(aw: int, bw: int, a: int, b: int)
    requires
        aw >= 0,
        bw >= 0,
        aw + bw > 0,
    ensures
        a <= b ==> a <= mix(aw, bw, a, b) <= b,
        a >= b ==> b <= mix(aw, bw, a, b) <= a,
        mix(aw, bw, a, a) == a,
        mix(aw, bw, a, b) == mix(bw, aw, b, a),
        (aw + bw) * mix(aw, bw, a, b) <= aw * a + bw * b < (aw + bw) * mix(aw, bw, a, b) + aw + bw,
{
    let n = aw + bw;
    let m = aw * a + bw * b;
    let q = mix(aw, bw, a, b);
    assert(n * q <= m < n * q + n) by (nonlinear_arith)
        requires
            q == m / n,
            n > 0,
    ;
    if a <= b {
        assert(n * a <= m <= n * b) by (nonlinear_arith)
            requires
                m == aw * a + bw * b,
                n == aw + bw,
                a <= b,
                aw >= 0,
                bw >= 0,
        ;
        lemma_floor(n, q, m, a, b);
    }
    if a >= b {
        assert(n * b <= m <= n * a) by (nonlinear_arith)
            requires
                m == aw * a + bw * b,
                n == aw + bw,
                a >= b,
                aw >= 0,
                bw >= 0,
        ;
        lemma_floor(n, q, m, b, a);
    }
    let p = mix(aw, bw, a, a);
    assert(aw * a + bw * a == n * a) by (nonlinear_arith)
        requires
            n == aw + bw,
    ;
    vstd::arithmetic::div_mod::lemma_div_multiples_vanish(a, n);
}

proof fn lemma_floor(n: int, q: int, m: int, lo: int, hi: int)
    requires
        n > 0,
        n * q <= m < n * q + n,
        n * lo <= m <= n * hi,
    ensures
        lo <= q <= hi,
{
    assert(lo <= q) by (nonlinear_arith)
        requires
            n > 0,
            m < n * q + n,
            n * lo <= m,
    ;
    assert(q <= hi) by (nonlinear_arith)
        requires
            n > 0,
            n * q <= m,
            m <= n * hi,
    ;
}

} // verus!
