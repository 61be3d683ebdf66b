//! The general block decoders, from the `bcdec_rs` crate.
//!
//! Each function here hands one block to that crate. What BC1 to BC5 decode to
//! is stated; what BC6H and BC7 decode to takes the formats' own definitions to
//! state, and is named. The modes of the two that this library writes or decodes
//! itself are stated too.

use vstd::prelude::*;

use crate::decode::bcn::{block_number, lone_index, mode1_texels, mode3_texels, mode4_texels, mode5_texels, mode6_texels};
use crate::encode::bc6h::{entry11, single_of};
use crate::encode::blocks::alpha::{alpha_indices, alpha_levels, level_stored, stored};
use crate::model::{bit_field, digit, digits_of, le16, le32};

verus! {

/// The three fields of a 5:6:5 word.
pub open spec fn fields565(w: int) -> (int, int, int) {
    (w / 2048 % 32, w / 32 % 64, w % 32)
}

/// The RGBA colour of a 5:6:5 word: each field over its greatest value,
/// rounded to a byte.
pub open spec fn end_colour(w: int) -> Seq<u8> {
    let (r, g, b) = fields565(w);
    seq![((r * 527 + 23) / 64) as u8, ((g * 259 + 33) / 64) as u8, ((b * 527 + 23) / 64) as u8, 255u8]
}

/// The RGBA colour two thirds of the way from the second word to the first.
pub open spec fn third_colour(c0: int, c1: int) -> Seq<u8> {
    let (r0, g0, b0) = fields565(c0);
    let (r1, g1, b1) = fields565(c1);
    seq![
        (((2 * r0 + r1) * 351 + 61) / 128) as u8,
        (((2 * g0 + g1) * 2763 + 1039) / 2048) as u8,
        (((2 * b0 + b1) * 351 + 61) / 128) as u8,
        255u8,
    ]
}

/// The RGBA colour halfway between the two words.
pub open spec fn half_colour(c0: int, c1: int) -> Seq<u8> {
    let (r0, g0, b0) = fields565(c0);
    let (r1, g1, b1) = fields565(c1);
    seq![
        (((r0 + r1) * 1053 + 125) / 256) as u8,
        (((g0 + g1) * 4145 + 1019) / 2048) as u8,
        (((b0 + b1) * 1053 + 125) / 256) as u8,
        255u8,
    ]
}

/// Colour `k` of a block's two words: the ends and two thirds between, or,
/// where the first word is not the larger and the format allows it, the ends,
/// the middle and transparent black.
pub open spec fn decoded_colour(c0: int, c1: int, always_four: bool, k: int) -> Seq<u8> {
    let four = c0 > c1 || always_four;
    if k == 0 {
        end_colour(c0)
    } else if k == 1 {
        end_colour(c1)
    } else if k == 2 {
        if four {
            third_colour(c0, c1)
        } else {
            half_colour(c0, c1)
        }
    } else {
        if four {
            third_colour(c1, c0)
        } else {
            seq![0u8, 0u8, 0u8, 0u8]
        }
    }
}

/// The sixteen RGBA texels of a colour block: two words, then sixteen 2-bit
/// indices.
pub open spec fn colour_texels(block: Seq<u8>, always_four: bool) -> Seq<u8> {
    Seq::new(
        64,
        |k: int|
            decoded_colour(
                le16(block, 0),
                le16(block, 2),
                always_four,
                digits_of(le32(block, 4), 4, 16)[k / 4] as int,
            )[k % 4],
    )
}

/// The sixteen RGBA texels, row by row, that a BC1 block decodes to.
pub open spec fn bc1_texels(block: Seq<u8>) -> Seq<u8> {
    colour_texels(block, false)
}

/// The sixteen RGBA texels, row by row, that a BC2 block decodes to: alpha in
/// sixteen 4-bit levels, then a colour block of four colours.
pub open spec fn bc2_texels(block: Seq<u8>) -> Seq<u8> {
    Seq::new(
        64,
        |k: int|
            if k % 4 == 3 {
                (17 * digit(block[k / 8] as int, 16, (k / 4 % 2) as nat)) as u8
            } else {
                colour_texels(block.skip(8), true)[k]
            },
    )
}

/// The eight alpha bytes of a BC3 block's two endpoint bytes: six steps between
/// them where the first is the larger, else four steps and the two limits.
pub open spec fn smooth_levels(a: int, b: int) -> Seq<int> {
    if a > b {
        seq![
            a,
            b,
            (6 * a + b + 1) / 7,
            (5 * a + 2 * b + 1) / 7,
            (4 * a + 3 * b + 1) / 7,
            (3 * a + 4 * b + 1) / 7,
            (2 * a + 5 * b + 1) / 7,
            (a + 6 * b + 1) / 7,
        ]
    } else {
        seq![
            a,
            b,
            (4 * a + b + 1) / 5,
            (3 * a + 2 * b + 1) / 5,
            (2 * a + 3 * b + 1) / 5,
            (a + 4 * b + 1) / 5,
            0,
            255,
        ]
    }
}

/// The sixteen RGBA texels, row by row, that a BC3 block decodes to: an alpha
/// block, then a colour block of four colours.
pub open spec fn bc3_texels(block: Seq<u8>) -> Seq<u8> {
    Seq::new(
        64,
        |k: int|
            if k % 4 == 3 {
                smooth_levels(block[0] as int, block[1] as int)[alpha_indices(block)[k / 4] as int] as u8
            } else {
                colour_texels(block.skip(8), true)[k]
            },
    )
}

/// The sixteen RGBA texels, row by row, that a BC7 block decodes to.
pub uninterp spec fn bc7_texels(block: Seq<u8>) -> Seq<u8>;

/// The sixteen RGB texels, row by row, of an unsigned BC6H block with one subset
/// and two 10-bit endpoints, as single-precision patterns: the endpoints' red,
/// green and blue follow five mode bits, and the 4-bit indices follow them.
pub open spec fn mode11_texels(block: Seq<u8>) -> Seq<u32> {
    let v = block_number(block, 0);
    Seq::new(
        48,
        |k: int|
            {
                let c = k % 3;
                single_of(
                    entry11(
                        bit_field(v, (5 + 10 * c) as nat, 10),
                        bit_field(v, (35 + 10 * c) as nat, 10),
                        lone_index(v, 65, 4, k / 3),
                    ),
                )
            },
    )
}

/// The sixteen RGB texels, row by row, that a BC6H block decodes to, as
/// single-precision patterns.
pub uninterp spec fn bc6h_texels(block: Seq<u8>, signed: bool) -> Seq<u32>;

/// The level that a BC4 endpoint byte stands for: the signed byte -128 counts
/// as -127.
pub open spec fn endpoint_level(b: u8, signed: bool) -> int {
    if level_stored(b, signed) < -127 {
        -127
    } else {
        level_stored(b, signed)
    }
}

/// The sixteen bytes, row by row, that a BC4 block decodes to: each index
/// picks one of the eight levels of the endpoint pair, stored as a byte.
pub open spec fn bc4_bytes(block: Seq<u8>, signed: bool) -> Seq<u8> {
    let levels = alpha_levels(endpoint_level(block[0], signed), endpoint_level(block[1], signed), signed);
    Seq::new(16, |i: int| stored(levels[alpha_indices(block)[i] as int]))
}

/// `bcdec_rs::bc1` into a 4x4 RGBA scratch: a colour block, which may have
/// three colours and transparent black.
#[verifier::external_body]
pub(crate) fn general_bc1(block: &[u8]) -> (px: [u8; 64])
    requires
        block@.len() == 8,
    ensures
        px@ == bc1_texels(block@),
{
    let mut px: [u8; 64] = [0u8; 64];
    bcdec_rs::bc1(block, &mut px, 16);
    px
}

/// `bcdec_rs::bc2` into a 4x4 RGBA scratch: 4-bit alpha levels, then a colour
/// block of four colours.
#[verifier::external_body]
pub(crate) fn general_bc2(block: &[u8]) -> (px: [u8; 64])
    requires
        block@.len() == 16,
    ensures
        px@ == bc2_texels(block@),
{
    let mut px: [u8; 64] = [0u8; 64];
    bcdec_rs::bc2(block, &mut px, 16);
    px
}

/// `bcdec_rs::bc3` into a 4x4 RGBA scratch: an alpha block, then a colour block
/// of four colours.
#[verifier::external_body]
pub(crate) fn general_bc3(block: &[u8]) -> (px: [u8; 64])
    requires
        block@.len() == 16,
    ensures
        px@ == bc3_texels(block@),
{
    let mut px: [u8; 64] = [0u8; 64];
    bcdec_rs::bc3(block, &mut px, 16);
    px
}

/// `bcdec_rs::bc4` into a 4x4 single-channel scratch: two endpoint bytes and
/// sixteen 3-bit indices into the eight levels between them.
#[verifier::external_body]
pub(crate) fn general_bc4(block: &[u8], signed: bool) -> (px: [u8; 16])
    requires
        block@.len() == 8,
    ensures
        px@ == bc4_bytes(block@, signed),
{
    let mut px: [u8; 16] = [0u8; 16];
    bcdec_rs::bc4(block, &mut px, 4, signed);
    px
}

/// `bcdec_rs::bc5` into a 4x4 two-channel scratch: the first eight bytes are
/// red's block and the last eight green's, each as in BC4.
#[verifier::external_body]
pub(crate) fn general_bc5(block: &[u8], signed: bool) -> (px: [u8; 32])
    requires
        block@.len() == 16,
    ensures
        forall|i: int| 0 <= i < 16 ==> #[trigger] px@[2 * i] == bc4_bytes(block@.take(8), signed)[i],
        forall|i: int| 0 <= i < 16 ==> #[trigger] px@[2 * i + 1] == bc4_bytes(block@.skip(8), signed)[i],
{
    let mut px: [u8; 32] = [0u8; 32];
    bcdec_rs::bc5(block, &mut px, 8, signed);
    px
}

/// `bcdec_rs::bc7` into a 4x4 RGBA scratch; its result is named `bc7_texels`.
/// What blocks of modes 1, 3, 5 and 6 decode to is stated besides, and of mode 4
/// without rotation where the 2-bit indices are the colour's.
#[verifier::external_body]
pub(crate) fn general_bc7(block: &[u8]) -> (px: [u8; 64])
    requires
        block@.len() == 16,
    ensures
        px@ == bc7_texels(block@),
        block@[0] % 4 == 2 ==> px@ == mode1_texels(block@),
        block@[0] % 16 == 8 ==> px@ == mode3_texels(block@),
        block@[0] == 0x10 ==> px@ == mode4_texels(block@),
        block@[0] % 64 == 32 ==> px@ == mode5_texels(block@),
        block@[0] % 128 == 64 ==> px@ == mode6_texels(block@),
{
    let mut px: [u8; 64] = [0u8; 64];
    bcdec_rs::bc7(block, &mut px, 16);
    px
}

/// `bcdec_rs::bc6h_float` into a 4x4 RGB scratch, each number as its bit
/// pattern; its result is named `bc6h_texels`. What an unsigned block of the mode
/// with one subset and 10-bit endpoints decodes to is stated besides.
#[verifier::external_body]
pub(crate) fn general_bc6h(block: &[u8], signed: bool) -> (px: [u32; 48])
    requires
        block@.len() == 16,
    ensures
        px@ == bc6h_texels(block@, signed),
        !signed && block@[0] % 32 == 3 ==> px@ == mode11_texels(block@),
{
    let mut px: [_; 48] = core::array::from_fn(|_| Default::default());
    bcdec_rs::bc6h_float(block, &mut px, 12, signed);
    px.map(|v| v.to_bits())
}

} // verus!
