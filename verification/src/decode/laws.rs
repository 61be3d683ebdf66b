//! What a payload decodes to, told from the format that its headers name.

use vstd::prelude::*;

use crate::content::{slice_bytes, DecodeContent, HdrDecodeContent, ImageRgba8};
use crate::dds::{DdsBase, Payload};
use crate::decode::bc6h::{bc6h_pixels, bc6h_rgb, widened};
use crate::decode::bcdec::{bc1_texels, bc4_bytes, bc6h_texels, colour_texels, mode11_texels, smooth_levels};
use crate::decode::bcn::{bc4_of, bc5_of, bc7_rgba, block_rgba};
use crate::decode::{decoded_pixels, hdr_stack, law_volume_is_its_slices, lemma_slice_bytes_positive, lemma_slice_pixels_len, slice_pixels};
use crate::encode::blocks::alpha::alpha_indices;
use crate::encode::blocks::block_count;
use crate::error::Error;
use crate::format::{D3DFormat, DxgiFormat};
use crate::model::digit;
use crate::surface::{lemma_mip_side_step, SubresourceId};

verus! {

/// The number of the 4x4 block that holds texel `(x, y, z)` of a surface of `w`
/// by `h` texels a slice: blocks are counted along a row, then down, then from
/// slice to slice.
pub open spec fn block_index(w: int, h: int, x: int, y: int, z: int) -> int {
    (z * ((h + 3) / 4) + y / 4) * ((w + 3) / 4) + x / 4
}

/// The number of a texel within its block.
pub open spec fn in_its_block(x: int, y: int) -> int {
    (y % 4) * 4 + x % 4
}

/// Block `i` of a payload of blocks of `b` bytes.
pub open spec fn block_of(data: Seq<u8>, b: int, i: int) -> Seq<u8> {
    data.subrange(i * b, i * b + b)
}

/// Where the first channel of texel `(x, y, z)` stands among packed pixels.
pub open spec fn packed_at(w: int, h: int, x: int, y: int, z: int) -> int {
    ((z * h + y) * w + x) * 4
}

/// Four-bit number `t` of a run of bytes, low half first.
pub open spec fn nibble(bytes: Seq<u8>, t: int) -> int {
    if t % 2 == 0 {
        bytes[t / 2] as int % 16
    } else {
        bytes[t / 2] as int / 16
    }
}

proof fn lemma_block_inside(w: int, h: int, x: int, y: int, z: int, d: int)
    requires
        0 <= x < w,
        0 <= y < h,
        0 <= z < d,
    ensures
        ({
            let (bx, by) = (block_count(w), block_count(h));
            let j = (y / 4) * bx + x / 4;
            &&& 0 <= j < bx * by
            &&& block_index(w, h, x, y, z) == z * (bx * by) + j
            &&& z * (bx * by) >= 0
            &&& z * (bx * by) + bx * by <= bx * by * d
        }),
{
    let (bx, by) = (block_count(w), block_count(h));
    let (a, b) = (x / 4, y / 4);
    assert(0 <= a < bx && 0 <= b < by);
    assert(0 <= b * bx && b * bx + a < bx * by) by (nonlinear_arith)
        requires
            0 <= a < bx,
            0 <= b < by,
    ;
    assert((z * by + b) * bx + a == z * (bx * by) + (b * bx + a)) by (nonlinear_arith);
    assert(0 <= z * (bx * by) && z * (bx * by) + bx * by <= bx * by * d) by (nonlinear_arith)
        requires
            0 <= z < d,
            bx > 0,
            by > 0,
    ;
}

pub proof fn lemma_packed(w: int, h: int, x: int, y: int, z: int, c: int)
    requires
        0 <= x < w,
        0 <= y < h,
        0 <= z,
        0 <= c < 4,
    ensures
        ({
            let k = (y * w + x) * 4 + c;
            &&& packed_at(w, h, x, y, z) + c == z * (w * h * 4) + k
            &&& 0 <= k < w * h * 4
            &&& k / 4 % w == x
            &&& k / 4 / w == y
            &&& k % 4 == c
            &&& z * (w * h * 4) >= 0
            &&& (z + 1) * (w * h * 4) == z * (w * h * 4) + w * h * 4
        }),
{
    let t = y * w + x;
    let k = t * 4 + c;
    assert(((z * h + y) * w + x) * 4 == z * (w * h * 4) + t * 4) by (nonlinear_arith)
        requires
            t == y * w + x,
    ;
    assert(0 <= t < w * h) by (nonlinear_arith)
        requires
            t == y * w + x,
            0 <= x < w,
            0 <= y < h,
    ;
    assert(z * (w * h * 4) >= 0 && (z + 1) * (w * h * 4) == z * (w * h * 4) + w * h * 4) by (nonlinear_arith)
        requires
            z >= 0,
            0 <= w * h,
    ;
    assert(k / 4 == t && k % 4 == c);
    vstd::arithmetic::div_mod::lemma_fundamental_div_mod_converse(t, w, y, x);
}

/// Channel `c` of texel `(x, y, z)` of a decoded surface is that channel of the
/// texel's slice.
proof fn lemma_slice_of(kind: DecodeContent, data: Seq<u8>, w: int, h: int, d: int, x: int, y: int, z: int, c: int)
    requires
        0 <= x < w,
        0 <= y < h,
        0 <= z < d,
        0 <= c < 4,
        data.len() >= slice_bytes(kind, w, h) * d,
    ensures
        ({
            let s = slice_bytes(kind, w, h);
            let part = if d == 1 {
                data
            } else {
                data.subrange(z * s, z * s + s)
            };
            &&& decoded_pixels(kind, data, w, h, d)[packed_at(w, h, x, y, z) + c] == slice_pixels(kind, part, w, h)[(y * w
                + x) * 4 + c]
            &&& 0 <= z * s && z * s + s <= data.len()
        }),
{
    let s = slice_bytes(kind, w, h);
    lemma_packed(w, h, x, y, z, c);
    lemma_slice_bytes_positive(kind, w, h);
    assert(0 <= z * s && z * s + s <= s * d && (z + 1) * s == z * s + s) by (nonlinear_arith)
        requires
            0 <= z < d,
            s > 0,
    ;
    if d != 1 {
        law_volume_is_its_slices(kind, data, w, h, d as nat, z);
        let o = w * h * 4;
        let all = decoded_pixels(kind, data, w, h, d);
        let k = (y * w + x) * 4 + c;
        assert((z + 1) * o <= d * o) by (nonlinear_arith)
            requires
                z + 1 <= d,
                0 <= o,
        ;
        assert(all.subrange(z * o, (z + 1) * o)[k] == all[z * o + k]);
    } else {
        assert(z * s == 0) by (nonlinear_arith)
            requires
                z == 0,
        ;
    }
}

/// Channel `c` of texel `(x, y, z)` of a decoded surface of blocks is that channel
/// of the texel's place in its block.
pub proof fn lemma_block_texel(kind: DecodeContent, data: Seq<u8>, w: int, h: int, d: int, x: int, y: int, z: int, c: int)
    requires
        0 <= x < w,
        0 <= y < h,
        0 <= z < d,
        0 <= c < 4,
        kind.block_size() is Some,
        data.len() >= slice_bytes(kind, w, h) * d,
    ensures
        ({
            let b = kind.block_size().unwrap();
            let i = block_index(w, h, x, y, z);
            &&& decoded_pixels(kind, data, w, h, d)[packed_at(w, h, x, y, z) + c] == block_rgba(
                kind,
                block_of(data, b, i),
            )[4 * in_its_block(x, y) + c]
            &&& 0 <= i * b && i * b + b <= data.len()
        }),
{
    let b = kind.block_size().unwrap();
    let s = slice_bytes(kind, w, h);
    let (bx, by) = (block_count(w), block_count(h));
    let i = block_index(w, h, x, y, z);
    let j = (y / 4) * bx + x / 4;
    lemma_slice_of(kind, data, w, h, d, x, y, z, c);
    lemma_block_inside(w, h, x, y, z, d);
    lemma_packed(w, h, x, y, z, c);
    assert(i * b == z * s + j * b && 0 <= j * b && j * b + b <= s) by (nonlinear_arith)
        requires
            i == z * (bx * by) + j,
            s == bx * by * b,
            0 <= j < bx * by,
            b > 0,
    ;
    let part = if d == 1 {
        data
    } else {
        data.subrange(z * s, z * s + s)
    };
    if d == 1 {
        assert(z * s == 0) by (nonlinear_arith)
            requires
                z == 0,
        ;
    }
    assert(part.subrange(j * b, j * b + b) =~= data.subrange(i * b, i * b + b));
}

/// Channel `c` of texel `(x, y, z)` of decoded plain texels is the stored byte, or
/// of blue-first texels the stored byte of the opposite channel.
pub proof fn lemma_plain_texel(kind: DecodeContent, data: Seq<u8>, w: int, h: int, d: int, x: int, y: int, z: int, c: int)
    requires
        0 <= x < w,
        0 <= y < h,
        0 <= z < d,
        0 <= c < 4,
        kind == DecodeContent::Rgba8 || kind == DecodeContent::Bgra8,
        data.len() >= slice_bytes(kind, w, h) * d,
    ensures
        decoded_pixels(kind, data, w, h, d)[packed_at(w, h, x, y, z) + c] == data[packed_at(w, h, x, y, z) + (if kind
            == DecodeContent::Bgra8 && c < 3 {
            2 - c
        } else {
            c
        })],
{
    let s = slice_bytes(kind, w, h);
    lemma_slice_of(kind, data, w, h, d, x, y, z, c);
    lemma_packed(w, h, x, y, z, c);
    lemma_packed(w, h, x, y, z, 2 - c % 3);
    let k = (y * w + x) * 4 + c;
    assert(k % 4 == c);
    if d == 1 {
        assert(z * s == 0) by (nonlinear_arith)
            requires
                z == 0,
        ;
    }
}

impl<D: Payload> DdsBase<D> {
    /// The DX10 header names the format.
    pub open spec fn names_dxgi(&self, f: DxgiFormat) -> bool {
        self.header10 matches Some(h) && h.dxgi_format == f
    }

    /// There is no DX10 header, and the pixel format names the format.
    pub open spec fn names_d3d(&self, f: D3DFormat) -> bool {
        self.header10 is None && self.header.d3d_format == Some(f)
    }

    /// The headers name BC1.
    pub open spec fn names_bc1(&self) -> bool {
        self.names_dxgi(DxgiFormat::BC1_Typeless) || self.names_dxgi(DxgiFormat::BC1_UNorm) || self.names_dxgi(
            DxgiFormat::BC1_UNorm_sRGB,
        ) || self.names_d3d(D3DFormat::DXT1)
    }

    /// The headers name BC2.
    pub open spec fn names_bc2(&self) -> bool {
        self.names_dxgi(DxgiFormat::BC2_Typeless) || self.names_dxgi(DxgiFormat::BC2_UNorm) || self.names_dxgi(
            DxgiFormat::BC2_UNorm_sRGB,
        ) || self.names_d3d(D3DFormat::DXT2) || self.names_d3d(D3DFormat::DXT3)
    }

    /// The headers name BC3.
    pub open spec fn names_bc3(&self) -> bool {
        self.names_dxgi(DxgiFormat::BC3_Typeless) || self.names_dxgi(DxgiFormat::BC3_UNorm) || self.names_dxgi(
            DxgiFormat::BC3_UNorm_sRGB,
        ) || self.names_d3d(D3DFormat::DXT4) || self.names_d3d(D3DFormat::DXT5)
    }

    /// The headers name BC4, signed or not.
    pub open spec fn names_bc4(&self, signed: bool) -> bool {
        if signed {
            self.names_dxgi(DxgiFormat::BC4_SNorm)
        } else {
            self.names_dxgi(DxgiFormat::BC4_Typeless) || self.names_dxgi(DxgiFormat::BC4_UNorm)
        }
    }

    /// The headers name BC5, signed or not.
    pub open spec fn names_bc5(&self, signed: bool) -> bool {
        if signed {
            self.names_dxgi(DxgiFormat::BC5_SNorm)
        } else {
            self.names_dxgi(DxgiFormat::BC5_Typeless) || self.names_dxgi(DxgiFormat::BC5_UNorm)
        }
    }

    /// The headers name BC6H, signed or not.
    pub open spec fn names_bc6h(&self, signed: bool) -> bool {
        if signed {
            self.names_dxgi(DxgiFormat::BC6H_SF16)
        } else {
            self.names_dxgi(DxgiFormat::BC6H_Typeless) || self.names_dxgi(DxgiFormat::BC6H_UF16)
        }
    }

    /// The headers name BC7.
    pub open spec fn names_bc7(&self) -> bool {
        self.names_dxgi(DxgiFormat::BC7_Typeless) || self.names_dxgi(DxgiFormat::BC7_UNorm) || self.names_dxgi(
            DxgiFormat::BC7_UNorm_sRGB,
        )
    }

    /// The headers name plain texels, red first.
    pub open spec fn names_rgba8(&self) -> bool {
        self.names_dxgi(DxgiFormat::R8G8B8A8_Typeless) || self.names_dxgi(DxgiFormat::R8G8B8A8_UNorm) || self.names_dxgi(
            DxgiFormat::R8G8B8A8_UNorm_sRGB,
        ) || self.names_dxgi(DxgiFormat::R8G8B8A8_UInt)
    }

    /// The headers name plain texels, blue first.
    pub open spec fn names_bgra8(&self) -> bool {
        self.names_dxgi(DxgiFormat::B8G8R8A8_Typeless) || self.names_dxgi(DxgiFormat::B8G8R8A8_UNorm) || self.names_dxgi(
            DxgiFormat::B8G8R8A8_UNorm_sRGB,
        )
    }

    /// What a surface decodes to, for every format that the headers can name: the
    /// texel's block, or its four bytes, is found by counting, and read as that
    /// format has it. Nothing else decodes to RGBA8.
    pub proof fn law_pixels_follow_the_named_format(&self, id: SubresourceId, x: int, y: int, z: int, c: int)
        requires
            self.rgba8_outcome(id) is Ok,
            0 <= x < self.sides(id.mip).0,
            0 <= y < self.sides(id.mip).1,
            0 <= z < self.sides(id.mip).2,
            0 <= c < 4,
        ensures
            ({
                let (w, h) = (self.sides(id.mip).0 as int, self.sides(id.mip).1 as int);
                let data = self.surface_bytes(id);
                let i = block_index(w, h, x, y, z);
                let t = in_its_block(x, y);
                let (small, large) = (block_of(data, 8, i), block_of(data, 16, i));
                let at = packed_at(w, h, x, y, z);
                let got = self.rgba8_pixels(id)[at + c];
                &&& self.names_bc1() ==> got == bc1_texels(small)[4 * t + c]
                &&& self.names_bc2() && c < 3 ==> got == colour_texels(large.skip(8), true)[4 * t + c]
                &&& self.names_bc2() && c == 3 ==> got == 17 * nibble(large, t)
                &&& self.names_bc3() && c < 3 ==> got == colour_texels(large.skip(8), true)[4 * t + c]
                &&& self.names_bc3() && c == 3 ==> got == smooth_levels(large[0] as int, large[1] as int)[alpha_indices(
                    large,
                )[t] as int] as u8
                &&& forall|signed: bool| #[trigger]
                    self.names_bc4(signed) ==> got == (if c == 0 {
                        bc4_bytes(small, signed)[t]
                    } else if c == 3 {
                        255u8
                    } else {
                        0u8
                    })
                &&& forall|signed: bool| #[trigger]
                    self.names_bc5(signed) ==> got == (if c == 0 {
                        bc4_bytes(large.take(8), signed)[t]
                    } else if c == 1 {
                        bc4_bytes(large.skip(8), signed)[t]
                    } else if c == 3 {
                        255u8
                    } else {
                        0u8
                    })
                &&& self.names_bc7() ==> got == bc7_rgba(large)[4 * t + c]
                &&& self.names_rgba8() ==> got == data[at + c]
                &&& self.names_bgra8() ==> got == data[at + (if c < 3 {
                    2 - c
                } else {
                    3
                })]
                &&& self.names_bc1() || self.names_bc2() || self.names_bc3() || self.names_bc4(false) || self.names_bc4(
                    true,
                ) || self.names_bc5(false) || self.names_bc5(true) || self.names_bc7() || self.names_rgba8()
                    || self.names_bgra8()
            }),
    {
        let s = self.sides(id.mip);
        let (w, h, d) = (s.0 as int, s.1 as int, s.2 as int);
        self.lemma_bytes_suffice(id);
        let kind = self.content().unwrap();
        let data = self.surface_bytes(id);
        let t = in_its_block(x, y);
        let k = 4 * t + c;
        assert(0 <= t < 16 && k / 4 == t && k % 4 == c);
        if kind.block_size() is Some {
            lemma_block_texel(kind, data, w, h, d, x, y, z, c);
            if kind == DecodeContent::Bc2 && c == 3 {
                let large = block_of(data, 16, block_index(w, h, x, y, z));
                assert(k / 8 == t / 2 && k / 4 % 2 == t % 2);
                lemma_nibble(large[t / 2], t % 2);
            }
        } else {
            lemma_plain_texel(kind, data, w, h, d, x, y, z, c);
        }
    }

    /// A payload whose headers name BC2, by either kind of header, has at each
    /// texel seventeen times the texel's nibble of its block's first eight bytes as
    /// alpha.
    pub proof fn law_bc2_alpha_is_the_nibble(&self, id: SubresourceId, x: int, y: int)
        requires
            self.rgba8_outcome(id) is Ok,
            self.names_bc2(),
            0 <= x < self.sides(id.mip).0,
            0 <= y < self.sides(id.mip).1,
        ensures
            ({
                let w = self.sides(id.mip).0 as int;
                let i = (y / 4) * ((w + 3) / 4) + x / 4;
                let alpha = self.surface_bytes(id).subrange(16 * i, 16 * i + 8);
                self.rgba8_pixels(id)[(y * w + x) * 4 + 3] == 17 * nibble(alpha, (y % 4) * 4 + x % 4)
            }),
    {
        let s = self.sides(id.mip);
        let (w, h, d) = (s.0 as int, s.1 as int, s.2 as int);
        lemma_mip_side_step(self.full_depth(), id.mip);
        self.law_pixels_follow_the_named_format(id, x, y, 0, 3);
        self.lemma_bytes_suffice(id);
        lemma_block_texel(DecodeContent::Bc2, self.surface_bytes(id), w, h, d, x, y, 0, 3);
        let i = block_index(w, h, x, y, 0);
        assert(0 * ((h + 3) / 4) == 0 && 0 * h == 0);
        assert(block_of(self.surface_bytes(id), 16, i).subrange(0, 8) =~= self.surface_bytes(id).subrange(16 * i, 16 * i + 8));
    }

    /// A decoded subresource has four bytes for every texel.
    pub proof fn lemma_pixels_len(&self, id: SubresourceId)
        requires
            self.rgba8_outcome(id) is Ok,
        ensures
            self.rgba8_pixels(id).len() == self.sides(id.mip).2 * (self.sides(id.mip).0 * self.sides(id.mip).1 * 4),
    {
        self.lemma_bytes_suffice(id);
        let s = self.sides(id.mip);
        let (w, h, d) = (s.0 as int, s.1 as int, s.2 as int);
        assert(w * h * 4 >= 0) by (nonlinear_arith)
            requires
                w > 0,
                h > 0,
        ;
        if d == 1 {
            lemma_slice_pixels_len(self.content().unwrap(), self.surface_bytes(id), w, h);
            assert(1 * (w * h * 4) == w * h * 4);
        } else {
            law_volume_is_its_slices(self.content().unwrap(), self.surface_bytes(id), w, h, d as nat, 0);
        }
    }

    proof fn lemma_bytes_suffice(&self, id: SubresourceId)
        requires
            self.rgba8_outcome(id) is Ok,
        ensures
            ({
                let s = self.sides(id.mip);
                &&& s.0 > 0 && s.1 > 0 && s.2 > 0
                &&& self.surface_bytes(id).len() >= slice_bytes(self.content().unwrap(), s.0 as int, s.1 as int) * s.2
            }),
    {
        lemma_mip_side_step(self.header.width, id.mip);
        lemma_mip_side_step(self.header.height, id.mip);
        lemma_mip_side_step(self.full_depth(), id.mip);
        self.law_subresources_are_disjoint(id, id);
    }

    /// What a surface decodes to in single precision: signed texels where the
    /// headers name the signed format, unsigned ones where they name the unsigned
    /// or the typeless one, opaque. Nothing else decodes so.
    pub proof fn law_singles_follow_the_named_format(&self, id: SubresourceId, x: int, y: int, z: int, c: int)
        requires
            self.f32_outcome(id) is Ok,
            0 <= x < self.sides(id.mip).0,
            0 <= y < self.sides(id.mip).1,
            0 <= z < self.sides(id.mip).2,
            0 <= c < 4,
        ensures
            ({
                let (w, h) = (self.sides(id.mip).0 as int, self.sides(id.mip).1 as int);
                let block = block_of(self.surface_bytes(id), 16, block_index(w, h, x, y, z));
                let t = in_its_block(x, y);
                let got = self.f32_pixels(id)[packed_at(w, h, x, y, z) + c];
                &&& c == 3 ==> got == 0x3F80_0000
                &&& c < 3 && self.names_bc6h(true) ==> got == bc6h_texels(block, true)[3 * t + c]
                &&& c < 3 && self.names_bc6h(false) && block[0] % 32 != 3 ==> got == bc6h_texels(block, false)[3 * t + c]
                &&& c < 3 && self.names_bc6h(false) && block[0] % 32 == 3 ==> got == mode11_texels(block)[3 * t + c]
                &&& self.names_bc6h(true) || self.names_bc6h(false)
            }),
    {
        let s = self.sides(id.mip);
        let (w, h, d) = (s.0 as int, s.1 as int, s.2 as int);
        lemma_mip_side_step(self.header.width, id.mip);
        lemma_mip_side_step(self.header.height, id.mip);
        lemma_mip_side_step(self.full_depth(), id.mip);
        self.law_subresources_are_disjoint(id, id);
        let signed = self.hdr_content() == Ok::<HdrDecodeContent, Error>(HdrDecodeContent::Bc6hSf16);
        lemma_hdr_texel(self.surface_bytes(id), w, h, signed, d as nat, x, y, z, c);
        let k = 4 * in_its_block(x, y) + c;
        assert(k / 4 == in_its_block(x, y) && k % 4 == c);
    }

    /// A BC6H payload is read as signed exactly where its native GPU format is the
    /// signed one.
    pub proof fn law_signedness_agrees(&self)
        requires
            self.hdr_content() is Ok,
        ensures
            self.gpu() is Ok,
            self.hdr_content() == Ok::<HdrDecodeContent, Error>(HdrDecodeContent::Bc6hSf16) <==> self.gpu().unwrap().wgpu_name@
                == "Bc6hRgbFloat"@,
            self.hdr_content() == Ok::<HdrDecodeContent, Error>(HdrDecodeContent::Bc6hUf16) <==> self.gpu().unwrap().wgpu_name@
                == "Bc6hRgbUfloat"@,
    {
        reveal_strlit("Bc6hRgbFloat");
        reveal_strlit("Bc6hRgbUfloat");
        assert("Bc6hRgbFloat"@.len() == 12 && "Bc6hRgbUfloat"@.len() == 13);
    }
}

proof fn lemma_nibble(b: u8, i: int)
    requires
        i == 0 || i == 1,
    ensures
        digit(b as int, 16, i as nat) == (if i == 0 {
            b as int % 16
        } else {
            b as int / 16
        }),
{
    reveal_with_fuel(digit, 2);
}

proof fn lemma_hdr_texel(data: Seq<u8>, w: int, h: int, signed: bool, n: nat, x: int, y: int, z: int, c: int)
    requires
        0 <= x < w,
        0 <= y < h,
        0 <= z < n,
        0 <= c < 4,
        data.len() >= block_count(w) * block_count(h) * 16 * n,
    ensures
        ({
            let block = block_of(data, 16, block_index(w, h, x, y, z));
            hdr_stack(data, w, h, signed, n)[packed_at(w, h, x, y, z) + c] == widened(bc6h_rgb(block, signed))[4
                * in_its_block(x, y) + c]
        }),
        hdr_stack(data, w, h, signed, n).len() == n * (w * h * 4),
    decreases n,
{
    let (bx, by) = (block_count(w), block_count(h));
    let s = bx * by * 16;
    let o = w * h * 4;
    let m = (n - 1) as nat;
    lemma_packed(w, h, x, y, z, c);
    lemma_block_inside(w, h, x, y, z, n as int);
    assert(m * s >= 0 && m * s + s == n * s && s * n == n * s && s * m == m * s && m * o + o == n * o && s * m <= s * n)
        by (nonlinear_arith)
        requires
            m == n - 1,
            n >= 1,
            s >= 0,
    ;
    let last = data.subrange(m * s, m * s + s);
    assert(bc6h_pixels(last, w, h, signed).len() == o);
    if m > 0 {
        lemma_hdr_texel(
            data,
            w,
            h,
            signed,
            m,
            x,
            y,
            if z < m {
                z
            } else {
                0
            },
            c,
        );
    } else {
        assert(hdr_stack(data, w, h, signed, m).len() == 0);
        assert(m * o == 0) by (nonlinear_arith)
            requires
                m == 0,
        ;
    }
    let k = (y * w + x) * 4 + c;
    if z < m {
        assert(z * o + k < m * o) by (nonlinear_arith)
            requires
                z + 1 <= m,
                k < o,
                o >= 0,
        ;
    } else {
        let j = (y / 4) * bx + x / 4;
        let i = block_index(w, h, x, y, z);
        assert(i * 16 == m * s + j * 16 && 0 <= j * 16 && j * 16 + 16 <= s) by (nonlinear_arith)
            requires
                i == m * (bx * by) + j,
                s == bx * by * 16,
                0 <= j < bx * by,
        ;
        assert(last.subrange(j * 16, j * 16 + 16) =~= data.subrange(i * 16, i * 16 + 16));
        assert(hdr_stack(data, w, h, signed, n)[m * o + k] == bc6h_pixels(last, w, h, signed)[k]);
    }
}

/// A BC4 or BC5 kind that is asked for as signed, or not, reads its bytes so.
pub proof fn law_signed_kinds(block: Seq<u8>, is_signed: bool, i: int)
    requires
        0 <= i < 16,
    ensures
        block_rgba(bc4_of(is_signed), block)[4 * i] == bc4_bytes(block, is_signed)[i],
        block_rgba(bc5_of(is_signed), block)[4 * i] == bc4_bytes(block.take(8), is_signed)[i],
        block_rgba(bc5_of(is_signed), block)[4 * i + 1] == bc4_bytes(block.skip(8), is_signed)[i],
        bc4_of(is_signed).block_size() == Some(8int),
        bc5_of(is_signed).block_size() == Some(16int),
{
}

/// The pixels of an image lie row by row, slice by slice, four bytes each.
pub proof fn law_pixels_lie_in_rows(image: ImageRgba8, x: int, y: int, z: int, c: int)
    requires
        image.wf(),
        0 <= x < image.width,
        0 <= y < image.height,
        0 <= z < image.depth,
        0 <= c < 4,
    ensures
        image.pixel_bytes(x, y, z).len() == 4,
        image.pixel_bytes(x, y, z)[c] == image.pixels@[packed_at(image.width as int, image.height as int, x, y, z) + c],
{
    let (w, h, d) = (image.width as int, image.height as int, image.depth as int);
    lemma_packed(w, h, x, y, z, 3);
    lemma_packed(w, h, x, y, z, 0);
    assert(z * (w * h * 4) + w * h * 4 <= w * h * d * 4) by (nonlinear_arith)
        requires
            0 <= z,
            z + 1 <= d,
            w > 0,
            h > 0,
    ;
}

} // verus!
