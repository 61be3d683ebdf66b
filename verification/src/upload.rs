//! Plans for handing a texture to a GPU: native format names and copy layouts.

use std::ops::Range;
use vstd::prelude::*;

use crate::content::{handled, product3};
use crate::dds::{units_across, DdsBase, Payload};
use crate::decode::{law_volume_is_its_slices, lemma_slice_pixels_len};
use crate::error::Error;
use crate::format::{D3DFormat, DxgiFormat};
use crate::surface::{lemma_mip_side_step, mip_side, SubresourceId, SurfaceView};

verus! {

/// A format by its names in the common GPU interfaces, and its layout.
#[derive(Debug, Clone, Copy, PartialEq, Eq, Hash)]
#[non_exhaustive]
pub struct GpuFormat {
    /// DXGI name without the `DXGI_FORMAT_` prefix.
    pub dxgi_name: &'static str,
    /// Name of the `wgpu::TextureFormat` variant.
    pub wgpu_name: &'static str,
    /// Name of the `VkFormat` constant.
    pub vulkan_name: &'static str,
    /// Bytes of one block, or of one texel.
    pub block_bytes: u32,
    /// Block width in texels: 4 for BCn, 1 for plain texels.
    pub block_width: u32,
    /// Block height in texels.
    pub block_height: u32,
    pub compressed: bool,
}

/// How one subresource reaches the GPU.
#[derive(Debug, Clone, Copy, PartialEq, Eq)]
#[non_exhaustive]
pub enum UploadPath {
    /// The payload's own bytes; the GPU samples the native format.
    Compressed,
    /// Tightly packed RGBA8, decoded on the CPU.
    DecodedRgba8,
}

/// One subresource, ready for a copy into a GPU texture.
#[derive(Debug, Clone, PartialEq, Eq)]
#[non_exhaustive]
pub struct UploadPlan {
    pub id: SubresourceId,
    pub path: UploadPath,
    pub format: GpuFormat,
    pub width: u32,
    pub height: u32,
    pub depth: u32,
    /// Offset into the payload; 0 where the bytes are decoded ones.
    pub data_offset: usize,
    /// Bytes to copy.
    pub data_len: usize,
    /// Bytes of one row of blocks, or of texels.
    pub bytes_per_row: u32,
    /// Rows of blocks, or of texels, in one depth slice.
    pub rows_per_image: u32,
}

/// A format of 4x4 blocks.
pub open spec fn block_format(dxgi: &'static str, wgpu: &'static str, vk: &'static str, bytes: u32) -> GpuFormat {
    GpuFormat {
        dxgi_name: dxgi,
        wgpu_name: wgpu,
        vulkan_name: vk,
        block_bytes: bytes,
        block_width: 4,
        block_height: 4,
        compressed: true,
    }
}

/// A format of plain texels of four bytes.
pub open spec fn texel_format(dxgi: &'static str, wgpu: &'static str, vk: &'static str) -> GpuFormat {
    GpuFormat {
        dxgi_name: dxgi,
        wgpu_name: wgpu,
        vulkan_name: vk,
        block_bytes: 4,
        block_width: 1,
        block_height: 1,
        compressed: false,
    }
}

fn bc(dxgi: &'static str, wgpu: &'static str, vk: &'static str, bytes: u32) -> (f: GpuFormat)
    ensures
        f == block_format(dxgi, wgpu, vk, bytes),
{
    GpuFormat {
        dxgi_name: dxgi,
        wgpu_name: wgpu,
        vulkan_name: vk,
        block_bytes: bytes,
        block_width: 4,
        block_height: 4,
        compressed: true,
    }
}

fn texel(dxgi: &'static str, wgpu: &'static str, vk: &'static str) -> (f: GpuFormat)
    ensures
        f == texel_format(dxgi, wgpu, vk),
{
    GpuFormat {
        dxgi_name: dxgi,
        wgpu_name: wgpu,
        vulkan_name: vk,
        block_bytes: 4,
        block_width: 1,
        block_height: 1,
        compressed: false,
    }
}

/// The GPU format of a DXGI format; none where it is not handled.
pub open spec fn dxgi_gpu(format: DxgiFormat) -> Option<GpuFormat> {
    match format {
        DxgiFormat::BC1_Typeless | DxgiFormat::BC1_UNorm => Some(block_format("BC1_UNorm", "Bc1RgbaUnorm", "VK_FORMAT_BC1_RGBA_UNORM_BLOCK", 8)),
        DxgiFormat::BC1_UNorm_sRGB => Some(block_format("BC1_UNorm_sRGB", "Bc1RgbaUnormSrgb", "VK_FORMAT_BC1_RGBA_SRGB_BLOCK", 8)),
        DxgiFormat::BC2_Typeless | DxgiFormat::BC2_UNorm => Some(block_format("BC2_UNorm", "Bc2RgbaUnorm", "VK_FORMAT_BC2_UNORM_BLOCK", 16)),
        DxgiFormat::BC2_UNorm_sRGB => Some(block_format("BC2_UNorm_sRGB", "Bc2RgbaUnormSrgb", "VK_FORMAT_BC2_SRGB_BLOCK", 16)),
        DxgiFormat::BC3_Typeless | DxgiFormat::BC3_UNorm => Some(block_format("BC3_UNorm", "Bc3RgbaUnorm", "VK_FORMAT_BC3_UNORM_BLOCK", 16)),
        DxgiFormat::BC3_UNorm_sRGB => Some(block_format("BC3_UNorm_sRGB", "Bc3RgbaUnormSrgb", "VK_FORMAT_BC3_SRGB_BLOCK", 16)),
        DxgiFormat::BC4_Typeless | DxgiFormat::BC4_UNorm => Some(block_format("BC4_UNorm", "Bc4RUnorm", "VK_FORMAT_BC4_UNORM_BLOCK", 8)),
        DxgiFormat::BC4_SNorm => Some(block_format("BC4_SNorm", "Bc4RSnorm", "VK_FORMAT_BC4_SNORM_BLOCK", 8)),
        DxgiFormat::BC5_Typeless | DxgiFormat::BC5_UNorm => Some(block_format("BC5_UNorm", "Bc5RgUnorm", "VK_FORMAT_BC5_UNORM_BLOCK", 16)),
        DxgiFormat::BC5_SNorm => Some(block_format("BC5_SNorm", "Bc5RgSnorm", "VK_FORMAT_BC5_SNORM_BLOCK", 16)),
        DxgiFormat::BC6H_Typeless | DxgiFormat::BC6H_UF16 => Some(block_format("BC6H_UF16", "Bc6hRgbUfloat", "VK_FORMAT_BC6H_UFLOAT_BLOCK", 16)),
        DxgiFormat::BC6H_SF16 => Some(block_format("BC6H_SF16", "Bc6hRgbFloat", "VK_FORMAT_BC6H_SFLOAT_BLOCK", 16)),
        DxgiFormat::BC7_Typeless | DxgiFormat::BC7_UNorm => Some(block_format("BC7_UNorm", "Bc7RgbaUnorm", "VK_FORMAT_BC7_UNORM_BLOCK", 16)),
        DxgiFormat::BC7_UNorm_sRGB => Some(block_format("BC7_UNorm_sRGB", "Bc7RgbaUnormSrgb", "VK_FORMAT_BC7_SRGB_BLOCK", 16)),
        DxgiFormat::R8G8B8A8_Typeless | DxgiFormat::R8G8B8A8_UNorm | DxgiFormat::R8G8B8A8_UInt => Some(texel_format("R8G8B8A8_UNorm", "Rgba8Unorm", "VK_FORMAT_R8G8B8A8_UNORM")),
        DxgiFormat::R8G8B8A8_UNorm_sRGB => Some(texel_format("R8G8B8A8_UNorm_sRGB", "Rgba8UnormSrgb", "VK_FORMAT_R8G8B8A8_SRGB")),
        DxgiFormat::B8G8R8A8_Typeless | DxgiFormat::B8G8R8A8_UNorm => Some(texel_format("B8G8R8A8_UNorm", "Bgra8Unorm", "VK_FORMAT_B8G8R8A8_UNORM")),
        DxgiFormat::B8G8R8A8_UNorm_sRGB => Some(texel_format("B8G8R8A8_UNorm_sRGB", "Bgra8UnormSrgb", "VK_FORMAT_B8G8R8A8_SRGB")),
        _ => None,
    }
}

/// The GPU format of a Direct3D 9 format; none where it is not handled.
pub open spec fn d3d_gpu(format: D3DFormat) -> Option<GpuFormat> {
    match format {
        D3DFormat::DXT1 => Some(block_format("BC1_UNorm", "Bc1RgbaUnorm", "VK_FORMAT_BC1_RGBA_UNORM_BLOCK", 8)),
        D3DFormat::DXT2 | D3DFormat::DXT3 => Some(block_format("BC2_UNorm", "Bc2RgbaUnorm", "VK_FORMAT_BC2_UNORM_BLOCK", 16)),
        D3DFormat::DXT4 | D3DFormat::DXT5 => Some(block_format("BC3_UNorm", "Bc3RgbaUnorm", "VK_FORMAT_BC3_UNORM_BLOCK", 16)),
        _ => None,
    }
}

fn gpu_format_from_dxgi(format: DxgiFormat) -> (r: Result<GpuFormat, Error>)
    ensures
        r == handled(dxgi_gpu(format)),
{
    match format {
        DxgiFormat::BC1_Typeless | DxgiFormat::BC1_UNorm => Ok(bc("BC1_UNorm", "Bc1RgbaUnorm", "VK_FORMAT_BC1_RGBA_UNORM_BLOCK", 8)),
        DxgiFormat::BC1_UNorm_sRGB => Ok(bc("BC1_UNorm_sRGB", "Bc1RgbaUnormSrgb", "VK_FORMAT_BC1_RGBA_SRGB_BLOCK", 8)),
        DxgiFormat::BC2_Typeless | DxgiFormat::BC2_UNorm => Ok(bc("BC2_UNorm", "Bc2RgbaUnorm", "VK_FORMAT_BC2_UNORM_BLOCK", 16)),
        DxgiFormat::BC2_UNorm_sRGB => Ok(bc("BC2_UNorm_sRGB", "Bc2RgbaUnormSrgb", "VK_FORMAT_BC2_SRGB_BLOCK", 16)),
        DxgiFormat::BC3_Typeless | DxgiFormat::BC3_UNorm => Ok(bc("BC3_UNorm", "Bc3RgbaUnorm", "VK_FORMAT_BC3_UNORM_BLOCK", 16)),
        DxgiFormat::BC3_UNorm_sRGB => Ok(bc("BC3_UNorm_sRGB", "Bc3RgbaUnormSrgb", "VK_FORMAT_BC3_SRGB_BLOCK", 16)),
        DxgiFormat::BC4_Typeless | DxgiFormat::BC4_UNorm => Ok(bc("BC4_UNorm", "Bc4RUnorm", "VK_FORMAT_BC4_UNORM_BLOCK", 8)),
        DxgiFormat::BC4_SNorm => Ok(bc("BC4_SNorm", "Bc4RSnorm", "VK_FORMAT_BC4_SNORM_BLOCK", 8)),
        DxgiFormat::BC5_Typeless | DxgiFormat::BC5_UNorm => Ok(bc("BC5_UNorm", "Bc5RgUnorm", "VK_FORMAT_BC5_UNORM_BLOCK", 16)),
        DxgiFormat::BC5_SNorm => Ok(bc("BC5_SNorm", "Bc5RgSnorm", "VK_FORMAT_BC5_SNORM_BLOCK", 16)),
        DxgiFormat::BC6H_Typeless | DxgiFormat::BC6H_UF16 => Ok(bc("BC6H_UF16", "Bc6hRgbUfloat", "VK_FORMAT_BC6H_UFLOAT_BLOCK", 16)),
        DxgiFormat::BC6H_SF16 => Ok(bc("BC6H_SF16", "Bc6hRgbFloat", "VK_FORMAT_BC6H_SFLOAT_BLOCK", 16)),
        DxgiFormat::BC7_Typeless | DxgiFormat::BC7_UNorm => Ok(bc("BC7_UNorm", "Bc7RgbaUnorm", "VK_FORMAT_BC7_UNORM_BLOCK", 16)),
        DxgiFormat::BC7_UNorm_sRGB => Ok(bc("BC7_UNorm_sRGB", "Bc7RgbaUnormSrgb", "VK_FORMAT_BC7_SRGB_BLOCK", 16)),
        DxgiFormat::R8G8B8A8_Typeless | DxgiFormat::R8G8B8A8_UNorm | DxgiFormat::R8G8B8A8_UInt => Ok(texel("R8G8B8A8_UNorm", "Rgba8Unorm", "VK_FORMAT_R8G8B8A8_UNORM")),
        DxgiFormat::R8G8B8A8_UNorm_sRGB => Ok(texel("R8G8B8A8_UNorm_sRGB", "Rgba8UnormSrgb", "VK_FORMAT_R8G8B8A8_SRGB")),
        DxgiFormat::B8G8R8A8_Typeless | DxgiFormat::B8G8R8A8_UNorm => Ok(texel("B8G8R8A8_UNorm", "Bgra8Unorm", "VK_FORMAT_B8G8R8A8_UNORM")),
        DxgiFormat::B8G8R8A8_UNorm_sRGB => Ok(texel("B8G8R8A8_UNorm_sRGB", "Bgra8UnormSrgb", "VK_FORMAT_B8G8R8A8_SRGB")),
        _ => Err(Error::UnsupportedFormat),
    }
}

fn gpu_format_from_d3d(format: D3DFormat) -> (r: Result<GpuFormat, Error>)
    ensures
        r == handled(d3d_gpu(format)),
{
    match format {
        D3DFormat::DXT1 => Ok(bc("BC1_UNorm", "Bc1RgbaUnorm", "VK_FORMAT_BC1_RGBA_UNORM_BLOCK", 8)),
        D3DFormat::DXT2 | D3DFormat::DXT3 => Ok(bc("BC2_UNorm", "Bc2RgbaUnorm", "VK_FORMAT_BC2_UNORM_BLOCK", 16)),
        D3DFormat::DXT4 | D3DFormat::DXT5 => Ok(bc("BC3_UNorm", "Bc3RgbaUnorm", "VK_FORMAT_BC3_UNORM_BLOCK", 16)),
        _ => Err(Error::UnsupportedFormat),
    }
}

/// How many sides of `b` texels cover `n` texels.
pub open spec fn blocks_over(n: int, b: int) -> int {
    (n + b - 1) / b
}

/// Bytes of a row of blocks and rows of blocks, or why there are none.
pub open spec fn pitches(f: GpuFormat, w: int, h: int) -> Result<(u32, u32), Error> {
    if w == 0 || h == 0 {
        Err(Error::InvalidField("zero image dimension"))
    } else if blocks_over(w, f.block_width as int) * f.block_bytes > u32::MAX {
        Err(Error::OutOfBounds)
    } else {
        Ok(
            (
                (blocks_over(w, f.block_width as int) * f.block_bytes) as u32,
                blocks_over(h, f.block_height as int) as u32,
            ),
        )
    }
}

fn compressed_pitches(format: GpuFormat, width: u32, height: u32) -> (r: Result<(u32, u32), Error>)
    requires
        format.block_width == 4 || format.block_width == 1,
        format.block_height == 4 || format.block_height == 1,
    ensures
        r == pitches(format, width as int, height as int),
{
    if width == 0 || height == 0 {
        return Err(Error::InvalidField("zero image dimension"));
    }
    let bx: u32 = (width - 1) / format.block_width + 1;
    let by: u32 = (height - 1) / format.block_height + 1;
    proof {
        assert(bx == blocks_over(width as int, format.block_width as int));
        assert(by == blocks_over(height as int, format.block_height as int));
    }
    match bx.checked_mul(format.block_bytes) {
        None => Err(Error::OutOfBounds),
        Some(n) => Ok((n, by)),
    }
}

proof fn lemma_blocks_over(n: int, side: int)
    requires
        n > 0,
        side == 4 || side == 1,
    ensures
        blocks_over(n, side) == units_across(n, side),
        0 <= blocks_over(n, side) <= n,
{
    if side == 4 {
        assert(blocks_over(n, 4) == (n + 3) / 4);
    } else {
        assert(blocks_over(n, 1) == n / 1);
        assert(n / 1 == n);
    }
}

impl<D: Payload> DdsBase<D> {
    /// The GPU format of the payload.
    pub open spec fn gpu(&self) -> Result<GpuFormat, Error> {
        match self.dxgi() {
            Some(f) => handled(dxgi_gpu(f)),
            None => match self.header.d3d_format {
                Some(f) => handled(d3d_gpu(f)),
                None => Err(Error::UnsupportedFormat),
            },
        }
    }

    /// The plan for a copy of the payload's own bytes.
    pub open spec fn native_plan(&self, id: SubresourceId) -> Result<UploadPlan, Error> {
        let s = self.sides(id.mip);
        match self.gpu() {
            Err(e) => Err(e),
            Ok(f) => match self.place(id) {
                Err(e) => Err(e),
                Ok((a, b)) => match pitches(f, s.0 as int, s.1 as int) {
                    Err(e) => Err(e),
                    Ok((row, rows)) => Ok(
                        UploadPlan {
                            id,
                            path: UploadPath::Compressed,
                            format: f,
                            width: s.0,
                            height: s.1,
                            depth: s.2,
                            data_offset: a as usize,
                            data_len: (b - a) as usize,
                            bytes_per_row: row,
                            rows_per_image: rows,
                        },
                    ),
                },
            },
        }
    }

    /// The plan for a copy of decoded pixels.
    pub open spec fn decoded_plan(&self, id: SubresourceId) -> Result<UploadPlan, Error> {
        let s = self.sides(id.mip);
        match self.content() {
            Err(e) => Err(e),
            Ok(_) => match self.place(id) {
                Err(e) => Err(e),
                Ok(_) => if s.0 * s.1 * s.2 * 4 > usize::MAX || s.0 * 4 > u32::MAX {
                    Err(Error::OutOfBounds)
                } else {
                    Ok(
                        UploadPlan {
                            id,
                            path: UploadPath::DecodedRgba8,
                            format: texel_format("R8G8B8A8_UNorm", "Rgba8Unorm", "VK_FORMAT_R8G8B8A8_UNORM"),
                            width: s.0,
                            height: s.1,
                            depth: s.2,
                            data_offset: 0,
                            data_len: (s.0 * s.1 * s.2 * 4) as usize,
                            bytes_per_row: (s.0 * 4) as u32,
                            rows_per_image: s.1,
                        },
                    )
                },
            },
        }
    }

    /// The GPU format for a copy of the payload's own bytes.
    pub fn gpu_format(&self) -> (r: Result<GpuFormat, Error>)
        ensures
            r == self.gpu(),
    {
        match self.get_dxgi_format() {
            Some(f) => gpu_format_from_dxgi(f),
            None => match self.get_d3d_format() {
                Some(f) => gpu_format_from_d3d(f),
                None => Err(Error::UnsupportedFormat),
            },
        }
    }

    /// Plans a copy of the payload's own bytes.
    pub fn upload_plan_compressed(&self, id: SubresourceId) -> (r: Result<UploadPlan, Error>)
        ensures
            r == self.native_plan(id),
    {
        let format: GpuFormat = match self.gpu_format() {
            Ok(f) => f,
            Err(e) => {
                return Err(e);
            },
        };
        let range: Range<usize> = match self.subresource_range(id) {
            Ok(b) => b,
            Err(e) => {
                return Err(e);
            },
        };
        let (width, height, depth): (u32, u32, u32) = match self.mip_dimensions(id.mip) {
            Ok(d) => d,
            Err(e) => {
                return Err(e);
            },
        };
        let (bytes_per_row, rows_per_image): (u32, u32) = match compressed_pitches(format, width, height) {
            Ok(p) => p,
            Err(e) => {
                return Err(e);
            },
        };
        Ok(
            UploadPlan {
                id,
                path: UploadPath::Compressed,
                format,
                width,
                height,
                depth,
                data_offset: range.start,
                data_len: range.end - range.start,
                bytes_per_row,
                rows_per_image,
            },
        )
    }

    /// Plans a copy of decoded pixels: stored sRGB bytes are not made linear.
    pub fn upload_plan_decoded_rgba8(&self, id: SubresourceId) -> (r: Result<UploadPlan, Error>)
        ensures
            r == self.decoded_plan(id),
    {
        match self.decode_content() {
            Ok(_) => {},
            Err(e) => {
                return Err(e);
            },
        }
        let surf: SurfaceView<'_> = match self.surface(id) {
            Ok(s) => s,
            Err(e) => {
                return Err(e);
            },
        };
        proof {
            let (w, h, d) = (surf.width, surf.height, surf.depth);
            assert(0 <= w * h) by (nonlinear_arith);
            assert(w * h <= w * h * d * 4 || d == 0) by (nonlinear_arith)
                requires
                    0 <= w * h,
                    0 <= d,
            ;
            lemma_mip_side_step(self.full_depth(), id.mip);
            assert(w * h * (d * 4) == w * h * d * 4) by (nonlinear_arith);
        }
        let texels: usize = match product3(surf.width as usize, surf.height as usize, surf.depth as usize) {
            Ok(n) => n,
            Err(e) => {
                return Err(e);
            },
        };
        let data_len: usize = match texels.checked_mul(4) {
            Some(n) => n,
            None => {
                return Err(Error::OutOfBounds);
            },
        };
        let bytes_per_row: u32 = match surf.width.checked_mul(4) {
            Some(n) => n,
            None => {
                return Err(Error::OutOfBounds);
            },
        };
        Ok(
            UploadPlan {
                id,
                path: UploadPath::DecodedRgba8,
                format: texel("R8G8B8A8_UNorm", "Rgba8Unorm", "VK_FORMAT_R8G8B8A8_UNORM"),
                width: surf.width,
                height: surf.height,
                depth: surf.depth,
                data_offset: 0,
                data_len,
                bytes_per_row,
                rows_per_image: surf.height,
            },
        )
    }

    /// Whatever decodes, to RGBA8 or to single precision, can also be handed
    /// to the GPU in its native format, and nothing else can.
    pub proof fn law_decodable_is_uploadable(&self)
        ensures
            self.gpu() is Ok <==> self.content() is Ok || self.hdr_content() is Ok,
    {
    }

    /// A plan's block layout is that of the payload: its format's block bytes
    /// are the bytes of one unit of the payload.
    pub proof fn law_plan_units_are_payload_units(&self)
        requires
            self.gpu() is Ok,
        ensures
            self.unit() == Some((self.gpu().unwrap().block_width as int, self.gpu().unwrap().block_bytes as int)),
            self.gpu().unwrap().block_height == self.gpu().unwrap().block_width,
    {
    }

    /// A plan for the payload's own bytes names bytes that are there, and they
    /// are the subresource's.
    pub proof fn law_native_plan_names_the_surface(&self, id: SubresourceId)
        requires
            self.native_plan(id) is Ok,
        ensures
            ({
                let p = self.native_plan(id).unwrap();
                &&& p.data_offset + p.data_len <= self.data.bytes().len()
                &&& self.data.bytes().subrange(p.data_offset as int, p.data_offset + p.data_len) == self.surface_bytes(id)
            }),
    {
        self.law_subresources_are_disjoint(id, id);
    }

    /// The rows of a plan for the largest mip level are all its bytes.
    pub proof fn law_native_plan_rows_cover_the_main_surface(&self, id: SubresourceId)
        requires
            self.native_plan(id) is Ok,
            id.mip == 0,
            self.header.width > 0,
            self.header.height > 0,
            self.full_depth() > 0,
        ensures
            ({
                let p = self.native_plan(id).unwrap();
                p.data_len == p.bytes_per_row * p.rows_per_image * p.depth
            }),
    {
        self.law_subresources_are_disjoint(id, id);
        self.law_plan_units_are_payload_units();
        let f = self.gpu().unwrap();
        let (w, h) = (self.header.width as int, self.header.height as int);
        let (side, bytes) = self.unit().unwrap();
        assert(mip_side(self.header.width, 0) == w && mip_side(self.header.height, 0) == h);
        assert(mip_side(self.full_depth(), 0) == self.full_depth());
        assert(side == 4 || side == 1);
        lemma_blocks_over(w, side);
        lemma_blocks_over(h, side);
    }

    /// A plan for decoded pixels asks for as many bytes as the decoder gives.
    pub proof fn law_decoded_plan_fits_the_decode(&self, id: SubresourceId)
        requires
            self.decoded_plan(id) is Ok,
            self.rgba8_into_outcome(id) is Ok,
        ensures
            self.decoded_plan(id).unwrap().data_len == self.rgba8_pixels(id).len(),
    {
        let s = self.sides(id.mip);
        let (w, h, d) = (s.0 as int, s.1 as int, s.2 as int);
        lemma_mip_side_step(self.header.width, id.mip);
        lemma_mip_side_step(self.header.height, id.mip);
        lemma_mip_side_step(self.full_depth(), id.mip);
        self.law_subresources_are_disjoint(id, id);
        let kind = self.content().unwrap();
        let bytes = self.surface_bytes(id);
        assert(w * h * 4 * d == w * h * d * 4 && 0 <= w * h * 4) by (nonlinear_arith)
            requires
                w > 0,
                h > 0,
        ;
        if d == 1 {
            lemma_slice_pixels_len(kind, bytes, w, h);
        } else {
            law_volume_is_its_slices(kind, bytes, w, h, d as nat, 0);
            assert(d * (w * h * 4) == w * h * 4 * d) by (nonlinear_arith);
        }
    }
}

} // verus!
