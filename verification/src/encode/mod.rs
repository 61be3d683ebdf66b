//! Encoders: from RGBA pixels to DDS payloads, for the content kinds that
//! decode to RGBA8, and for BC6H.

use vstd::prelude::*;

use crate::content::{product3, slice_bytes, DecodeContent};
use crate::dds::{chain_size, Dds, NewDxgiParams};
use crate::encode::blocks::EncodeQuality;
use crate::encode::mips::next_level;
use crate::encode::slice::stacked_payload;
use crate::error::Error;
use crate::format::DxgiFormat;
use crate::model::splice;
use crate::surface::{lemma_mip_side_step, mip_side, SubresourceId};

pub mod bc6h;
pub mod blocks;
pub mod container;
pub mod laws;
pub mod laws_bc6h;
pub mod laws_bounds;
pub mod laws_container;
pub mod laws_halves;
pub mod laws_mips;
pub mod laws_slice;
pub mod metrics;
pub mod mips;
pub mod slice;
pub mod tuning;

verus! {

/// Strength of the rate-distortion pass of the BC1 and BC7 encoders.
///
/// A payload ships inside an archive, so the real rate of a block is how well
/// its bytes match earlier ones. The pass trades squared error for bytes saved.
#[derive(Debug, Clone, Copy, PartialEq, Eq)]
#[non_exhaustive]
pub enum Rdo {
    /// No pass.
    Off,
    /// The price of a byte in squared error, as a single-precision pattern.
    /// Zero is no pass.
    Lambda(u32),
}

impl Default for Rdo {
    fn default() -> (r: Rdo)
        ensures
            r == Rdo::Off,
    {
        Rdo::Off
    }
}

impl Rdo {
    /// The price of a byte; zero where there is no pass.
    pub open spec fn price(self) -> u32 {
        match self {
            Rdo::Off => 0,
            Rdo::Lambda(l) => l,
        }
    }

    /// A price is finite and not negative.
    pub open spec fn valid(self) -> bool {
        self.price() < 0x7F80_0000 || self.price() == 0x8000_0000
    }

    /// The pass at a price.
    pub fn lambda(lambda: u32) -> (r: Rdo)
        ensures
            r == Rdo::Lambda(lambda),
    {
        Rdo::Lambda(lambda)
    }

    /// The price of a byte.
    pub fn strength(self) -> (l: u32)
        ensures
            l == self.price(),
    {
        match self {
            Rdo::Off => 0,
            Rdo::Lambda(l) => l,
        }
    }

    fn validate(self) -> (r: Result<(), Error>)
        ensures
            self.valid() ==> r is Ok,
            !self.valid() ==> r == Err::<(), Error>(Error::InvalidField("rdo lambda must be finite and >= 0")),
    {
        let l: u32 = self.strength();
        if l < 0x7F80_0000 || l == 0x8000_0000 {
            Ok(())
        } else {
            Err(Error::InvalidField("rdo lambda must be finite and >= 0"))
        }
    }
}

/// What to encode, and how to lay it out.
#[derive(Debug, Clone, Copy, PartialEq, Eq)]
#[non_exhaustive]
pub struct EncodeLayout {
    pub content: DecodeContent,
    pub width: u32,
    pub height: u32,
    /// Volume depth; 1 for 2D, arrays and cubemaps.
    pub depth: u32,
    pub mipmap_levels: u32,
    /// Array layers, or six for each cube of a cubemap.
    pub array_layers: u32,
    pub is_cubemap: bool,
    pub quality: EncodeQuality,
    pub rdo: Rdo,
}

/// The DXGI format that a content kind is stored as.
pub open spec fn stored_format(kind: DecodeContent) -> DxgiFormat {
    match kind {
        DecodeContent::Bc1 => DxgiFormat::BC1_UNorm,
        DecodeContent::Bc2 => DxgiFormat::BC2_UNorm,
        DecodeContent::Bc3 => DxgiFormat::BC3_UNorm,
        DecodeContent::Bc4UNorm => DxgiFormat::BC4_UNorm,
        DecodeContent::Bc4SNorm => DxgiFormat::BC4_SNorm,
        DecodeContent::Bc5UNorm => DxgiFormat::BC5_UNorm,
        DecodeContent::Bc5SNorm => DxgiFormat::BC5_SNorm,
        DecodeContent::Bc7 => DxgiFormat::BC7_UNorm,
        DecodeContent::Rgba8 => DxgiFormat::R8G8B8A8_UNorm,
        DecodeContent::Bgra8 => DxgiFormat::B8G8R8A8_UNorm,
    }
}

/// The format that a content kind is stored as decodes as that kind.
pub proof fn law_stored_format_is_that_content(kind: DecodeContent)
    ensures
        crate::content::dxgi_content(stored_format(kind)) == Some(kind),
{
}

fn at_least_one(n: u32) -> (r: u32)
    ensures
        r == (if n == 0 {
            1
        } else {
            n
        }),
{
    if n == 0 {
        1
    } else {
        n
    }
}

impl EncodeLayout {
    /// A single 2D image.
    pub fn flat_2d(content: DecodeContent, width: u32, height: u32) -> (l: EncodeLayout)
        ensures
            l == (EncodeLayout {
                content,
                width,
                height,
                depth: 1,
                mipmap_levels: 1,
                array_layers: 1,
                is_cubemap: false,
                quality: EncodeQuality::Quality,
                rdo: Rdo::Off,
            }),
    {
        EncodeLayout {
            content,
            width,
            height,
            depth: 1,
            mipmap_levels: 1,
            array_layers: 1,
            is_cubemap: false,
            quality: EncodeQuality::Quality,
            rdo: Rdo::Off,
        }
    }

    /// The layout with that many mip levels, at least one.
    pub fn with_mips(self, levels: u32) -> (l: EncodeLayout)
        ensures
            l == (EncodeLayout {
                mipmap_levels: if levels == 0 {
                    1
                } else {
                    levels
                },
                ..self
            }),
    {
        EncodeLayout { mipmap_levels: at_least_one(levels), ..self }
    }

    /// The layout with that many array layers, at least one.
    pub fn with_array(self, layers: u32) -> (l: EncodeLayout)
        ensures
            l == (EncodeLayout {
                array_layers: if layers == 0 {
                    1
                } else {
                    layers
                },
                ..self
            }),
    {
        EncodeLayout { array_layers: at_least_one(layers), ..self }
    }

    /// The layout with that depth, at least one.
    pub fn with_depth(self, depth: u32) -> (l: EncodeLayout)
        ensures
            l == (EncodeLayout {
                depth: if depth == 0 {
                    1
                } else {
                    depth
                },
                ..self
            }),
    {
        EncodeLayout { depth: at_least_one(depth), ..self }
    }

    /// The layout at that effort.
    pub fn with_quality(self, quality: EncodeQuality) -> (l: EncodeLayout)
        ensures
            l == (EncodeLayout { quality, ..self }),
    {
        EncodeLayout { quality, ..self }
    }

    /// The layout with that rate-distortion pass.
    pub fn with_rdo(self, rdo: Rdo) -> (l: EncodeLayout)
        ensures
            l == (EncodeLayout { rdo, ..self }),
    {
        EncodeLayout { rdo, ..self }
    }

    /// The layout as a cubemap, of six faces where it had fewer layers.
    pub fn cubemap(self) -> (l: EncodeLayout)
        ensures
            l == (EncodeLayout {
                is_cubemap: true,
                array_layers: if self.array_layers < 6 {
                    6
                } else {
                    self.array_layers
                },
                ..self
            }),
    {
        let array_layers: u32 = if self.array_layers < 6 {
            6
        } else {
            self.array_layers
        };
        EncodeLayout { is_cubemap: true, array_layers, ..self }
    }

    pub(crate) fn dxgi(self) -> (f: DxgiFormat)
        ensures
            f == stored_format(self.content),
    {
        match self.content {
            DecodeContent::Bc1 => DxgiFormat::BC1_UNorm,
            DecodeContent::Bc2 => DxgiFormat::BC2_UNorm,
            DecodeContent::Bc3 => DxgiFormat::BC3_UNorm,
            DecodeContent::Bc4UNorm => DxgiFormat::BC4_UNorm,
            DecodeContent::Bc4SNorm => DxgiFormat::BC4_SNorm,
            DecodeContent::Bc5UNorm => DxgiFormat::BC5_UNorm,
            DecodeContent::Bc5SNorm => DxgiFormat::BC5_SNorm,
            DecodeContent::Bc7 => DxgiFormat::BC7_UNorm,
            DecodeContent::Rgba8 => DxgiFormat::R8G8B8A8_UNorm,
            DecodeContent::Bgra8 => DxgiFormat::B8G8R8A8_UNorm,
        }
    }

    /// Whether the layout makes sense, and if not, why.
    pub open spec fn checked(self) -> Result<(), Error> {
        if !self.rdo.valid() {
            Err(Error::InvalidField("rdo lambda must be finite and >= 0"))
        } else if self.width == 0 || self.height == 0 || self.depth == 0 {
            Err(Error::InvalidField("zero image dimension"))
        } else if self.mipmap_levels == 0 || self.array_layers == 0 {
            Err(Error::InvalidField("zero mip/array count"))
        } else if self.is_cubemap && self.array_layers % 6 != 0 {
            Err(Error::InvalidField("cubemap array_layers must be a multiple of 6"))
        } else if self.is_cubemap && self.depth != 1 {
            Err(Error::InvalidField("cubemap cannot be a volume"))
        } else if self.depth > 1 && self.array_layers != 1 {
            Err(Error::InvalidField("volume textures cannot also be arrays"))
        } else {
            Ok(())
        }
    }

    pub(crate) fn validate(&self) -> (r: Result<(), Error>)
        ensures
            r == self.checked(),
    {
        match self.rdo.validate() {
            Ok(_) => {},
            Err(e) => {
                return Err(e);
            },
        }
        if self.width == 0 || self.height == 0 || self.depth == 0 {
            return Err(Error::InvalidField("zero image dimension"));
        }
        if self.mipmap_levels == 0 || self.array_layers == 0 {
            return Err(Error::InvalidField("zero mip/array count"));
        }
        if self.is_cubemap {
            if self.array_layers % 6 != 0 {
                return Err(Error::InvalidField("cubemap array_layers must be a multiple of 6"));
            }
            if self.depth != 1 {
                return Err(Error::InvalidField("cubemap cannot be a volume"));
            }
        }
        if self.depth > 1 && self.array_layers != 1 {
            return Err(Error::InvalidField("volume textures cannot also be arrays"));
        }
        Ok(())
    }

    /// The RGBA8 bytes of one layer of the source.
    pub open spec fn layer_len(self) -> int {
        self.width * self.height * self.depth * 4
    }

    /// The RGBA8 bytes of the source, or why there is no such number.
    pub open spec fn source_len(self) -> Result<usize, Error> {
        match self.checked() {
            Err(e) => Err(e),
            Ok(_) => if self.layer_len() * self.array_layers > usize::MAX {
                Err(Error::OutOfBounds)
            } else {
                Ok((self.layer_len() * self.array_layers) as usize)
            },
        }
    }

    /// The RGBA8 bytes of the source: the largest mip level of every layer.
    pub fn source_rgba8_len(&self) -> (r: Result<usize, Error>)
        ensures
            r == self.source_len(),
    {
        match self.validate() {
            Ok(_) => {},
            Err(e) => {
                return Err(e);
            },
        }
        let ghost (w, h, d, n) = (self.width as int, self.height as int, self.depth as int, self.array_layers as int);
        proof {
            assert(0 < w * h) by (nonlinear_arith)
                requires
                    w > 0,
                    h > 0,
            ;
            assert(w * h * d * 4 * n == w * h * d * n * 4 && 0 < w * h * d && w * h * d <= w * h * d * n * 4 && 0 < w * h * d * n)
                by (nonlinear_arith)
                requires
                    0 < w * h,
                    d > 0,
                    n > 0,
            ;
        }
        match product3(self.width as usize, self.height as usize, self.depth as usize) {
            Err(e) => Err(e),
            Ok(texels) => product3(texels, self.array_layers as usize, 4),
        }
    }

    /// The container that the layout asks for.
    pub open spec fn params(self) -> NewDxgiParams {
        NewDxgiParams {
            height: self.height,
            width: self.width,
            depth: if self.depth > 1 {
                Some(self.depth)
            } else {
                None
            },
            format: stored_format(self.content),
            mipmap_levels: Some(self.mipmap_levels),
            array_layers: Some(self.array_layers),
            is_cubemap: self.is_cubemap,
        }
    }

    /// The bytes that the container has for mip level `m`.
    pub open spec fn room(self, m: nat) -> int {
        chain_size(self.params().blank().main_size().unwrap(), self.params().blank().least_size(), m)
    }

    /// The bytes that mip level `m` encodes to.
    pub open spec fn level_bytes(self, m: u32) -> int {
        slice_bytes(self.content, mip_side(self.width, m) as int, mip_side(self.height, m) as int) * mip_side(
            self.depth,
            m,
        )
    }

    /// The container has room for every mip level.
    pub open spec fn fits(self) -> bool {
        forall|m: u32| m < self.mipmap_levels ==> self.room(m as nat) >= #[trigger] self.level_bytes(m)
    }

    /// Whether an encode of `len` bytes of pixels succeeds, and if not, why.
    pub open spec fn outcome(self, len: int) -> Result<(), Error> {
        match self.source_len() {
            Err(e) => Err(e),
            Ok(n) => if len < n {
                Err(Error::TruncatedData)
            } else {
                match self.params().payload_size() {
                    None => Err(Error::UnsupportedFormat),
                    Some(n) => if n > u32::MAX {
                        Err(Error::OutOfBounds)
                    } else if !self.fits() {
                        Err(Error::TruncatedData)
                    } else {
                        Ok(())
                    },
                }
            },
        }
    }

    /// The source pixels of one layer or face.
    pub open spec fn layer_pixels(self, pixels: Seq<u8>, layer: int) -> Seq<u8> {
        pixels.subrange(layer * self.layer_len(), layer * self.layer_len() + self.layer_len())
    }

    /// The pixels of mip level `m` of one layer or face.
    pub open spec fn mip_pixels(self, pixels: Seq<u8>, layer: int, m: nat) -> Seq<u8> {
        level_pixels(self.layer_pixels(pixels, layer), self.width, self.height, self.depth, m)
    }

    /// The bytes of one subresource: its encoding, then zeros up to its size.
    pub open spec fn stored(self, pixels: Seq<u8>, layer: int, m: u32) -> Seq<u8> {
        splice(
            Seq::new(self.room(m as nat) as nat, |i: int| 0u8),
            0,
            stacked_payload(
                self.content,
                self.quality,
                self.rdo.price(),
                self.mip_pixels(pixels, layer, m as nat),
                mip_side(self.width, m) as int,
                mip_side(self.height, m) as int,
                mip_side(self.depth, m) as nat,
            ),
        )
    }
}

/// The pixels of mip level `m`: each level box-filtered from the one before.
pub open spec fn level_pixels(src: Seq<u8>, w: u32, h: u32, d: u32, m: nat) -> Seq<u8>
    decreases m,
{
    if m == 0 {
        src
    } else {
        let k = (m - 1) as u32;
        next_level(
            level_pixels(src, w, h, d, (m - 1) as nat),
            mip_side(w, k) as int,
            mip_side(h, k) as int,
            mip_side(d, k) as int,
        )
    }
}

/// A mip level has four bytes for every texel.
pub proof fn lemma_level_len(src: Seq<u8>, w: u32, h: u32, d: u32, m: u32)
    requires
        w > 0,
        h > 0,
        d > 0,
        src.len() == w * h * d * 4,
    ensures
        level_pixels(src, w, h, d, m as nat).len() == mip_side(w, m) * mip_side(h, m) * mip_side(d, m) * 4,
{
    if m > 0 {
        let k = (m - 1) as u32;
        lemma_mip_side_step(w, k);
        lemma_mip_side_step(h, k);
        lemma_mip_side_step(d, k);
        let (a, b, c) = (mip_side(w, m) as int, mip_side(h, m) as int, mip_side(d, m) as int);
        assert(a * b * c * 4 >= 0) by (nonlinear_arith)
            requires
                a >= 0,
                b >= 0,
                c >= 0,
        ;
    }
}

/// Whether a container holds the encoding of `pixels` under `layout`: its
/// headers describe the layout, and every subresource lies in the payload and
/// holds its mip level.
pub open spec fn holds_encoding(dds: Dds, pixels: Seq<u8>, layout: EncodeLayout) -> bool {
    &&& dds.header == layout.params().described().0
    &&& dds.header10 == Some(layout.params().described().1)
    &&& dds.data@.len() == layout.params().payload_size().unwrap()
    &&& forall|id: SubresourceId| #[trigger]
        dds.has(id) ==> dds.place(id) is Ok && dds.surface_bytes(id) == layout.stored(pixels, dds.chain_of(id), id.mip)
}

} // verus!
