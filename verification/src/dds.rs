//! The DDS container: what the headers say and the payload they describe.

use vstd::prelude::*;

use crate::content::{d3d_content, d3d_decode_content, dxgi_content, dxgi_decode_content, handled, DecodeContent, HdrDecodeContent};
use crate::encode::blocks::block_count;
use crate::error::Error;
use crate::format::{D3DFormat, DxgiFormat};

verus! {

/// The fields of the main header that the library reads.
#[derive(Debug, Clone, Copy, PartialEq, Eq)]
pub struct Header {
    pub width: u32,
    pub height: u32,
    /// Volume depth, where the header gives one.
    pub depth: Option<u32>,
    /// Number of mip levels, where the header gives one.
    pub mip_map_count: Option<u32>,
    /// Whether the second capability word names a cubemap.
    pub cubemap: bool,
    /// The Direct3D 9 format, where the pixel format gives one.
    pub d3d_format: Option<D3DFormat>,
}

/// The fields of the DX10 header that the library reads.
#[derive(Debug, Clone, Copy, PartialEq, Eq)]
pub struct Header10 {
    pub dxgi_format: DxgiFormat,
    /// Array layers, or cubes for a cubemap.
    pub array_size: u32,
    /// Whether the resource is a cubemap.
    pub texture_cube: bool,
}

/// Bytes that hold a payload.
pub trait Payload {
    /// The bytes.
    spec fn bytes(&self) -> Seq<u8>;

    /// The bytes.
    fn as_bytes(&self) -> (s: &[u8])
        ensures
            s@ == self.bytes(),
    ;
}

impl Payload for Vec<u8> {
    open spec fn bytes(&self) -> Seq<u8> {
        self@
    }

    fn as_bytes(&self) -> (s: &[u8]) {
        self.as_slice()
    }
}

impl<'a> Payload for &'a [u8] {
    open spec fn bytes(&self) -> Seq<u8> {
        (*self)@
    }

    fn as_bytes(&self) -> (s: &[u8]) {
        *self
    }
}

/// A DDS: headers and payload, owned or borrowed.
#[derive(Debug, Clone)]
pub struct DdsBase<D> {
    pub header: Header,
    pub header10: Option<Header10>,
    pub data: D,
}

/// A DDS that owns its payload.
pub type Dds = DdsBase<Vec<u8>>;

/// A DDS over borrowed bytes.
pub type DdsView<'a> = DdsBase<&'a [u8]>;

/// The texel width of a format's unit and the unit's bytes: a 4x4 block or a
/// single texel. None where the format is not handled.
pub open spec fn dxgi_unit(f: DxgiFormat) -> Option<(int, int)> {
    match f {
        DxgiFormat::BC6H_Typeless | DxgiFormat::BC6H_UF16 | DxgiFormat::BC6H_SF16 => Some((4, 16)),
        _ => content_unit(dxgi_content(f)),
    }
}

/// The same of a content kind.
pub open spec fn content_unit(k: Option<DecodeContent>) -> Option<(int, int)> {
    match k {
        None => None,
        Some(k) => match k.block_size() {
            Some(b) => Some((4, b)),
            None => Some((1, 4)),
        },
    }
}

/// How many units cover `n` texels.
pub open spec fn units_across(n: int, side: int) -> int {
    if side == 4 {
        block_count(n)
    } else {
        n
    }
}

/// The bytes of level `m` of a mip chain that starts at `main` bytes: each level
/// a quarter of the one before, but at least `least`.
pub open spec fn chain_size(main: int, least: int, m: nat) -> int
    decreases m,
{
    if m == 0 {
        main
    } else {
        let s = chain_size(main, least, (m - 1) as nat) / 4;
        if s < least {
            least
        } else {
            s
        }
    }
}

/// The bytes of the levels before level `m`.
pub open spec fn chain_offset(main: int, least: int, m: nat) -> int
    decreases m,
{
    if m == 0 {
        0
    } else {
        chain_offset(main, least, (m - 1) as nat) + chain_size(main, least, (m - 1) as nat)
    }
}

/// Levels have nonnegative sizes, and offsets do not fall.
pub proof fn lemma_chain(main: int, least: int, m: nat, n: nat)
    requires
        main >= 0,
        least >= 0,
        m <= n,
    ensures
        0 <= chain_size(main, least, m),
        0 <= chain_offset(main, least, m) <= chain_offset(main, least, n),
    decreases n,
{
    if n > 0 {
        if m < n {
            lemma_chain(main, least, m, (n - 1) as nat);
            lemma_chain(main, least, (n - 1) as nat, (n - 1) as nat);
        } else {
            lemma_chain(main, least, (n - 1) as nat, (n - 1) as nat);
        }
    }
}

impl<D: Payload> DdsBase<D> {
    /// The DX10 format, where there is a DX10 header.
    pub open spec fn dxgi(&self) -> Option<DxgiFormat> {
        match self.header10 {
            Some(h) => Some(h.dxgi_format),
            None => None,
        }
    }

    /// The unit of the payload's format.
    pub open spec fn unit(&self) -> Option<(int, int)> {
        match self.dxgi() {
            Some(f) => dxgi_unit(f),
            None => match self.header.d3d_format {
                Some(f) => content_unit(d3d_content(f)),
                None => None,
            },
        }
    }

    /// Number of mip levels.
    pub open spec fn levels(&self) -> u32 {
        match self.header.mip_map_count {
            Some(n) => n,
            None => 1,
        }
    }

    /// Volume depth, one where the header gives none.
    pub open spec fn full_depth(&self) -> u32 {
        match self.header.depth {
            Some(d) => d,
            None => 1,
        }
    }

    /// The bytes of the main surface; none where the format is not handled or
    /// the size does not fit 32 bits.
    pub open spec fn main_size(&self) -> Option<int> {
        match self.unit() {
            None => None,
            Some((side, bytes)) => {
                let n = units_across(self.header.width as int, side) * bytes * units_across(
                    self.header.height as int,
                    side,
                ) * self.full_depth();
                if n > u32::MAX {
                    None
                } else {
                    Some(n)
                }
            },
        }
    }

    /// The least bytes of a mip level: one unit.
    pub open spec fn least_size(&self) -> int {
        match self.unit() {
            Some((side, bytes)) => bytes,
            None => 1,
        }
    }

    /// The DX10 format, where there is a DX10 header.
    pub fn get_dxgi_format(&self) -> (f: Option<DxgiFormat>)
        ensures
            f == self.dxgi(),
    {
        match self.header10 {
            Some(h) => Some(h.dxgi_format),
            None => None,
        }
    }

    /// The Direct3D 9 format, where the pixel format gives one.
    pub fn get_d3d_format(&self) -> (f: Option<D3DFormat>)
        ensures
            f == self.header.d3d_format,
    {
        self.header.d3d_format
    }

    /// Number of mip levels.
    pub fn get_num_mipmap_levels(&self) -> (n: u32)
        ensures
            n == self.levels(),
    {
        match self.header.mip_map_count {
            Some(n) => n,
            None => 1,
        }
    }

    fn unit_of(&self) -> (u: Option<(u32, u32)>)
        ensures
            u matches Some((s, b)) ==> self.unit() == Some((s as int, b as int)) && (s == 4 || s == 1) && 0 < b <= 16,
            u is None ==> self.unit() is None,
    {
        let kind: Option<DecodeContent> = match self.get_dxgi_format() {
            Some(f) => match f {
                DxgiFormat::BC6H_Typeless | DxgiFormat::BC6H_UF16 | DxgiFormat::BC6H_SF16 => {
                    return Some((4, 16));
                },
                _ => match dxgi_decode_content(f) {
                    Ok(k) => Some(k),
                    Err(_) => None,
                },
            },
            None => match self.get_d3d_format() {
                Some(f) => match d3d_decode_content(f) {
                    Ok(k) => Some(k),
                    Err(_) => None,
                },
                None => None,
            },
        };
        match kind {
            None => None,
            Some(k) => match k.block_bytes() {
                Some(b) => Some((4, b as u32)),
                None => Some((1, 4)),
            },
        }
    }

    /// The bytes of the main surface.
    pub fn get_main_texture_size(&self) -> (n: Option<u32>)
        ensures
            n matches Some(n) ==> self.main_size() == Some(n as int),
            n is None ==> self.main_size() is None,
    {
        match self.unit_of() {
            None => None,
            Some((side, bytes)) => {
                let w: u32 = units_over(self.header.width, side);
                let h: u32 = units_over(self.header.height, side);
                let d: u32 = match self.header.depth {
                    Some(d) => d,
                    None => 1,
                };
                product_u32(w, bytes, h, d)
            },
        }
    }

    /// The least bytes of a mip level.
    pub fn get_min_mipmap_size_in_bytes(&self) -> (n: u32)
        ensures
            n == self.least_size(),
            0 < n <= 16,
    {
        match self.unit_of() {
            Some((_, b)) => b,
            None => 1,
        }
    }

    /// The bytes of one layer, or face, with its mip chain.
    pub fn get_array_stride(&self) -> (r: Result<u32, Error>)
        ensures
            self.main_size() is None ==> r == Err::<u32, Error>(Error::UnsupportedFormat),
            self.main_size() matches Some(m) ==> ({
                let s = chain_offset(m, self.least_size(), self.levels() as nat);
                if s > u32::MAX {
                    r == Err::<u32, Error>(Error::OutOfBounds)
                } else {
                    r == Ok::<u32, Error>(s as u32)
                }
            }),
    {
        match self.get_main_texture_size() {
            None => Err(Error::UnsupportedFormat),
            Some(main) => {
                match walk_chain(main, self.get_min_mipmap_size_in_bytes(), self.get_num_mipmap_levels()) {
                    Ok((off, _)) => Ok(off),
                    Err(e) => Err(e),
                }
            },
        }
    }

    /// The content kind that decodes to RGBA8.
    pub open spec fn content(&self) -> Result<DecodeContent, Error> {
        match self.dxgi() {
            Some(f) => handled(dxgi_content(f)),
            None => match self.header.d3d_format {
                Some(f) => handled(d3d_content(f)),
                None => Err(Error::UnsupportedFormat),
            },
        }
    }

    /// Classifies the payload for decode to RGBA8.
    pub fn decode_content(&self) -> (r: Result<DecodeContent, Error>)
        ensures
            r == self.content(),
    {
        match self.get_dxgi_format() {
            Some(f) => dxgi_decode_content(f),
            None => match self.get_d3d_format() {
                Some(f) => d3d_decode_content(f),
                None => Err(Error::UnsupportedFormat),
            },
        }
    }

    /// The content kind that decodes to single precision.
    pub open spec fn hdr_content(&self) -> Result<HdrDecodeContent, Error> {
        match self.dxgi() {
            Some(DxgiFormat::BC6H_Typeless) | Some(DxgiFormat::BC6H_UF16) => Ok(HdrDecodeContent::Bc6hUf16),
            Some(DxgiFormat::BC6H_SF16) => Ok(HdrDecodeContent::Bc6hSf16),
            _ => Err(Error::UnsupportedFormat),
        }
    }

    /// Classifies the payload for decode to single precision.
    pub fn hdr_decode_content(&self) -> (r: Result<HdrDecodeContent, Error>)
        ensures
            r == self.hdr_content(),
    {
        match self.get_dxgi_format() {
            Some(DxgiFormat::BC6H_Typeless) | Some(DxgiFormat::BC6H_UF16) => Ok(HdrDecodeContent::Bc6hUf16),
            Some(DxgiFormat::BC6H_SF16) => Ok(HdrDecodeContent::Bc6hSf16),
            _ => Err(Error::UnsupportedFormat),
        }
    }

    /// No payload is handled by both decoders.
    pub proof fn law_decoders_are_exclusive(&self)
        ensures
            !(self.content() is Ok && self.hdr_content() is Ok),
    {
    }
}

fn units_over(n: u32, side: u32) -> (r: u32)
    requires
        side == 4 || side == 1,
    ensures
        r == units_across(n as int, side as int),
{
    if side == 4 {
        if n % 4 == 0 {
            n / 4
        } else {
            n / 4 + 1
        }
    } else {
        n
    }
}

fn product_u32(a: u32, b: u32, c: u32, d: u32) -> (r: Option<u32>)
    requires
        b <= 16,
    ensures
        a * b * c * d > u32::MAX ==> r is None,
        a * b * c * d <= u32::MAX ==> r == Some((a * b * c * d) as u32),
{
    proof {
        assert(0 <= a * b <= 0x10_0000_0000) by (nonlinear_arith)
            requires
                0 <= a <= 0xFFFF_FFFF,
                0 <= b <= 16,
        ;
        assert(0 <= a * b * c <= 0x10_0000_0000 * 0x1_0000_0000) by (nonlinear_arith)
            requires
                0 <= a * b <= 0x10_0000_0000,
                0 <= c <= 0xFFFF_FFFF,
        ;
        assert(0 <= a * b * c * d <= 0x10_0000_0000 * 0x1_0000_0000 * 0x1_0000_0000) by (nonlinear_arith)
            requires
                0 <= a * b * c <= 0x10_0000_0000 * 0x1_0000_0000,
                0 <= d <= 0xFFFF_FFFF,
        ;
    }
    let n: u128 = (a as u128) * (b as u128) * (c as u128) * (d as u128);
    if n > 0xFFFF_FFFF {
        None
    } else {
        Some(n as u32)
    }
}

/// The offset and the size of level `m` of a mip chain.
pub fn walk_chain(main: u32, least: u32, m: u32) -> (r: Result<(u32, u32), Error>)
    ensures
        chain_offset(main as int, least as int, m as nat) > u32::MAX ==> r == Err::<(u32, u32), Error>(
            Error::OutOfBounds,
        ),
        chain_offset(main as int, least as int, m as nat) <= u32::MAX ==> r == Ok::<(u32, u32), Error>(
            (
                chain_offset(main as int, least as int, m as nat) as u32,
                chain_size(main as int, least as int, m as nat) as u32,
            ),
        ),
{
    let mut current: u32 = main;
    let mut offset: u32 = 0;
    let mut k: u32 = 0;
    while k < m
        invariant
            k <= m,
            current == chain_size(main as int, least as int, k as nat),
            offset == chain_offset(main as int, least as int, k as nat),
        decreases m - k,
    {
        proof {
            lemma_chain(main as int, least as int, (k + 1) as nat, m as nat);
        }
        match offset.checked_add(current) {
            None => {
                return Err(Error::OutOfBounds);
            },
            Some(n) => {
                offset = n;
            },
        }
        current = current / 4;
        if current < least {
            current = least;
        }
        k = k + 1;
    }
    Ok((offset, current))
}

/// What a new container should hold.
#[derive(Debug, Clone, Copy)]
pub struct NewDxgiParams {
    pub height: u32,
    pub width: u32,
    pub depth: Option<u32>,
    pub format: DxgiFormat,
    pub mipmap_levels: Option<u32>,
    /// Array layers, or faces for a cubemap.
    pub array_layers: Option<u32>,
    pub is_cubemap: bool,
}

impl NewDxgiParams {
    /// Layers, or faces, in the payload.
    pub open spec fn layers(self) -> u32 {
        match self.array_layers {
            Some(n) => n,
            None => 1,
        }
    }

    /// The headers that the parameters describe.
    pub open spec fn described(self) -> (Header, Header10) {
        (
            Header {
                width: self.width,
                height: self.height,
                depth: self.depth,
                mip_map_count: self.mipmap_levels,
                cubemap: self.is_cubemap,
                d3d_format: None,
            },
            Header10 {
                dxgi_format: self.format,
                array_size: if self.is_cubemap {
                    self.layers() / 6
                } else {
                    self.layers()
                },
                texture_cube: self.is_cubemap,
            },
        )
    }

    /// A container with the headers that the parameters describe, whatever
    /// its payload.
    pub open spec fn blank(self) -> Dds {
        DdsBase { header: self.described().0, header10: Some(self.described().1), data: arbitrary() }
    }

    /// The bytes of the payload; none where the format is not handled.
    pub open spec fn payload_size(self) -> Option<int> {
        match self.blank().main_size() {
            None => None,
            Some(m) => Some(
                self.layers() * chain_offset(m, self.blank().least_size(), self.blank().levels() as nat),
            ),
        }
    }
}

impl DdsBase<Vec<u8>> {
    /// A container for a DX10 format, its payload zero.
    pub fn new_dxgi(p: NewDxgiParams) -> (r: Result<Dds, Error>)
        ensures
            p.payload_size() is None ==> r == Err::<Dds, Error>(Error::UnsupportedFormat),
            p.payload_size() matches Some(n) && n > u32::MAX ==> r == Err::<Dds, Error>(Error::OutOfBounds),
            p.payload_size() matches Some(n) && n <= u32::MAX ==> r is Ok,
            r matches Ok(d) ==> (d.header, d.header10) == (p.described().0, Some(p.described().1)) && d.data@ == Seq::new(
                p.payload_size().unwrap() as nat,
                |i: int| 0u8,
            ),
    {
        let layers: u32 = match p.array_layers {
            Some(n) => n,
            None => 1,
        };
        let header: Header = Header {
            width: p.width,
            height: p.height,
            depth: p.depth,
            mip_map_count: p.mipmap_levels,
            cubemap: p.is_cubemap,
            d3d_format: None,
        };
        let header10: Header10 = Header10 {
            dxgi_format: p.format,
            array_size: if p.is_cubemap {
                layers / 6
            } else {
                layers
            },
            texture_cube: p.is_cubemap,
        };
        let mut d: Dds = DdsBase { header, header10: Some(header10), data: Vec::new() };
        let ghost e = p.blank();
        proof {
            assert(d.main_size() == e.main_size());
            assert(d.least_size() == e.least_size());
            assert(d.levels() == e.levels());
            if let Some(m) = d.main_size() {
                lemma_chain(m, d.least_size(), 0, d.levels() as nat);
                let s = chain_offset(m, d.least_size(), d.levels() as nat);
                assert(layers == 0 ==> layers * s == 0) by (nonlinear_arith);
                assert(layers >= 1 && s > u32::MAX ==> layers * s > u32::MAX) by (nonlinear_arith);
            }
        }
        if d.get_main_texture_size().is_none() {
            return Err(Error::UnsupportedFormat);
        }
        if layers == 0 {
            proof {
                assert(d.data@ =~= Seq::new(0, |i: int| 0u8));
            }
            return Ok(d);
        }
        let stride: u32 = match d.get_array_stride() {
            Ok(s) => s,
            Err(e) => {
                return Err(e);
            },
        };
        let n: u32 = match layers.checked_mul(stride) {
            Some(n) => n,
            None => {
                return Err(Error::OutOfBounds);
            },
        };
        d.data = vec![0u8; n as usize];
        proof {
            assert(d.data@ =~= Seq::new(n as nat, |i: int| 0u8));
        }
        Ok(d)
    }
}

} // verus!
