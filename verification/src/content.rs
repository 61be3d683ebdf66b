//! Content classification shared by decode, encode and upload plans.

use vstd::prelude::*;

use crate::encode::blocks::{block_count, blocks_across};
use crate::error::Error;
use crate::format::{D3DFormat, DxgiFormat};
use crate::text::{fold, same_but_case};

verus! {

/// Tightly packed RGBA8 image, row by row.
///
/// For volumes (`depth > 1`) the slices are stacked in order, each
/// `width * height * 4` bytes.
#[derive(Debug, Clone, PartialEq, Eq)]
pub struct ImageRgba8 {
    pub width: u32,
    pub height: u32,
    /// At least 1: `1` for 2D images, cubemap faces and array layers.
    pub depth: u32,
    pub pixels: Vec<u8>,
}

/// Tightly packed RGBA image in single precision, row by row, each number as
/// its bit pattern.
#[derive(Debug, Clone, PartialEq, Eq)]
pub struct ImageRgbaF32 {
    pub width: u32,
    pub height: u32,
    pub depth: u32,
    pub pixels: Vec<u32>,
}

impl ImageRgba8 {
    /// The pixels fill the image.
    pub open spec fn wf(&self) -> bool {
        self.pixels@.len() >= self.width * self.height * self.depth * 4
    }

    /// The four bytes of pixel `(x, y)` of slice `z`.
    pub open spec fn pixel_bytes(&self, x: int, y: int, z: int) -> Seq<u8> {
        let i = ((z * self.height + y) * self.width + x) * 4;
        self.pixels@.subrange(i, i + 4)
    }

    /// The pixel at `(x, y)` of the first slice; none outside the image.
    pub fn pixel(&self, x: u32, y: u32) -> (p: Option<[u8; 4]>)
        requires
            self.wf(),
        ensures
            p is Some <==> x < self.width && y < self.height && 0 < self.depth,
            p matches Some(p) ==> p@ == self.pixel_bytes(x as int, y as int, 0),
    {
        self.pixel3(x, y, 0)
    }

    /// The pixel at `(x, y)` of slice `z`; none outside the image.
    pub fn pixel3(&self, x: u32, y: u32, z: u32) -> (p: Option<[u8; 4]>)
        requires
            self.wf(),
        ensures
            p is Some <==> x < self.width && y < self.height && z < self.depth,
            p matches Some(p) ==> p@ == self.pixel_bytes(x as int, y as int, z as int),
    {
        if x >= self.width || y >= self.height || z >= self.depth {
            return None;
        }
        let len: usize = self.pixels.len();
        let w: usize = self.width as usize;
        let h: usize = self.height as usize;
        proof {
            let row = z * h + y;
            assert(row < h * self.depth && z * h >= 0) by (nonlinear_arith)
                requires
                    row == z * h + y,
                    0 <= y < h,
                    0 <= z < self.depth,
            ;
            assert(row * w + x < (h * self.depth) * w && row * w >= 0) by (nonlinear_arith)
                requires
                    0 <= row < h * self.depth,
                    0 <= x < w,
            ;
            assert((h * self.depth) * w == w * h * self.depth) by (nonlinear_arith);
            assert(z * h <= row * w) by (nonlinear_arith)
                requires
                    row == z * h + y,
                    0 <= y,
                    w >= 1,
                    z * h >= 0,
            ;
            assert(row <= row * w) by (nonlinear_arith)
                requires
                    w >= 1,
                    row >= 0,
            ;
        }
        let i: usize = (((z as usize) * h + y as usize) * w + x as usize) * 4;
        let p: [u8; 4] = [self.pixels[i], self.pixels[i + 1], self.pixels[i + 2], self.pixels[i + 3]];
        proof {
            assert(p@ =~= self.pixel_bytes(x as int, y as int, z as int));
        }
        Some(p)
    }
}

/// The content kinds that decode to, and encode from, RGBA8.
#[derive(Debug, Clone, Copy, PartialEq, Eq, Hash, Structural)]
pub enum DecodeContent {
    Bc1,
    Bc2,
    Bc3,
    Bc4UNorm,
    Bc4SNorm,
    Bc5UNorm,
    Bc5SNorm,
    Bc7,
    Rgba8,
    Bgra8,
}

/// The content kinds that decode to single precision.
#[derive(Debug, Clone, Copy, PartialEq, Eq, Hash, Structural)]
pub enum HdrDecodeContent {
    Bc6hUf16,
    Bc6hSf16,
}

impl DecodeContent {
    /// Every content kind.
    pub const ALL_LDR: [DecodeContent; 10] = [
        DecodeContent::Bc1,
        DecodeContent::Bc2,
        DecodeContent::Bc3,
        DecodeContent::Bc4UNorm,
        DecodeContent::Bc4SNorm,
        DecodeContent::Bc5UNorm,
        DecodeContent::Bc5SNorm,
        DecodeContent::Bc7,
        DecodeContent::Rgba8,
        DecodeContent::Bgra8,
    ];

    /// Bytes of one 4x4 block; none for uncompressed kinds.
    pub open spec fn block_size(self) -> Option<int> {
        match self {
            DecodeContent::Bc1 | DecodeContent::Bc4UNorm | DecodeContent::Bc4SNorm => Some(8),
            DecodeContent::Bc2
            | DecodeContent::Bc3
            | DecodeContent::Bc5UNorm
            | DecodeContent::Bc5SNorm
            | DecodeContent::Bc7 => Some(16),
            DecodeContent::Rgba8 | DecodeContent::Bgra8 => None,
        }
    }

    /// Bytes of one 4x4 block; none for uncompressed kinds.
    pub fn block_bytes(self) -> (b: Option<usize>)
        ensures
            b matches Some(n) ==> self.block_size() == Some(n as int) && (n == 8 || n == 16),
            b is None ==> self.block_size() is None,
    {
        match self {
            DecodeContent::Bc1 | DecodeContent::Bc4UNorm | DecodeContent::Bc4SNorm => Some(8),
            DecodeContent::Bc2
            | DecodeContent::Bc3
            | DecodeContent::Bc5UNorm
            | DecodeContent::Bc5SNorm
            | DecodeContent::Bc7 => Some(16),
            DecodeContent::Rgba8 | DecodeContent::Bgra8 => None,
        }
    }

    /// The kind's short name.
    pub open spec fn short_name(self) -> &'static str {
        match self {
            DecodeContent::Bc1 => "bc1",
            DecodeContent::Bc2 => "bc2",
            DecodeContent::Bc3 => "bc3",
            DecodeContent::Bc4UNorm => "bc4u",
            DecodeContent::Bc4SNorm => "bc4s",
            DecodeContent::Bc5UNorm => "bc5u",
            DecodeContent::Bc5SNorm => "bc5s",
            DecodeContent::Bc7 => "bc7",
            DecodeContent::Rgba8 => "rgba8",
            DecodeContent::Bgra8 => "bgra8",
        }
    }

    /// The kind's short name.
    pub fn name(self) -> (s: &'static str)
        ensures
            s == self.short_name(),
    {
        match self {
            DecodeContent::Bc1 => "bc1",
            DecodeContent::Bc2 => "bc2",
            DecodeContent::Bc3 => "bc3",
            DecodeContent::Bc4UNorm => "bc4u",
            DecodeContent::Bc4SNorm => "bc4s",
            DecodeContent::Bc5UNorm => "bc5u",
            DecodeContent::Bc5SNorm => "bc5s",
            DecodeContent::Bc7 => "bc7",
            DecodeContent::Rgba8 => "rgba8",
            DecodeContent::Bgra8 => "bgra8",
        }
    }
}

impl DecodeContent {
    /// No two kinds have the same name, whatever the case of its letters.
    pub proof fn law_names_are_distinct(a: DecodeContent, b: DecodeContent)
        requires
            fold(a.short_name()@) == fold(b.short_name()@),
        ensures
            a == b,
    {
        reveal_strlit("bc1");
        reveal_strlit("bc2");
        reveal_strlit("bc3");
        reveal_strlit("bc4u");
        reveal_strlit("bc4s");
        reveal_strlit("bc5u");
        reveal_strlit("bc5s");
        reveal_strlit("bc7");
        reveal_strlit("rgba8");
        reveal_strlit("bgra8");
        let (x, y) = (fold(a.short_name()@), fold(b.short_name()@));
        assert(x.len() == y.len());
        assert(x[0] == y[0]);
        assert(x[1] == y[1]);
        assert(x[2] == y[2]);
        if x.len() >= 4 {
            assert(x[3] == y[3]);
        }
    }

    /// The kind of a name, whatever the case of its letters.
    pub fn from_name(s: &str) -> (r: Option<DecodeContent>)
        ensures
            r matches Some(k) ==> fold(k.short_name()@) == fold(s@),
            r is None ==> forall|k: DecodeContent| fold((#[trigger] k.short_name())@) != fold(s@),
    {
        let all: [DecodeContent; 10] = DecodeContent::ALL_LDR;
        let mut i: usize = 0;
        while i < 10
            invariant
                i <= 10,
                all == DecodeContent::ALL_LDR,
                forall|k: int| 0 <= k < i ==> fold((#[trigger] all@[k]).short_name()@) != fold(s@),
            decreases 10 - i,
        {
            if same_but_case(all[i].name(), s) {
                return Some(all[i]);
            }
            i = i + 1;
        }
        proof {
            assert forall|k: DecodeContent| fold((#[trigger] k.short_name())@) != fold(s@) by {
                let j: int = match k {
                    DecodeContent::Bc1 => 0,
                    DecodeContent::Bc2 => 1,
                    DecodeContent::Bc3 => 2,
                    DecodeContent::Bc4UNorm => 3,
                    DecodeContent::Bc4SNorm => 4,
                    DecodeContent::Bc5UNorm => 5,
                    DecodeContent::Bc5SNorm => 6,
                    DecodeContent::Bc7 => 7,
                    DecodeContent::Rgba8 => 8,
                    DecodeContent::Bgra8 => 9,
                };
                assert(all@[j] == k);
            }
        }
        None
    }
}

/// The bytes of one slice of `w` by `h` texels.
pub open spec fn slice_bytes(kind: DecodeContent, w: int, h: int) -> int {
    match kind.block_size() {
        Some(b) => block_count(w) * block_count(h) * b,
        None => w * h * 4,
    }
}

/// The bytes of one slice.
pub fn slice_payload_bytes(kind: DecodeContent, width: u32, height: u32) -> (r: Result<usize, Error>)
    ensures
        (width == 0 || height == 0) ==> r == Err::<usize, Error>(Error::InvalidField("zero image dimension")),
        width > 0 && height > 0 && slice_bytes(kind, width as int, height as int) > usize::MAX ==> r == Err::<usize, Error>(
            Error::OutOfBounds,
        ),
        width > 0 && height > 0 && slice_bytes(kind, width as int, height as int) <= usize::MAX ==> r == Ok::<usize, Error>(
            slice_bytes(kind, width as int, height as int) as usize,
        ),
{
    if width == 0 || height == 0 {
        return Err(Error::InvalidField("zero image dimension"));
    }
    match kind.block_bytes() {
        Some(b) => product3(blocks_across(width as usize), blocks_across(height as usize), b),
        None => product3(width as usize, height as usize, 4),
    }
}

/// `a * b * c`, where it and `a * b` fit.
pub fn product3(a: usize, b: usize, c: usize) -> (r: Result<usize, Error>)
    ensures
        a * b > usize::MAX || a * b * c > usize::MAX ==> r == Err::<usize, Error>(Error::OutOfBounds),
        a * b <= usize::MAX && a * b * c <= usize::MAX ==> r == Ok::<usize, Error>((a * b * c) as usize),
        c > 0 && a * b * c <= usize::MAX ==> r == Ok::<usize, Error>((a * b * c) as usize),
{
    proof {
        if c > 0 {
            assert(a * b <= a * b * c) by (nonlinear_arith)
                requires
                    c >= 1,
                    a >= 0,
                    b >= 0,
            ;
        }
    }
    match a.checked_mul(b) {
        None => Err(Error::OutOfBounds),
        Some(n) => match n.checked_mul(c) {
            None => Err(Error::OutOfBounds),
            Some(m) => Ok(m),
        },
    }
}

/// The content kind of a DXGI format; none where it is not handled.
pub open spec fn dxgi_content(f: DxgiFormat) -> Option<DecodeContent> {
    match f {
        DxgiFormat::BC1_Typeless | DxgiFormat::BC1_UNorm | DxgiFormat::BC1_UNorm_sRGB => Some(DecodeContent::Bc1),
        DxgiFormat::BC2_Typeless | DxgiFormat::BC2_UNorm | DxgiFormat::BC2_UNorm_sRGB => Some(DecodeContent::Bc2),
        DxgiFormat::BC3_Typeless | DxgiFormat::BC3_UNorm | DxgiFormat::BC3_UNorm_sRGB => Some(DecodeContent::Bc3),
        DxgiFormat::BC4_Typeless | DxgiFormat::BC4_UNorm => Some(DecodeContent::Bc4UNorm),
        DxgiFormat::BC4_SNorm => Some(DecodeContent::Bc4SNorm),
        DxgiFormat::BC5_Typeless | DxgiFormat::BC5_UNorm => Some(DecodeContent::Bc5UNorm),
        DxgiFormat::BC5_SNorm => Some(DecodeContent::Bc5SNorm),
        DxgiFormat::BC7_Typeless | DxgiFormat::BC7_UNorm | DxgiFormat::BC7_UNorm_sRGB => Some(DecodeContent::Bc7),
        DxgiFormat::R8G8B8A8_Typeless
        | DxgiFormat::R8G8B8A8_UNorm
        | DxgiFormat::R8G8B8A8_UNorm_sRGB
        | DxgiFormat::R8G8B8A8_UInt => Some(DecodeContent::Rgba8),
        DxgiFormat::B8G8R8A8_Typeless | DxgiFormat::B8G8R8A8_UNorm | DxgiFormat::B8G8R8A8_UNorm_sRGB => Some(
            DecodeContent::Bgra8,
        ),
        _ => None,
    }
}

/// The content kind of a Direct3D 9 format; none where it is not handled.
pub open spec fn d3d_content(f: D3DFormat) -> Option<DecodeContent> {
    match f {
        D3DFormat::DXT1 => Some(DecodeContent::Bc1),
        D3DFormat::DXT2 | D3DFormat::DXT3 => Some(DecodeContent::Bc2),
        D3DFormat::DXT4 | D3DFormat::DXT5 => Some(DecodeContent::Bc3),
        _ => None,
    }
}

/// A kind, or the error for a format that is not handled.
pub open spec fn handled<T>(kind: Option<T>) -> Result<T, Error> {
    match kind {
        Some(k) => Ok(k),
        None => Err(Error::UnsupportedFormat),
    }
}

/// The content kind of a DXGI format.
pub fn dxgi_decode_content(format: DxgiFormat) -> (r: Result<DecodeContent, Error>)
    ensures
        r == handled(dxgi_content(format)),
{
    match format {
        DxgiFormat::BC1_Typeless | DxgiFormat::BC1_UNorm | DxgiFormat::BC1_UNorm_sRGB => Ok(DecodeContent::Bc1),
        DxgiFormat::BC2_Typeless | DxgiFormat::BC2_UNorm | DxgiFormat::BC2_UNorm_sRGB => Ok(DecodeContent::Bc2),
        DxgiFormat::BC3_Typeless | DxgiFormat::BC3_UNorm | DxgiFormat::BC3_UNorm_sRGB => Ok(DecodeContent::Bc3),
        DxgiFormat::BC4_Typeless | DxgiFormat::BC4_UNorm => Ok(DecodeContent::Bc4UNorm),
        DxgiFormat::BC4_SNorm => Ok(DecodeContent::Bc4SNorm),
        DxgiFormat::BC5_Typeless | DxgiFormat::BC5_UNorm => Ok(DecodeContent::Bc5UNorm),
        DxgiFormat::BC5_SNorm => Ok(DecodeContent::Bc5SNorm),
        DxgiFormat::BC7_Typeless | DxgiFormat::BC7_UNorm | DxgiFormat::BC7_UNorm_sRGB => Ok(DecodeContent::Bc7),
        DxgiFormat::R8G8B8A8_Typeless
        | DxgiFormat::R8G8B8A8_UNorm
        | DxgiFormat::R8G8B8A8_UNorm_sRGB
        | DxgiFormat::R8G8B8A8_UInt => Ok(DecodeContent::Rgba8),
        DxgiFormat::B8G8R8A8_Typeless | DxgiFormat::B8G8R8A8_UNorm | DxgiFormat::B8G8R8A8_UNorm_sRGB => Ok(
            DecodeContent::Bgra8,
        ),
        _ => Err(Error::UnsupportedFormat),
    }
}

/// The content kind of a Direct3D 9 format.
pub fn d3d_decode_content(format: D3DFormat) -> (r: Result<DecodeContent, Error>)
    ensures
        r == handled(d3d_content(format)),
{
    match format {
        D3DFormat::DXT1 => Ok(DecodeContent::Bc1),
        D3DFormat::DXT2 | D3DFormat::DXT3 => Ok(DecodeContent::Bc2),
        D3DFormat::DXT4 | D3DFormat::DXT5 => Ok(DecodeContent::Bc3),
        _ => Err(Error::UnsupportedFormat),
    }
}

} // verus!
