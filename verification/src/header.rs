//! The container's bytes: the magic number, the main header, the DX10 header
//! where there is one, and the payload.
//!
//! Both headers are little-endian words of four bytes; word `k` of a file
//! starts at byte `4 * k`.

use vstd::prelude::*;

use crate::dds::{Dds, DdsBase, DdsView, Header, Header10};
use crate::error::Error;
use crate::format::{D3DFormat, DxgiFormat};
use crate::model::{le32, read_le32};

verus! {

/// `DDS `.
pub const MAGIC: u32 = 0x2053_4444;

/// `DX10`: a DX10 header follows.
pub const DX10: u32 = 0x3031_5844;

/// The main header gives a depth.
pub const HAS_DEPTH: u32 = 0x0080_0000;

/// The main header gives a number of mip levels.
pub const HAS_MIPS: u32 = 0x0002_0000;

/// The parts of the main header that are always there.
pub const ALWAYS: u32 = 0x0000_1007;

/// A texture.
pub const TEXTURE: u32 = 0x0000_1000;

/// A texture of more than one surface.
pub const COMPLEX: u32 = 0x0040_0008;

/// A cubemap with all six faces.
pub const CUBEMAP: u32 = 0x0000_FE00;

/// The number of a DXGI format.
pub open spec fn dxgi_code(f: DxgiFormat) -> u32 {
    match f {
        DxgiFormat::R8G8B8A8_Typeless => 27,
        DxgiFormat::R8G8B8A8_UNorm => 28,
        DxgiFormat::R8G8B8A8_UNorm_sRGB => 29,
        DxgiFormat::R8G8B8A8_UInt => 30,
        DxgiFormat::BC1_Typeless => 70,
        DxgiFormat::BC1_UNorm => 71,
        DxgiFormat::BC1_UNorm_sRGB => 72,
        DxgiFormat::BC2_Typeless => 73,
        DxgiFormat::BC2_UNorm => 74,
        DxgiFormat::BC2_UNorm_sRGB => 75,
        DxgiFormat::BC3_Typeless => 76,
        DxgiFormat::BC3_UNorm => 77,
        DxgiFormat::BC3_UNorm_sRGB => 78,
        DxgiFormat::BC4_Typeless => 79,
        DxgiFormat::BC4_UNorm => 80,
        DxgiFormat::BC4_SNorm => 81,
        DxgiFormat::BC5_Typeless => 82,
        DxgiFormat::BC5_UNorm => 83,
        DxgiFormat::BC5_SNorm => 84,
        DxgiFormat::B8G8R8A8_UNorm => 87,
        DxgiFormat::B8G8R8A8_Typeless => 90,
        DxgiFormat::B8G8R8A8_UNorm_sRGB => 91,
        DxgiFormat::BC6H_Typeless => 94,
        DxgiFormat::BC6H_UF16 => 95,
        DxgiFormat::BC6H_SF16 => 96,
        DxgiFormat::BC7_Typeless => 97,
        DxgiFormat::BC7_UNorm => 98,
        DxgiFormat::BC7_UNorm_sRGB => 99,
        DxgiFormat::Other(n) => n,
    }
}

/// The DXGI format of a number.
pub open spec fn dxgi_of_code(n: u32) -> DxgiFormat {
    if n == 27 {
        DxgiFormat::R8G8B8A8_Typeless
    } else if n == 28 {
        DxgiFormat::R8G8B8A8_UNorm
    } else if n == 29 {
        DxgiFormat::R8G8B8A8_UNorm_sRGB
    } else if n == 30 {
        DxgiFormat::R8G8B8A8_UInt
    } else if n == 70 {
        DxgiFormat::BC1_Typeless
    } else if n == 71 {
        DxgiFormat::BC1_UNorm
    } else if n == 72 {
        DxgiFormat::BC1_UNorm_sRGB
    } else if n == 73 {
        DxgiFormat::BC2_Typeless
    } else if n == 74 {
        DxgiFormat::BC2_UNorm
    } else if n == 75 {
        DxgiFormat::BC2_UNorm_sRGB
    } else if n == 76 {
        DxgiFormat::BC3_Typeless
    } else if n == 77 {
        DxgiFormat::BC3_UNorm
    } else if n == 78 {
        DxgiFormat::BC3_UNorm_sRGB
    } else if n == 79 {
        DxgiFormat::BC4_Typeless
    } else if n == 80 {
        DxgiFormat::BC4_UNorm
    } else if n == 81 {
        DxgiFormat::BC4_SNorm
    } else if n == 82 {
        DxgiFormat::BC5_Typeless
    } else if n == 83 {
        DxgiFormat::BC5_UNorm
    } else if n == 84 {
        DxgiFormat::BC5_SNorm
    } else if n == 87 {
        DxgiFormat::B8G8R8A8_UNorm
    } else if n == 90 {
        DxgiFormat::B8G8R8A8_Typeless
    } else if n == 91 {
        DxgiFormat::B8G8R8A8_UNorm_sRGB
    } else if n == 94 {
        DxgiFormat::BC6H_Typeless
    } else if n == 95 {
        DxgiFormat::BC6H_UF16
    } else if n == 96 {
        DxgiFormat::BC6H_SF16
    } else if n == 97 {
        DxgiFormat::BC7_Typeless
    } else if n == 98 {
        DxgiFormat::BC7_UNorm
    } else if n == 99 {
        DxgiFormat::BC7_UNorm_sRGB
    } else {
        DxgiFormat::Other(n)
    }
}

/// A format's number is its own, and a number's format has that number: only a
/// format that is known by its number alone can also have a name.
pub proof fn law_dxgi_codes_round_trip(f: DxgiFormat, n: u32)
    ensures
        dxgi_code(dxgi_of_code(n)) == n,
        !(f is Other) ==> dxgi_of_code(dxgi_code(f)) == f,
{
}

/// The number of a DXGI format.
pub fn code_of_dxgi(f: DxgiFormat) -> (n: u32)
    ensures
        n == dxgi_code(f),
{
    match f {
        DxgiFormat::R8G8B8A8_Typeless => 27,
        DxgiFormat::R8G8B8A8_UNorm => 28,
        DxgiFormat::R8G8B8A8_UNorm_sRGB => 29,
        DxgiFormat::R8G8B8A8_UInt => 30,
        DxgiFormat::BC1_Typeless => 70,
        DxgiFormat::BC1_UNorm => 71,
        DxgiFormat::BC1_UNorm_sRGB => 72,
        DxgiFormat::BC2_Typeless => 73,
        DxgiFormat::BC2_UNorm => 74,
        DxgiFormat::BC2_UNorm_sRGB => 75,
        DxgiFormat::BC3_Typeless => 76,
        DxgiFormat::BC3_UNorm => 77,
        DxgiFormat::BC3_UNorm_sRGB => 78,
        DxgiFormat::BC4_Typeless => 79,
        DxgiFormat::BC4_UNorm => 80,
        DxgiFormat::BC4_SNorm => 81,
        DxgiFormat::BC5_Typeless => 82,
        DxgiFormat::BC5_UNorm => 83,
        DxgiFormat::BC5_SNorm => 84,
        DxgiFormat::B8G8R8A8_UNorm => 87,
        DxgiFormat::B8G8R8A8_Typeless => 90,
        DxgiFormat::B8G8R8A8_UNorm_sRGB => 91,
        DxgiFormat::BC6H_Typeless => 94,
        DxgiFormat::BC6H_UF16 => 95,
        DxgiFormat::BC6H_SF16 => 96,
        DxgiFormat::BC7_Typeless => 97,
        DxgiFormat::BC7_UNorm => 98,
        DxgiFormat::BC7_UNorm_sRGB => 99,
        DxgiFormat::Other(n) => n,
    }
}

/// The DXGI format of a number.
pub fn dxgi_from_code(n: u32) -> (f: DxgiFormat)
    ensures
        f == dxgi_of_code(n),
{
    match n {
        27 => DxgiFormat::R8G8B8A8_Typeless,
        28 => DxgiFormat::R8G8B8A8_UNorm,
        29 => DxgiFormat::R8G8B8A8_UNorm_sRGB,
        30 => DxgiFormat::R8G8B8A8_UInt,
        70 => DxgiFormat::BC1_Typeless,
        71 => DxgiFormat::BC1_UNorm,
        72 => DxgiFormat::BC1_UNorm_sRGB,
        73 => DxgiFormat::BC2_Typeless,
        74 => DxgiFormat::BC2_UNorm,
        75 => DxgiFormat::BC2_UNorm_sRGB,
        76 => DxgiFormat::BC3_Typeless,
        77 => DxgiFormat::BC3_UNorm,
        78 => DxgiFormat::BC3_UNorm_sRGB,
        79 => DxgiFormat::BC4_Typeless,
        80 => DxgiFormat::BC4_UNorm,
        81 => DxgiFormat::BC4_SNorm,
        82 => DxgiFormat::BC5_Typeless,
        83 => DxgiFormat::BC5_UNorm,
        84 => DxgiFormat::BC5_SNorm,
        87 => DxgiFormat::B8G8R8A8_UNorm,
        90 => DxgiFormat::B8G8R8A8_Typeless,
        91 => DxgiFormat::B8G8R8A8_UNorm_sRGB,
        94 => DxgiFormat::BC6H_Typeless,
        95 => DxgiFormat::BC6H_UF16,
        96 => DxgiFormat::BC6H_SF16,
        97 => DxgiFormat::BC7_Typeless,
        98 => DxgiFormat::BC7_UNorm,
        99 => DxgiFormat::BC7_UNorm_sRGB,
        _ => DxgiFormat::Other(n),
    }
}

/// The FourCC of a Direct3D 9 format.
pub open spec fn fourcc(f: D3DFormat) -> u32 {
    match f {
        D3DFormat::DXT1 => 0x3154_5844,
        D3DFormat::DXT2 => 0x3254_5844,
        D3DFormat::DXT3 => 0x3354_5844,
        D3DFormat::DXT4 => 0x3454_5844,
        D3DFormat::DXT5 => 0x3554_5844,
        D3DFormat::Other(n) => n,
    }
}

/// The Direct3D 9 format of a FourCC.
pub open spec fn d3d_of_fourcc(n: u32) -> D3DFormat {
    if n == 0x3154_5844 {
        D3DFormat::DXT1
    } else if n == 0x3254_5844 {
        D3DFormat::DXT2
    } else if n == 0x3354_5844 {
        D3DFormat::DXT3
    } else if n == 0x3454_5844 {
        D3DFormat::DXT4
    } else if n == 0x3554_5844 {
        D3DFormat::DXT5
    } else {
        D3DFormat::Other(n)
    }
}

fn fourcc_of(f: D3DFormat) -> (n: u32)
    ensures
        n == fourcc(f),
{
    match f {
        D3DFormat::DXT1 => 0x3154_5844,
        D3DFormat::DXT2 => 0x3254_5844,
        D3DFormat::DXT3 => 0x3354_5844,
        D3DFormat::DXT4 => 0x3454_5844,
        D3DFormat::DXT5 => 0x3554_5844,
        D3DFormat::Other(n) => n,
    }
}

fn d3d_from_fourcc(n: u32) -> (f: D3DFormat)
    ensures
        f == d3d_of_fourcc(n),
{
    match n {
        0x3154_5844 => D3DFormat::DXT1,
        0x3254_5844 => D3DFormat::DXT2,
        0x3354_5844 => D3DFormat::DXT3,
        0x3454_5844 => D3DFormat::DXT4,
        0x3554_5844 => D3DFormat::DXT5,
        _ => D3DFormat::Other(n),
    }
}

/// Word `k` of a file.
pub open spec fn word(bytes: Seq<u8>, k: int) -> u32 {
    le32(bytes, 4 * k) as u32
}

/// Whether bit `b`, given by its value, is set.
pub open spec fn has_bit(v: u32, b: u32) -> bool {
    v as int / b as int % 2 == 1
}

/// The main header of a file.
pub open spec fn header_in(bytes: Seq<u8>) -> Header {
    Header {
        width: word(bytes, 4),
        height: word(bytes, 3),
        depth: if has_bit(word(bytes, 2), HAS_DEPTH) {
            Some(word(bytes, 6))
        } else {
            None
        },
        mip_map_count: if has_bit(word(bytes, 2), HAS_MIPS) {
            Some(word(bytes, 7))
        } else {
            None
        },
        cubemap: has_bit(word(bytes, 28), 0x200),
        d3d_format: if has_bit(word(bytes, 20), 4) && word(bytes, 21) != DX10 {
            Some(d3d_of_fourcc(word(bytes, 21)))
        } else {
            None
        },
    }
}

/// Whether a DX10 header follows the main one.
pub open spec fn has_header10(bytes: Seq<u8>) -> bool {
    has_bit(word(bytes, 20), 4) && word(bytes, 21) == DX10
}

/// The DX10 header of a file.
pub open spec fn header10_in(bytes: Seq<u8>) -> Option<Header10> {
    if has_header10(bytes) {
        Some(
            Header10 {
                dxgi_format: dxgi_of_code(word(bytes, 32)),
                array_size: word(bytes, 35),
                texture_cube: has_bit(word(bytes, 34), 4),
            },
        )
    } else {
        None
    }
}

/// The bytes before the payload.
pub open spec fn header_len(bytes: Seq<u8>) -> int {
    if has_header10(bytes) {
        148
    } else {
        128
    }
}

/// Whether the bytes are a container, and if not, why.
pub open spec fn container_outcome(bytes: Seq<u8>) -> Result<(), Error> {
    if bytes.len() < 128 {
        Err(Error::TruncatedData)
    } else if word(bytes, 0) != MAGIC {
        Err(Error::InvalidField("bad magic number"))
    } else if word(bytes, 1) != 124 {
        Err(Error::InvalidField("bad header size"))
    } else if word(bytes, 19) != 32 {
        Err(Error::InvalidField("bad pixel format size"))
    } else if bytes.len() < header_len(bytes) {
        Err(Error::TruncatedData)
    } else {
        Ok(())
    }
}

fn read_word(bytes: &[u8], k: usize) -> (v: u32)
    requires
        k < 0x100,
        4 * k + 4 <= bytes@.len(),
    ensures
        v == word(bytes@, k as int),
        v == le32(bytes@, 4 * k),
{
    read_le32(bytes[4 * k], bytes[4 * k + 1], bytes[4 * k + 2], bytes[4 * k + 3])
}

fn bit_set(v: u32, b: u32) -> (r: bool)
    requires
        b > 0,
    ensures
        r == has_bit(v, b),
{
    v / b % 2 == 1
}

impl<'a> DdsBase<&'a [u8]> {
    /// Reads a container without copying its payload.
    pub fn parse(bytes: &'a [u8]) -> (r: Result<DdsView<'a>, Error>)
        ensures
            r matches Ok(d) ==> container_outcome(bytes@) is Ok && d.header == header_in(bytes@) && d.header10
                == header10_in(bytes@) && d.data@ == bytes@.skip(header_len(bytes@)),
            r matches Err(e) ==> container_outcome(bytes@) == Err::<(), Error>(e),
    {
        let len: usize = bytes.len();
        if len < 128 {
            return Err(Error::TruncatedData);
        }
        if read_word(bytes, 0) != MAGIC {
            return Err(Error::InvalidField("bad magic number"));
        }
        if read_word(bytes, 1) != 124 {
            return Err(Error::InvalidField("bad header size"));
        }
        if read_word(bytes, 19) != 32 {
            return Err(Error::InvalidField("bad pixel format size"));
        }
        let flags: u32 = read_word(bytes, 2);
        let code: u32 = read_word(bytes, 21);
        let has_code: bool = bit_set(read_word(bytes, 20), 4);
        let header: Header = Header {
            width: read_word(bytes, 4),
            height: read_word(bytes, 3),
            depth: if bit_set(flags, HAS_DEPTH) {
                Some(read_word(bytes, 6))
            } else {
                None
            },
            mip_map_count: if bit_set(flags, HAS_MIPS) {
                Some(read_word(bytes, 7))
            } else {
                None
            },
            cubemap: bit_set(read_word(bytes, 28), 0x200),
            d3d_format: if has_code && code != DX10 {
                Some(d3d_from_fourcc(code))
            } else {
                None
            },
        };
        if !(has_code && code == DX10) {
            let data: &'a [u8] = vstd::slice::slice_subrange(bytes, 128, len);
            return Ok(DdsBase { header, header10: None, data });
        }
        if len < 148 {
            return Err(Error::TruncatedData);
        }
        let header10: Header10 = Header10 {
            dxgi_format: dxgi_from_code(read_word(bytes, 32)),
            array_size: read_word(bytes, 35),
            texture_cube: bit_set(read_word(bytes, 34), 4),
        };
        let data: &'a [u8] = vstd::slice::slice_subrange(bytes, 148, len);
        Ok(DdsBase { header, header10: Some(header10), data })
    }
}

impl DdsBase<Vec<u8>> {
    /// Reads a container, copying its payload.
    pub fn read(bytes: &[u8]) -> (r: Result<Dds, Error>)
        ensures
            r matches Ok(d) ==> container_outcome(bytes@) is Ok && d.header == header_in(bytes@) && d.header10
                == header10_in(bytes@) && d.data@ == bytes@.skip(header_len(bytes@)),
            r matches Err(e) ==> container_outcome(bytes@) == Err::<(), Error>(e),
    {
        match DdsBase::parse(bytes) {
            Ok(v) => Ok(
                DdsBase { header: v.header, header10: v.header10, data: vstd::slice::slice_to_vec(v.data) },
            ),
            Err(e) => Err(e),
        }
    }

    /// Word `k` of this container's file.
    pub open spec fn written_word(&self, k: int) -> u32 {
        if k == 0 {
            MAGIC
        } else if k == 1 {
            124
        } else if k == 2 {
            (ALWAYS + (if self.header.depth is Some {
                HAS_DEPTH as int
            } else {
                0
            }) + (if self.header.mip_map_count is Some {
                HAS_MIPS as int
            } else {
                0
            })) as u32
        } else if k == 3 {
            self.header.height
        } else if k == 4 {
            self.header.width
        } else if k == 6 {
            or_zero(self.header.depth)
        } else if k == 7 {
            or_zero(self.header.mip_map_count)
        } else if k == 19 {
            32
        } else if k == 20 {
            if self.header10 is Some || self.header.d3d_format is Some {
                4
            } else {
                0
            }
        } else if k == 21 {
            match (self.header10, self.header.d3d_format) {
                (Some(_), _) => DX10,
                (None, Some(f)) => fourcc(f),
                (None, None) => 0,
            }
        } else if k == 27 {
            if self.header.mip_map_count is Some || self.header.cubemap {
                (TEXTURE + COMPLEX) as u32
            } else {
                TEXTURE
            }
        } else if k == 28 {
            if self.header.cubemap {
                CUBEMAP
            } else if self.header.depth is Some {
                0x0020_0000
            } else {
                0
            }
        } else if k == 32 {
            dxgi_code(self.header10.unwrap().dxgi_format)
        } else if k == 33 {
            if self.header.depth is Some {
                4
            } else {
                3
            }
        } else if k == 34 {
            if self.header10.unwrap().texture_cube {
                4
            } else {
                0
            }
        } else if k == 35 {
            self.header10.unwrap().array_size
        } else {
            0
        }
    }

    /// The words before the payload.
    pub open spec fn header_words(&self) -> int {
        if self.header10 is Some {
            37
        } else {
            32
        }
    }

    /// This container's file.
    pub open spec fn file(&self) -> Seq<u8> {
        Seq::new(
            (4 * self.header_words()) as nat,
            |i: int| word_byte(self.written_word(i / 4), i % 4),
        ) + self.data@
    }

    fn word_of(&self, k: usize) -> (v: u32)
        requires
            k < self.header_words(),
        ensures
            v == self.written_word(k as int),
    {
        let deep: bool = self.header.depth.is_some();
        let mips: bool = self.header.mip_map_count.is_some();
        match k {
            0 => MAGIC,
            1 => 124,
            2 => {
                let mut flags: u32 = ALWAYS;
                if deep {
                    flags = flags + HAS_DEPTH;
                }
                if mips {
                    flags = flags + HAS_MIPS;
                }
                flags
            },
            3 => self.header.height,
            4 => self.header.width,
            6 => value_or_zero(self.header.depth),
            7 => value_or_zero(self.header.mip_map_count),
            19 => 32,
            20 => if self.header10.is_some() || self.header.d3d_format.is_some() {
                4
            } else {
                0
            },
            21 => match (self.header10, self.header.d3d_format) {
                (Some(_), _) => DX10,
                (None, Some(f)) => fourcc_of(f),
                (None, None) => 0,
            },
            27 => if mips || self.header.cubemap {
                TEXTURE + COMPLEX
            } else {
                TEXTURE
            },
            28 => if self.header.cubemap {
                CUBEMAP
            } else if deep {
                0x0020_0000
            } else {
                0
            },
            32 => match self.header10 {
                Some(h) => code_of_dxgi(h.dxgi_format),
                None => 0,
            },
            33 => if deep {
                4
            } else {
                3
            },
            34 => match self.header10 {
                Some(h) => if h.texture_cube {
                    4
                } else {
                    0
                },
                None => 0,
            },
            35 => match self.header10 {
                Some(h) => h.array_size,
                None => 0,
            },
            _ => 0,
        }
    }

    /// This container's file.
    pub fn write(&self) -> (bytes: Vec<u8>)
        ensures
            bytes@ == self.file(),
    {
        let n: usize = if self.header10.is_some() {
            37
        } else {
            32
        };
        let mut out: Vec<u8> = Vec::new();
        let mut k: usize = 0;
        while k < n
            invariant
                k <= n,
                n == self.header_words(),
                out@.len() == 4 * k,
                forall|i: int| 0 <= i < 4 * k ==> #[trigger] out@[i] == word_byte(self.written_word(i / 4), i % 4),
            decreases n - k,
        {
            let v: u32 = self.word_of(k);
            out.push((v % 256) as u8);
            out.push((v / 256 % 256) as u8);
            out.push((v / 65536 % 256) as u8);
            out.push((v / 16777216) as u8);
            k = k + 1;
        }
        let len: usize = self.data.len();
        let mut i: usize = 0;
        while i < len
            invariant
                i <= len,
                len == self.data@.len(),
                n == self.header_words(),
                out@.len() == 4 * n + i,
                forall|j: int| 0 <= j < 4 * n ==> #[trigger] out@[j] == word_byte(self.written_word(j / 4), j % 4),
                forall|j: int| 4 * n <= j < 4 * n + i ==> #[trigger] out@[j] == self.data@[j - 4 * n],
            decreases len - i,
        {
            out.push(self.data[i]);
            i = i + 1;
        }
        proof {
            assert(out@ =~= self.file());
        }
        out
    }

    /// Whether the headers can be told apart in a file: a DX10 format that is
    /// known by its number has no name, a FourCC that is known by its number
    /// neither has a name nor announces a DX10 header, and with a DX10 header
    /// there is no Direct3D 9 format.
    pub open spec fn writable(&self) -> bool {
        match self.header10 {
            Some(h) => self.header.d3d_format is None && dxgi_of_code(dxgi_code(h.dxgi_format)) == h.dxgi_format,
            None => self.header.d3d_format matches Some(f) ==> d3d_of_fourcc(fourcc(f)) == f && fourcc(f) != DX10,
        }
    }

    pub proof fn lemma_written_word(&self, k: int)
        requires
            0 <= k < self.header_words(),
        ensures
            word(self.file(), k) == self.written_word(k),
    {
        let v = self.written_word(k);
        let f = self.file();
        lemma_word_bytes(v);
        assert((4 * k) / 4 == k && (4 * k) % 4 == 0);
        assert((4 * k + 1) / 4 == k && (4 * k + 1) % 4 == 1);
        assert((4 * k + 2) / 4 == k && (4 * k + 2) % 4 == 2);
        assert((4 * k + 3) / 4 == k && (4 * k + 3) % 4 == 3);
        assert(f[4 * k] == word_byte(v, 0));
        assert(f[4 * k + 1] == word_byte(v, 1));
        assert(f[4 * k + 2] == word_byte(v, 2));
        assert(f[4 * k + 3] == word_byte(v, 3));
    }

    /// A file gives back the container that was written.
    #[verifier::rlimit(40)]
    pub proof fn law_write_then_read(&self)
        requires
            self.writable(),
        ensures
            container_outcome(self.file()) is Ok,
            header_in(self.file()) == self.header,
            header10_in(self.file()) == self.header10,
            self.file().skip(header_len(self.file())) == self.data@,
    {
        let f = self.file();
        self.lemma_written_word(0);
        self.lemma_written_word(1);
        self.lemma_written_word(2);
        self.lemma_written_word(3);
        self.lemma_written_word(4);
        self.lemma_written_word(6);
        self.lemma_written_word(7);
        self.lemma_written_word(19);
        self.lemma_written_word(20);
        self.lemma_written_word(21);
        self.lemma_written_word(28);
        assert(has_header10(f) == (self.header10 is Some));
        if self.header10 is Some {
            self.lemma_written_word(32);
            self.lemma_written_word(34);
            self.lemma_written_word(35);
        }
        assert(f.skip(header_len(f)) =~= self.data@);
    }
}

/// A number, or zero.
pub open spec fn or_zero(v: Option<u32>) -> u32 {
    match v {
        Some(n) => n,
        None => 0,
    }
}

fn value_or_zero(v: Option<u32>) -> (n: u32)
    ensures
        n == or_zero(v),
{
    match v {
        Some(n) => n,
        None => 0,
    }
}

/// Byte `i` of a word, the lowest being byte 0.
pub open spec fn word_byte(v: u32, i: int) -> u8 {
    if i == 0 {
        (v % 256) as u8
    } else if i == 1 {
        (v / 256 % 256) as u8
    } else if i == 2 {
        (v / 65536 % 256) as u8
    } else {
        (v / 16777216) as u8
    }
}

proof fn lemma_word_bytes(v: u32)
    ensures
        word_byte(v, 0) + 256 * word_byte(v, 1) + 65536 * word_byte(v, 2) + 16777216 * word_byte(v, 3) == v,
{
    assert(v / 65536 == v / 256 / 256);
    assert(v / 16777216 == v / 65536 / 256);
}

/// The file with another DXGI format: its number in the DX10 header replaced,
/// and nothing else.
pub open spec fn retagged(bytes: Seq<u8>, f: DxgiFormat) -> Seq<u8> {
    Seq::new(
        bytes.len(),
        |i: int|
            if 128 <= i < 132 {
                word_byte(dxgi_code(f), i - 128)
            } else {
                bytes[i]
            },
    )
}

/// Whether a file's format can be replaced, and if not, why.
pub open spec fn retag_outcome(bytes: Seq<u8>) -> Result<(), Error> {
    match container_outcome(bytes) {
        Err(e) => Err(e),
        Ok(_) => if has_header10(bytes) {
            Ok(())
        } else {
            Err(Error::InvalidField("DX10 header required for retag"))
        },
    }
}

/// Replaces the DXGI format of a file that has a DX10 header.
pub fn retag(bytes: &mut Vec<u8>, f: DxgiFormat) -> (r: Result<(), Error>)
    ensures
        r == retag_outcome(old(bytes)@),
        r is Ok ==> final(bytes)@ == retagged(old(bytes)@, f),
        r is Err ==> final(bytes)@ == old(bytes)@,
{
    match DdsBase::parse(bytes.as_slice()) {
        Err(e) => {
            return Err(e);
        },
        Ok(d) => {
            if d.header10.is_none() {
                return Err(Error::InvalidField("DX10 header required for retag"));
            }
        },
    }
    let v: u32 = code_of_dxgi(f);
    bytes[128] = (v % 256) as u8;
    bytes[129] = (v / 256 % 256) as u8;
    bytes[130] = (v / 65536 % 256) as u8;
    bytes[131] = (v / 16777216) as u8;
    proof {
        assert(bytes@ =~= retagged(old(bytes)@, f));
    }
    Ok(())
}

/// A retagged file is the same container with the other format.
pub proof fn law_retag_changes_the_format_alone(bytes: Seq<u8>, f: DxgiFormat)
    requires
        retag_outcome(bytes) is Ok,
        !(f is Other),
    ensures
        container_outcome(retagged(bytes, f)) is Ok,
        header_in(retagged(bytes, f)) == header_in(bytes),
        header10_in(retagged(bytes, f)) == Some(Header10 { dxgi_format: f, ..header10_in(bytes).unwrap() }),
        retagged(bytes, f).skip(148) == bytes.skip(148),
{
    let t = retagged(bytes, f);
    assert forall|k: int| 0 <= k < 37 && k != 32 implies #[trigger] word(t, k) == word(bytes, k) by {}
    lemma_word_bytes(dxgi_code(f));
    assert(word(t, 32) == dxgi_code(f));
    law_dxgi_codes_round_trip(f, 0);
    assert(t.skip(148) =~= bytes.skip(148));
}

} // verus!
