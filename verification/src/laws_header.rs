//! Where each field of a file lies, byte by byte.

use vstd::prelude::*;

use crate::dds::{DdsBase, Payload};
use crate::error::Error;
use crate::format::{D3DFormat, DxgiFormat};
use crate::header::{container_outcome, dxgi_code, dxgi_of_code, has_header10, header10_in, header_in, header_len, retag_outcome, retagged};

verus! {

/// The four bytes from `i` on, the lowest first.
pub open spec fn number_at(bytes: Seq<u8>, i: int) -> int {
    bytes[i] + 0x100 * bytes[i + 1] + 0x1_0000 * bytes[i + 2] + 0x100_0000 * bytes[i + 3]
}

/// The four bytes from `i` on are these.
pub open spec fn four_at(bytes: Seq<u8>, i: int, a: int, b: int, c: int, d: int) -> bool {
    bytes[i] == a && bytes[i + 1] == b && bytes[i + 2] == c && bytes[i + 3] == d
}

/// Bit `n` of a byte.
pub open spec fn byte_bit(b: u8, n: int) -> bool {
    (if n == 1 {
        b as int / 2
    } else if n == 2 {
        b as int / 4
    } else {
        b as int / 128
    }) % 2 == 1
}

/// The pixel format announces a DX10 header: it has a code, which is `DX10`.
pub open spec fn announces_dx10(bytes: Seq<u8>) -> bool {
    byte_bit(bytes[80], 2) && four_at(bytes, 84, 68, 88, 49, 48)
}

/// The pixel format has the code `DXT` and a digit.
pub open spec fn says_dxt(bytes: Seq<u8>, n: int) -> bool {
    byte_bit(bytes[80], 2) && four_at(bytes, 84, 68, 88, 84, 48 + n)
}

proof fn lemma_bits(bytes: Seq<u8>, i: int)
    requires
        0 <= i,
        i + 4 <= bytes.len(),
    ensures
        ({
            let v = number_at(bytes, i);
            &&& v / 0x200 % 2 == bytes[i + 1] as int / 2 % 2
            &&& v / 4 % 2 == bytes[i] as int / 4 % 2
            &&& v / 0x2_0000 % 2 == bytes[i + 2] as int / 2 % 2
            &&& v / 0x80_0000 % 2 == bytes[i + 2] as int / 128 % 2
            &&& 0 <= v <= u32::MAX
        }),
{
    let (a, b, c, d) = (bytes[i] as int, bytes[i + 1] as int, bytes[i + 2] as int, bytes[i + 3] as int);
    let v = number_at(bytes, i);
    assert(v / 4 == a / 4 + 0x40 * b + 0x4000 * c + 0x40_0000 * d);
    assert(v / 0x100 == b + 0x100 * c + 0x1_0000 * d);
    assert(v / 0x200 == b / 2 + 0x80 * c + 0x8000 * d);
    assert(v / 0x1_0000 == c + 0x100 * d);
    assert(v / 0x2_0000 == c / 2 + 0x80 * d);
    assert(v / 0x80_0000 == c / 128 + 2 * d);
}

#[verifier::rlimit(40)]
proof fn lemma_same_number(bytes: Seq<u8>, i: int, a: int, b: int, c: int, d: int)
    requires
        0 <= i,
        i + 4 <= bytes.len(),
        0 <= a < 256,
        0 <= b < 256,
        0 <= c < 256,
        0 <= d < 256,
    ensures
        four_at(bytes, i, a, b, c, d) <==> number_at(bytes, i) == a + 0x100 * b + 0x1_0000 * c + 0x100_0000 * d,
{
    let v = number_at(bytes, i);
    let w = a + 0x100 * b + 0x1_0000 * c + 0x100_0000 * d;
    if v == w {
        assert(v % 0x100 == bytes[i] && w % 0x100 == a);
        assert(v / 0x100 % 0x100 == bytes[i + 1] && w / 0x100 % 0x100 == b);
        assert(v / 0x1_0000 % 0x100 == bytes[i + 2] && w / 0x1_0000 % 0x100 == c);
        assert(v / 0x100_0000 == bytes[i + 3] && w / 0x100_0000 == d);
    }
}

/// What is a container: `DDS ` and the two sizes in their places, and the bytes of
/// its headers.
pub proof fn law_container_by_bytes(bytes: Seq<u8>)
    ensures
        container_outcome(bytes) is Ok <==> bytes.len() >= 128 && four_at(bytes, 0, 68, 68, 83, 32) && four_at(
            bytes,
            4,
            124,
            0,
            0,
            0,
        ) && four_at(bytes, 76, 32, 0, 0, 0) && (announces_dx10(bytes) ==> bytes.len() >= 148),
        bytes.len() < 128 ==> container_outcome(bytes) == Err::<(), Error>(Error::TruncatedData),
        container_outcome(bytes) == Err::<(), Error>(Error::TruncatedData) ==> bytes.len() < 148,
        bytes.len() >= 128 && !four_at(bytes, 0, 68, 68, 83, 32) ==> container_outcome(bytes) == Err::<(), Error>(
            Error::InvalidField("bad magic number"),
        ),
        bytes.len() >= 128 && four_at(bytes, 0, 68, 68, 83, 32) && !four_at(bytes, 4, 124, 0, 0, 0) ==> container_outcome(
            bytes,
        ) == Err::<(), Error>(Error::InvalidField("bad header size")),
        bytes.len() >= 128 && four_at(bytes, 0, 68, 68, 83, 32) && four_at(bytes, 4, 124, 0, 0, 0) && !four_at(
            bytes,
            76,
            32,
            0,
            0,
            0,
        ) ==> container_outcome(bytes) == Err::<(), Error>(Error::InvalidField("bad pixel format size")),
{
    if bytes.len() >= 128 {
        lemma_same_number(bytes, 0, 68, 68, 83, 32);
        lemma_same_number(bytes, 4, 124, 0, 0, 0);
        lemma_same_number(bytes, 76, 32, 0, 0, 0);
        lemma_same_number(bytes, 84, 68, 88, 49, 48);
        lemma_bits(bytes, 80);
        lemma_bits(bytes, 0);
        lemma_bits(bytes, 4);
        lemma_bits(bytes, 76);
        lemma_bits(bytes, 84);
    }
}

/// Where the main header's fields lie: the height at byte 12, the width at 16, the
/// depth at 24 and the mip levels at 28 where the flags at 8 announce them, the
/// pixel format's code at 84 where its flags at 80 announce it, and the cubemap
/// flag at 112.
pub proof fn law_header_by_bytes(bytes: Seq<u8>)
    requires
        bytes.len() >= 128,
    ensures
        ({
            let h = header_in(bytes);
            &&& h.height == number_at(bytes, 12)
            &&& h.width == number_at(bytes, 16)
            &&& h.depth is Some <==> byte_bit(bytes[10], 7)
            &&& h.depth matches Some(d) ==> d == number_at(bytes, 24)
            &&& h.mip_map_count is Some <==> byte_bit(bytes[10], 1)
            &&& h.mip_map_count matches Some(m) ==> m == number_at(bytes, 28)
            &&& h.cubemap <==> byte_bit(bytes[113], 1)
            &&& h.d3d_format is Some <==> byte_bit(bytes[80], 2) && !announces_dx10(bytes)
            &&& h.d3d_format == Some(D3DFormat::DXT1) <==> says_dxt(bytes, 1)
            &&& h.d3d_format == Some(D3DFormat::DXT2) <==> says_dxt(bytes, 2)
            &&& h.d3d_format == Some(D3DFormat::DXT3) <==> says_dxt(bytes, 3)
            &&& h.d3d_format == Some(D3DFormat::DXT4) <==> says_dxt(bytes, 4)
            &&& h.d3d_format == Some(D3DFormat::DXT5) <==> says_dxt(bytes, 5)
        }),
{
    lemma_bits(bytes, 8);
    lemma_bits(bytes, 12);
    lemma_bits(bytes, 16);
    lemma_bits(bytes, 24);
    lemma_bits(bytes, 28);
    lemma_bits(bytes, 80);
    lemma_bits(bytes, 84);
    lemma_bits(bytes, 112);
    lemma_same_number(bytes, 84, 68, 88, 49, 48);
    lemma_same_number(bytes, 84, 68, 88, 84, 49);
    lemma_same_number(bytes, 84, 68, 88, 84, 50);
    lemma_same_number(bytes, 84, 68, 88, 84, 51);
    lemma_same_number(bytes, 84, 68, 88, 84, 52);
    lemma_same_number(bytes, 84, 68, 88, 84, 53);
}

/// Where the DX10 header's fields lie: the format's number at byte 128, the cubemap
/// flag at 136, the array size at 140; the payload follows at 148, or without that
/// header at 128.
pub proof fn law_header10_by_bytes(bytes: Seq<u8>)
    requires
        container_outcome(bytes) is Ok,
    ensures
        header10_in(bytes) is Some <==> announces_dx10(bytes),
        header_len(bytes) == (if announces_dx10(bytes) {
            148int
        } else {
            128
        }),
        header10_in(bytes) matches Some(h) ==> {
            &&& dxgi_code(h.dxgi_format) == number_at(bytes, 128)
            &&& h.texture_cube <==> byte_bit(bytes[136], 2)
            &&& h.array_size == number_at(bytes, 140)
        },
{
    lemma_bits(bytes, 80);
    lemma_bits(bytes, 84);
    lemma_same_number(bytes, 84, 68, 88, 49, 48);
    if has_header10(bytes) {
        lemma_bits(bytes, 128);
        lemma_bits(bytes, 136);
        lemma_bits(bytes, 140);
        crate::header::law_dxgi_codes_round_trip(DxgiFormat::BC1_UNorm, number_at(bytes, 128) as u32);
    }
}

impl<D: Payload> DdsBase<D> {
    /// What the numbers of DXGI formats name: from 70 on, by threes, the block
    /// compressions, each first typeless, then unsigned, then sRGB or signed.
    pub proof fn law_numbers_name_the_formats(&self, n: u32)
        requires
            self.header10 is Some,
            self.header10.unwrap().dxgi_format == dxgi_of_code(n),
        ensures
            self.names_bc1() <==> 70 <= n <= 72,
            self.names_bc2() <==> 73 <= n <= 75,
            self.names_bc3() <==> 76 <= n <= 78,
            self.names_bc4(false) <==> 79 <= n <= 80,
            self.names_bc4(true) <==> n == 81,
            self.names_bc5(false) <==> 82 <= n <= 83,
            self.names_bc5(true) <==> n == 84,
            self.names_bc6h(false) <==> 94 <= n <= 95,
            self.names_bc6h(true) <==> n == 96,
            self.names_bc7() <==> 97 <= n <= 99,
            self.names_rgba8() <==> 27 <= n <= 30,
            self.names_bgra8() <==> n == 87 || 90 <= n <= 91,
            self.names_srgb() <==> n == 29 || n == 72 || n == 75 || n == 78 || n == 91 || n == 99,
    {
    }
}

/// The numbers of a family's formats follow on each other.
pub proof fn law_families_are_numbered_in_a_row(f: DxgiFormat, n: u32)
    ensures
        f == DxgiFormat::BC1_UNorm ==> dxgi_code(f) == 71,
        f == DxgiFormat::R8G8B8A8_UNorm ==> dxgi_code(f) == 28,
        f == DxgiFormat::R8G8B8A8_UInt ==> dxgi_code(f) == 30,
        f == DxgiFormat::B8G8R8A8_UNorm ==> dxgi_code(f) == 87,
        f == DxgiFormat::B8G8R8A8_Typeless ==> dxgi_code(f) == 90,
        dxgi_code(DxgiFormat::BC1_UNorm) - dxgi_code(DxgiFormat::BC1_Typeless) == 1,
        dxgi_code(DxgiFormat::BC1_UNorm_sRGB) - dxgi_code(DxgiFormat::BC1_UNorm) == 1,
        dxgi_code(DxgiFormat::BC2_UNorm) - dxgi_code(DxgiFormat::BC2_Typeless) == 1,
        dxgi_code(DxgiFormat::BC2_UNorm_sRGB) - dxgi_code(DxgiFormat::BC2_UNorm) == 1,
        dxgi_code(DxgiFormat::BC3_UNorm) - dxgi_code(DxgiFormat::BC3_Typeless) == 1,
        dxgi_code(DxgiFormat::BC3_UNorm_sRGB) - dxgi_code(DxgiFormat::BC3_UNorm) == 1,
        dxgi_code(DxgiFormat::BC4_UNorm) - dxgi_code(DxgiFormat::BC4_Typeless) == 1,
        dxgi_code(DxgiFormat::BC4_SNorm) - dxgi_code(DxgiFormat::BC4_UNorm) == 1,
        dxgi_code(DxgiFormat::BC5_UNorm) - dxgi_code(DxgiFormat::BC5_Typeless) == 1,
        dxgi_code(DxgiFormat::BC5_SNorm) - dxgi_code(DxgiFormat::BC5_UNorm) == 1,
        dxgi_code(DxgiFormat::BC6H_UF16) - dxgi_code(DxgiFormat::BC6H_Typeless) == 1,
        dxgi_code(DxgiFormat::BC6H_SF16) - dxgi_code(DxgiFormat::BC6H_UF16) == 1,
        dxgi_code(DxgiFormat::BC7_UNorm) - dxgi_code(DxgiFormat::BC7_Typeless) == 1,
        dxgi_code(DxgiFormat::BC7_UNorm_sRGB) - dxgi_code(DxgiFormat::BC7_UNorm) == 1,
        dxgi_code(DxgiFormat::R8G8B8A8_UNorm) - dxgi_code(DxgiFormat::R8G8B8A8_Typeless) == 1,
        dxgi_code(DxgiFormat::R8G8B8A8_UNorm_sRGB) - dxgi_code(DxgiFormat::R8G8B8A8_UNorm) == 1,
        dxgi_code(DxgiFormat::B8G8R8A8_UNorm_sRGB) - dxgi_code(DxgiFormat::B8G8R8A8_Typeless) == 1,
        dxgi_code(DxgiFormat::BC2_UNorm) - dxgi_code(DxgiFormat::BC1_UNorm) == 3,
        dxgi_code(DxgiFormat::BC3_UNorm) - dxgi_code(DxgiFormat::BC2_UNorm) == 3,
        dxgi_code(DxgiFormat::BC4_UNorm) - dxgi_code(DxgiFormat::BC3_UNorm) == 3,
        dxgi_code(DxgiFormat::BC5_UNorm) - dxgi_code(DxgiFormat::BC4_UNorm) == 3,
        dxgi_code(DxgiFormat::BC7_UNorm) - dxgi_code(DxgiFormat::BC6H_UF16) == 3,
        dxgi_code(DxgiFormat::BC7_UNorm) - dxgi_code(DxgiFormat::BC1_UNorm) == 27,
        dxgi_code(DxgiFormat::Other(n)) == n,
{
}

/// A retagged file has the format's number in bytes 128 to 131 and every other
/// byte as it was.
pub proof fn law_retag_by_bytes(bytes: Seq<u8>, f: DxgiFormat)
    requires
        retag_outcome(bytes) is Ok,
    ensures
        retagged(bytes, f).len() == bytes.len(),
        number_at(retagged(bytes, f), 128) == dxgi_code(f),
        forall|i: int| 0 <= i < bytes.len() && !(128 <= i < 132) ==> #[trigger] retagged(bytes, f)[i] == bytes[i],
        announces_dx10(bytes),
{
    law_header10_by_bytes(bytes);
    let v = dxgi_code(f) as int;
    assert(v / 65536 == v / 256 / 256);
    assert(v / 16777216 == v / 65536 / 256);
}

impl DdsBase<Vec<u8>> {
    /// What a written file holds besides what a reader takes from it: the flags of
    /// the fields that are there, that it is a texture, and of which kind.
    pub proof fn law_written_flags(&self)
        ensures
            ({
                let f = self.file();
                let h = self.header;
                &&& four_at(f, 0, 68, 68, 83, 32) && four_at(f, 4, 124, 0, 0, 0) && four_at(f, 76, 32, 0, 0, 0)
                &&& f[8] == 7 && f[9] == 16 && f[11] == 0
                &&& f[10] == (if h.depth is Some {
                    128int
                } else {
                    0
                }) + (if h.mip_map_count is Some {
                    2int
                } else {
                    0
                })
                &&& number_at(f, 108) == (if h.mip_map_count is Some || h.cubemap {
                    0x40_1008int
                } else {
                    0x1000
                })
                &&& number_at(f, 112) == (if h.cubemap {
                    0xFE00int
                } else if h.depth is Some {
                    0x20_0000
                } else {
                    0
                })
                &&& self.header10 is Some ==> number_at(f, 132) == (if h.depth is Some {
                    4int
                } else {
                    3
                })
                &&& f.len() == self.data@.len() + (if self.header10 is Some {
                    148int
                } else {
                    128
                })
                &&& forall|i: int| 32 <= i < 76 || 88 <= i < 108 || 116 <= i < 128 ==> #[trigger] f[i] == 0
            }),
    {
        let f = self.file();
        let words = Seq::new((4 * self.header_words()) as nat, |i: int| crate::header::word_byte(self.written_word(i / 4), i % 4));
        assert forall|i: int| 32 <= i < 76 || 88 <= i < 108 || 116 <= i < 128 implies #[trigger] f[i] == 0 by {
            assert(f[i] == words[i]);
            assert(self.written_word(i / 4) == 0);
        }
        self.lemma_written_word(0);
        self.lemma_written_word(1);
        self.lemma_written_word(2);
        self.lemma_written_word(19);
        self.lemma_written_word(27);
        self.lemma_written_word(28);
        if self.header10 is Some {
            self.lemma_written_word(33);
            lemma_bits(f, 132);
        }
        lemma_bits(f, 0);
        lemma_bits(f, 4);
        lemma_bits(f, 8);
        lemma_bits(f, 76);
        lemma_bits(f, 108);
        lemma_bits(f, 112);
        lemma_same_number(f, 0, 68, 68, 83, 32);
        lemma_same_number(f, 4, 124, 0, 0, 0);
        lemma_same_number(f, 76, 32, 0, 0, 0);
        lemma_same_number(f, 8, 7, 16, 0, 0);
        lemma_same_number(f, 8, 7, 16, 2, 0);
        lemma_same_number(f, 8, 7, 16, 128, 0);
        lemma_same_number(f, 8, 7, 16, 130, 0);
    }
}

} // verus!
