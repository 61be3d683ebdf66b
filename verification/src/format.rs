//! Texture formats.

use vstd::prelude::*;

verus! {

/// DXGI formats that the library handles; any other is known by its code.
#[allow(non_camel_case_types)]
#[derive(Debug, Clone, Copy, PartialEq, Eq, Hash, Structural)]
pub enum DxgiFormat {
    R8G8B8A8_Typeless,
    R8G8B8A8_UNorm,
    R8G8B8A8_UNorm_sRGB,
    R8G8B8A8_UInt,
    BC1_Typeless,
    BC1_UNorm,
    BC1_UNorm_sRGB,
    BC2_Typeless,
    BC2_UNorm,
    BC2_UNorm_sRGB,
    BC3_Typeless,
    BC3_UNorm,
    BC3_UNorm_sRGB,
    BC4_Typeless,
    BC4_UNorm,
    BC4_SNorm,
    BC5_Typeless,
    BC5_UNorm,
    BC5_SNorm,
    B8G8R8A8_UNorm,
    B8G8R8A8_Typeless,
    B8G8R8A8_UNorm_sRGB,
    BC6H_Typeless,
    BC6H_UF16,
    BC6H_SF16,
    BC7_Typeless,
    BC7_UNorm,
    BC7_UNorm_sRGB,
    Other(u32),
}

/// Direct3D 9 FourCC formats that the library handles; any other is known by
/// its code.
#[derive(Debug, Clone, Copy, PartialEq, Eq, Hash, Structural)]
pub enum D3DFormat {
    DXT1,
    DXT2,
    DXT3,
    DXT4,
    DXT5,
    Other(u32),
}

} // verus!
