use rusty_dds::content::{DecodeContent, ImageRgba8};
use rusty_dds::dds::{Dds, DdsView, Header, Header10, NewDxgiParams};
use rusty_dds::decode::bc6h::decode_bc6h;
use rusty_dds::encode::bc6h::{encode_block_uf16, f32_to_half_uf16, half_from_interp, try_pair, unquantize10};
use rusty_dds::encode::blocks::EncodeQuality;
use rusty_dds::encode::{EncodeLayout, Rdo};
use rusty_dds::error::Error;
use rusty_dds::format::{D3DFormat, DxgiFormat};
use rusty_dds::header::{code_of_dxgi, dxgi_from_code, retag};
use rusty_dds::surface::{CubemapFace, SubresourceId};
use rusty_dds::upload::UploadPath;

fn noise(n: usize, seed: u64) -> Vec<u8> {
    let mut state = seed | 1;
    let mut out = Vec::with_capacity(n);
    for _ in 0..n {
        state ^= state << 13;
        state ^= state >> 7;
        state ^= state << 17;
        out.push((state >> 16) as u8);
    }
    out
}

fn gradient(w: u32, h: u32) -> Vec<u8> {
    let mut out = Vec::new();
    for y in 0..h {
        for x in 0..w {
            out.extend_from_slice(&[
                (x * 255 / w) as u8,
                (y * 255 / h) as u8,
                ((x + y) * 255 / (w + h)) as u8,
                (255 - x * 128 / w) as u8,
            ]);
        }
    }
    out
}

fn params(format: DxgiFormat, w: u32, h: u32) -> NewDxgiParams {
    NewDxgiParams {
        height: h,
        width: w,
        depth: None,
        format,
        mipmap_levels: None,
        array_layers: None,
        is_cubemap: false,
    }
}

const FIRST: SubresourceId = SubresourceId { mip: 0, layer: 0, face: 0 };

#[test]
fn names_and_kinds() {
    for k in DecodeContent::ALL_LDR {
        assert_eq!(DecodeContent::from_name(k.name()), Some(k));
        assert_eq!(DecodeContent::from_name(&k.name().to_uppercase()), Some(k));
    }
    assert_eq!(DecodeContent::from_name("bc6"), None);
    assert_eq!(DecodeContent::from_name(""), None);
    assert_eq!(DecodeContent::Bc1.block_bytes(), Some(8));
    assert_eq!(DecodeContent::Bc7.block_bytes(), Some(16));
    assert_eq!(DecodeContent::Rgba8.block_bytes(), None);
}

#[test]
fn faces_by_number() {
    for (i, f) in CubemapFace::ALL.iter().enumerate() {
        assert_eq!(f.index(), i as u32);
        assert_eq!(CubemapFace::from_index(i as u32), Ok(*f));
    }
    assert_eq!(CubemapFace::from_index(6), Err(Error::OutOfBounds));
    assert_eq!(
        SubresourceId::cubemap(1, 2, CubemapFace::NegativeY),
        SubresourceId::new(1, 2, 3)
    );
    assert_eq!(SubresourceId::mip_layer(4, 5), SubresourceId::new(4, 5, 0));
}

#[test]
fn pixels_of_an_image() {
    let img = ImageRgba8 { width: 2, height: 2, depth: 2, pixels: (0..32).collect() };
    assert_eq!(img.pixel(1, 1), Some([12, 13, 14, 15]));
    assert_eq!(img.pixel3(0, 1, 1), Some([24, 25, 26, 27]));
    assert_eq!(img.pixel(2, 0), None);
    assert_eq!(img.pixel3(0, 0, 2), None);
}

/// Offsets and sizes of a chain: each level a quarter of the one before, but
/// at least one block.
#[test]
fn subresource_ranges_tile_the_payload() {
    let mut p = params(DxgiFormat::BC1_UNorm, 16, 16);
    p.mipmap_levels = Some(5);
    p.array_layers = Some(2);
    let dds = Dds::new_dxgi(p).unwrap();
    assert_eq!(dds.get_main_texture_size(), Some(128));
    assert_eq!(dds.get_array_stride(), Ok(128 + 32 + 8 + 8 + 8));
    assert_eq!(dds.data.len(), 2 * 184);
    let mut at = 0;
    for layer in 0..2 {
        for mip in 0..5 {
            let r = dds.subresource_range(SubresourceId::mip_layer(mip, layer)).unwrap();
            assert_eq!(r.start, at);
            at = r.end;
        }
    }
    assert_eq!(at, dds.data.len());
    assert_eq!(dds.mip_dimensions(3), Ok((2, 2, 1)));
    assert_eq!(dds.mip_dimensions(4), Ok((1, 1, 1)));
    assert_eq!(dds.mip_dimensions(5), Err(Error::OutOfBounds));
    assert_eq!(dds.subresource_range(SubresourceId::mip_layer(5, 0)), Err(Error::OutOfBounds));
    assert_eq!(dds.subresource_range(SubresourceId::mip_layer(0, 2)), Err(Error::OutOfBounds));
    assert_eq!(dds.subresource_range(SubresourceId::new(0, 0, 1)), Err(Error::OutOfBounds));
}

#[test]
fn cubemaps_count_cubes_and_faces() {
    let mut p = params(DxgiFormat::R8G8B8A8_UNorm, 2, 2);
    p.is_cubemap = true;
    p.array_layers = Some(12);
    let dds = Dds::new_dxgi(p).unwrap();
    assert!(dds.is_cubemap());
    assert_eq!(dds.cube_count(), 2);
    assert_eq!(dds.subresource_layer_count(), 2);
    assert_eq!(dds.subresource_face_count(), 6);
    assert_eq!(dds.physical_slice_count(), 12);
    let id = SubresourceId::cubemap(0, 1, CubemapFace::NegativeX);
    assert_eq!(dds.subresource_range(id), Ok(7 * 16..8 * 16));
    let flat = Dds::new_dxgi(params(DxgiFormat::R8G8B8A8_UNorm, 2, 2)).unwrap();
    assert_eq!(flat.cube_count(), 0);
    assert_eq!(flat.physical_slice_count(), 1);
}

#[test]
fn short_payloads_and_unknown_formats_are_refused() {
    let mut dds = Dds::new_dxgi(params(DxgiFormat::BC7_UNorm, 8, 8)).unwrap();
    dds.data.truncate(63);
    assert_eq!(dds.subresource_range(FIRST), Err(Error::TruncatedData));
    assert_eq!(dds.decode_rgba8(FIRST).unwrap_err(), Error::TruncatedData);
    assert_eq!(
        Dds::new_dxgi(params(DxgiFormat::Other(1), 8, 8)).unwrap_err(),
        Error::UnsupportedFormat
    );
    let mut p = params(DxgiFormat::R8G8B8A8_UNorm, 0x8000, 0x4000);
    p.array_layers = Some(4);
    assert_eq!(Dds::new_dxgi(p).unwrap_err(), Error::OutOfBounds);
}

#[test]
fn surface_mut_writes_one_subresource() {
    let mut p = params(DxgiFormat::R8G8B8A8_UNorm, 2, 1);
    p.array_layers = Some(3);
    let mut dds = Dds::new_dxgi(p).unwrap();
    {
        let v = dds.surface_mut(SubresourceId::mip_layer(0, 1)).unwrap();
        assert_eq!((v.width, v.height, v.depth), (2, 1, 1));
        v.data.copy_from_slice(&[1, 2, 3, 4, 5, 6, 7, 8]);
    }
    assert_eq!(&dds.data[..8], &[0; 8]);
    assert_eq!(&dds.data[8..16], &[1, 2, 3, 4, 5, 6, 7, 8]);
    assert_eq!(&dds.data[16..], &[0; 8]);
    assert_eq!(dds.surface(SubresourceId::mip_layer(0, 1)).unwrap().data, &[1, 2, 3, 4, 5, 6, 7, 8]);
    assert!(dds.surface_mut(SubresourceId::mip_layer(0, 3)).is_err());
}

#[test]
fn legacy_headers_name_their_content() {
    let dds = Dds {
        header: Header {
            width: 4,
            height: 4,
            depth: None,
            mip_map_count: None,
            cubemap: true,
            d3d_format: Some(D3DFormat::DXT5),
        },
        header10: None,
        data: vec![0; 6 * 16],
    };
    assert_eq!(dds.decode_content(), Ok(DecodeContent::Bc3));
    assert_eq!(dds.gpu_format().unwrap().wgpu_name, "Bc3RgbaUnorm");
    assert!(dds.is_cubemap());
    assert_eq!(dds.subresource_range(SubresourceId::new(0, 0, 5)), Ok(80..96));
    assert_eq!(dds.hdr_decode_content(), Err(Error::UnsupportedFormat));
}

/// What is encoded as RGBA8 or BGRA8 comes back bit for bit: arrays, cubes,
/// volumes, mips.
#[test]
fn uncompressed_content_round_trips() {
    for kind in [DecodeContent::Rgba8, DecodeContent::Bgra8] {
        let px = noise(8 * 8 * 4 * 6, 7);
        let layout = EncodeLayout::flat_2d(kind, 8, 8).cubemap().with_mips(4);
        let dds = Dds::encode_from_rgba8(&px, layout).unwrap();
        for face in 0..6u32 {
            let img = dds.decode_rgba8(SubresourceId::new(0, 0, face)).unwrap();
            let n = 8 * 8 * 4;
            assert_eq!(img.pixels, px[face as usize * n..(face as usize + 1) * n]);
            let small = dds.decode_rgba8(SubresourceId::new(1, 0, face)).unwrap();
            let want = rusty_dds::encode::mips::downsample_rgba8(&img.pixels, 8, 8, 1).unwrap();
            assert_eq!(small.pixels, want);
            let last = dds.decode_rgba8(SubresourceId::new(3, 0, face)).unwrap();
            assert_eq!((last.width, last.height), (1, 1));
        }
        let vol = noise(5 * 3 * 4 * 4, 9);
        let layout = EncodeLayout::flat_2d(kind, 5, 3).with_depth(4);
        let dds = Dds::encode_from_rgba8(&vol, layout).unwrap();
        let img = dds.decode_rgba8(FIRST).unwrap();
        assert_eq!((img.width, img.height, img.depth), (5, 3, 4));
        assert_eq!(img.pixels, vol);
        let mut again = Vec::new();
        assert_eq!(dds.decode_rgba8_into(FIRST, &mut again), Ok((5, 3, 4)));
        assert_eq!(again, vol);
    }
    // The two orders differ in the payload.
    let a = Dds::encode_from_rgba8(&[1, 2, 3, 4], EncodeLayout::flat_2d(DecodeContent::Rgba8, 1, 1)).unwrap();
    let b = Dds::encode_from_rgba8(&[1, 2, 3, 4], EncodeLayout::flat_2d(DecodeContent::Bgra8, 1, 1)).unwrap();
    assert_eq!(a.data, vec![1, 2, 3, 4]);
    assert_eq!(b.data, vec![3, 2, 1, 4]);
}

/// Every kind encodes and decodes, close to the source where it holds it.
#[test]
fn lossy_content_comes_back_close() {
    let (w, h) = (18u32, 13u32);
    let px = gradient(w, h);
    for kind in DecodeContent::ALL_LDR {
        for quality in [EncodeQuality::Quality, EncodeQuality::Fast] {
            let layout = EncodeLayout::flat_2d(kind, w, h).with_quality(quality);
            let dds = Dds::encode_from_rgba8(&px, layout).unwrap();
            assert_eq!(dds.decode_content(), Ok(kind));
            let img = dds.decode_rgba8(FIRST).unwrap();
            assert_eq!(img.pixels.len(), px.len());
            let (channels, limit): (&[usize], i32) = match kind {
                DecodeContent::Rgba8 | DecodeContent::Bgra8 => (&[0, 1, 2, 3], 0),
                DecodeContent::Bc4UNorm => (&[0], 4),
                DecodeContent::Bc5UNorm => (&[0, 1], 4),
                DecodeContent::Bc4SNorm | DecodeContent::Bc5SNorm => (&[], 0),
                DecodeContent::Bc7 => (&[0, 1, 2, 3], 24),
                DecodeContent::Bc3 => (&[0, 1, 2, 3], 40),
                _ => (&[0, 1, 2], 40),
            };
            for t in 0..(w * h) as usize {
                for &c in channels {
                    let d = img.pixels[4 * t + c] as i32 - px[4 * t + c] as i32;
                    assert!(d.abs() <= limit, "{} texel {t} channel {c}: {d}", kind.name());
                }
            }
        }
    }
}

/// The signed kinds store signed bytes.
#[test]
fn signed_channels_come_back_signed() {
    let px = gradient(8, 8);
    let dds = Dds::encode_from_rgba8(&px, EncodeLayout::flat_2d(DecodeContent::Bc5SNorm, 8, 8)).unwrap();
    let img = dds.decode_rgba8(FIRST).unwrap();
    for t in 0..64 {
        for c in 0..2 {
            let level = img.pixels[4 * t + c] as i8 as i32;
            let shown = ((level + 127) * 255 + 127) / 254;
            assert!((shown - px[4 * t + c] as i32).abs() <= 4, "texel {t}");
        }
        assert_eq!(img.pixels[4 * t + 2], 0);
        assert_eq!(img.pixels[4 * t + 3], 255);
    }
}

#[test]
fn layouts_that_make_no_sense_are_refused() {
    let px = vec![0u8; 4 * 4 * 4 * 12];
    let flat = EncodeLayout::flat_2d(DecodeContent::Bc1, 4, 4);
    let refused = |l: EncodeLayout| Dds::encode_from_rgba8(&px, l).unwrap_err();
    assert_eq!(
        refused(EncodeLayout::flat_2d(DecodeContent::Bc1, 0, 4)),
        Error::InvalidField("zero image dimension")
    );
    assert_eq!(
        refused(flat.with_rdo(Rdo::lambda(f32::NAN.to_bits()))),
        Error::InvalidField("rdo lambda must be finite and >= 0")
    );
    assert_eq!(
        refused(flat.with_rdo(Rdo::lambda((-1.0f32).to_bits()))),
        Error::InvalidField("rdo lambda must be finite and >= 0")
    );
    assert_eq!(
        refused(flat.with_array(7).cubemap()),
        Error::InvalidField("cubemap array_layers must be a multiple of 6")
    );
    assert_eq!(
        refused(flat.with_depth(2).cubemap()),
        Error::InvalidField("cubemap cannot be a volume")
    );
    assert_eq!(
        refused(flat.with_depth(2).with_array(2)),
        Error::InvalidField("volume textures cannot also be arrays")
    );
    let mut none = flat;
    none.mipmap_levels = 0;
    assert_eq!(refused(none), Error::InvalidField("zero mip/array count"));
    assert_eq!(
        Dds::encode_from_rgba8(&px[..63], flat).unwrap_err(),
        Error::TruncatedData
    );
    assert_eq!(flat.with_array(3).source_rgba8_len(), Ok(192));
    // A chain whose levels are not quarters of each other has no room for them.
    assert_eq!(
        Dds::encode_from_rgba8(&vec![0; 8 * 4], EncodeLayout::flat_2d(DecodeContent::Rgba8, 1, 8).with_mips(2)).unwrap_err(),
        Error::TruncatedData
    );
}

#[test]
fn decoding_by_rows_of_blocks_gives_the_whole() {
    for kind in [DecodeContent::Bc1, DecodeContent::Bc7, DecodeContent::Rgba8] {
        let px = gradient(20, 14);
        let dds = Dds::encode_from_rgba8(&px, EncodeLayout::flat_2d(kind, 20, 14)).unwrap();
        let whole = dds.decode_rgba8(FIRST).unwrap().pixels;
        let rows = dds.block_rows(FIRST).unwrap();
        let per = if kind == DecodeContent::Rgba8 { 1 } else { 4 };
        assert_eq!(rows, 14u32.div_ceil(per));
        let cut = rows / 2;
        let split = (cut * per * 20 * 4) as usize;
        let mut parts = vec![0u8; whole.len()];
        let (top, bottom) = parts.split_at_mut(split);
        dds.decode_block_rows_into(FIRST, 0..cut, top).unwrap();
        dds.decode_block_rows_into(FIRST, cut..rows, bottom).unwrap();
        assert_eq!(parts, whole);
        assert_eq!(
            dds.decode_block_rows_into(FIRST, 0..rows + 1, &mut parts),
            Err(Error::OutOfBounds)
        );
        assert_eq!(dds.decode_block_rows_into(FIRST, 0..rows, &mut parts[1..]), Err(Error::OutOfBounds));
        assert_eq!(dds.decode_block_rows_into(FIRST, 1..1, &mut []), Ok(()));
    }
}

#[test]
fn upload_plans() {
    let mut p = params(DxgiFormat::BC7_UNorm_sRGB, 10, 6);
    p.mipmap_levels = Some(2);
    let dds = Dds::new_dxgi(p).unwrap();
    let plan = dds.upload_plan_compressed(FIRST).unwrap();
    assert_eq!(plan.path, UploadPath::Compressed);
    assert_eq!(plan.format.vulkan_name, "VK_FORMAT_BC7_SRGB_BLOCK");
    assert_eq!(plan.format.wgpu_name, "Bc7RgbaUnormSrgb");
    assert_eq!(plan.format.dxgi_name, "BC7_UNorm_sRGB");
    assert_eq!((plan.bytes_per_row, plan.rows_per_image), (48, 2));
    assert_eq!((plan.data_offset, plan.data_len), (0, 96));
    let second = dds.upload_plan_compressed(SubresourceId::mip_layer(1, 0)).unwrap();
    assert_eq!((second.width, second.height), (5, 3));
    assert_eq!((second.data_offset, second.data_len), (96, 24));
    let decoded = dds.upload_plan_decoded_rgba8(FIRST).unwrap();
    assert_eq!(decoded.path, UploadPath::DecodedRgba8);
    assert_eq!((decoded.data_offset, decoded.data_len), (0, 240));
    assert_eq!((decoded.bytes_per_row, decoded.rows_per_image), (40, 6));
    assert_eq!(decoded.format.wgpu_name, "Rgba8Unorm");
    let hdr = Dds::new_dxgi(params(DxgiFormat::BC6H_UF16, 4, 4)).unwrap();
    assert_eq!(hdr.gpu_format().unwrap().wgpu_name, "Bc6hRgbUfloat");
    assert_eq!(hdr.upload_plan_decoded_rgba8(FIRST).unwrap_err(), Error::UnsupportedFormat);
}

#[test]
fn half_floats_round_trip() {
    let one = 1.0f32.to_bits();
    let mut px: Vec<u32> = Vec::new();
    for i in 0..64u32 {
        let v = i as f32 / 16.0;
        px.extend_from_slice(&[v.to_bits(), (v * 0.5).to_bits(), 0.25f32.to_bits(), one]);
    }
    let dds = Dds::encode_bc6h_uf16(&px, 8, 8).unwrap();
    assert_eq!(dds.data.len(), 64);
    assert!(dds.hdr_decode_content().is_ok());
    assert_eq!(dds.decode_rgba8(FIRST).unwrap_err(), Error::UnsupportedFormat);
    let img = dds.decode_rgba_f32(FIRST).unwrap();
    assert_eq!((img.width, img.height, img.depth), (8, 8, 1));
    for t in 0..64 {
        for c in 0..3 {
            let (got, want) = (f32::from_bits(img.pixels[4 * t + c]), f32::from_bits(px[4 * t + c]));
            assert!((got - want).abs() <= 0.1 + want * 0.4, "texel {t} channel {c}: {got} vs {want}");
        }
        assert_eq!(img.pixels[4 * t + 3], one);
    }
    assert_eq!(Dds::encode_bc6h_uf16(&px, 0, 8).unwrap_err(), Error::InvalidField("zero image dimension"));
    assert_eq!(Dds::encode_bc6h_uf16(&px, 9, 8).unwrap_err(), Error::TruncatedData);
    // A flat block is exact where its numbers are endpoints.
    let zero = vec![0u32; 64];
    let dark = Dds::encode_bc6h_uf16(&zero, 4, 4).unwrap().decode_rgba_f32(FIRST).unwrap();
    for t in 0..16 {
        assert_eq!(&dark.pixels[4 * t..4 * t + 4], &[0, 0, 0, one]);
    }
}

#[test]
fn halves_of_single_precision() {
    let h = |v: f32| f32_to_half_uf16(v.to_bits());
    assert_eq!(h(0.0), 0);
    assert_eq!(h(-1.0), 0);
    assert_eq!(h(f32::NAN), 0);
    assert_eq!(h(1.0), 0x3C00);
    assert_eq!(h(0.5), 0x3800);
    assert_eq!(h(65504.0), 0x7BFF);
    assert_eq!(h(1.0e9), 0x7BFF);
    assert_eq!(h(f32::INFINITY), 0x7BFF);
    assert_eq!(h(2f32.powi(-14)), 0x0400);
    assert_eq!(h(2f32.powi(-24)), 0x0001);
    assert_eq!(h(2f32.powi(-25)), 0x0000);
    assert_eq!(h(2f32.powi(-15)), 0x0200);
    // Halves round up in magnitude.
    assert_eq!(h(f32::from_bits(0x3F80_1000)), 0x3C01);
    assert_eq!(h(f32::from_bits(0x3F80_0FFF)), 0x3C00);
}

#[test]
fn files_round_trip() {
    let px = noise(6 * 16 * 4, 3);
    let layout = EncodeLayout::flat_2d(DecodeContent::Rgba8, 4, 4).cubemap().with_mips(2);
    let dds = Dds::encode_from_rgba8(&px, layout).unwrap();
    let file = dds.write();
    assert_eq!(&file[..4], b"DDS ");
    assert_eq!(file.len(), 148 + dds.data.len());
    let view = DdsView::parse(&file).unwrap();
    assert_eq!(view.header, dds.header);
    assert_eq!(view.header10, dds.header10);
    assert_eq!(view.data, &dds.data[..]);
    let owned = Dds::read(&file).unwrap();
    assert_eq!(owned.data, dds.data);
    assert_eq!(
        view.decode_rgba8(SubresourceId::new(0, 0, 2)).unwrap(),
        dds.decode_rgba8(SubresourceId::new(0, 0, 2)).unwrap()
    );
    assert_eq!(Dds::read(&file[..100]).unwrap_err(), Error::TruncatedData);
    assert_eq!(Dds::read(&file[..140]).unwrap_err(), Error::TruncatedData);
    let mut bad = file.clone();
    bad[0] = b'X';
    assert_eq!(Dds::read(&bad).unwrap_err(), Error::InvalidField("bad magic number"));
    bad = file.clone();
    bad[4] = 0;
    assert_eq!(Dds::read(&bad).unwrap_err(), Error::InvalidField("bad header size"));
    bad = file.clone();
    bad[76] = 0;
    assert_eq!(Dds::read(&bad).unwrap_err(), Error::InvalidField("bad pixel format size"));
}

#[test]
fn retag_changes_the_format_alone() {
    let dds = Dds::new_dxgi(params(DxgiFormat::BC7_UNorm, 8, 8)).unwrap();
    let before = dds.write();
    let mut file = before.clone();
    assert_eq!(retag(&mut file, DxgiFormat::BC7_UNorm_sRGB), Ok(()));
    assert_eq!(file.iter().zip(&before).filter(|(a, b)| a != b).count(), 1);
    assert_eq!(
        Dds::read(&file).unwrap().header10,
        Some(Header10 { dxgi_format: DxgiFormat::BC7_UNorm_sRGB, array_size: 1, texture_cube: false })
    );
    let legacy = Dds {
        header: Header {
            width: 4,
            height: 4,
            depth: None,
            mip_map_count: None,
            cubemap: false,
            d3d_format: Some(D3DFormat::DXT1),
        },
        header10: None,
        data: vec![0; 8],
    };
    let mut file = legacy.write();
    assert_eq!(
        retag(&mut file, DxgiFormat::BC1_UNorm),
        Err(Error::InvalidField("DX10 header required for retag"))
    );
    assert_eq!(Dds::read(&file).unwrap().header, legacy.header);
    for n in 0..200 {
        assert_eq!(code_of_dxgi(dxgi_from_code(n)), n);
    }
}

/// A strength of zero changes nothing; a strength above zero keeps what the
/// plain encoder already represents exactly.
#[test]
fn rate_distortion_strength() {
    let mut px = gradient(64, 32);
    for (t, n) in noise(64 * 32, 11).into_iter().enumerate() {
        px[4 * t] = px[4 * t].saturating_add(n / 8);
        px[4 * t + 1] = px[4 * t + 1].saturating_sub(n / 16);
        px[4 * t + 3] = 255;
    }
    for kind in [DecodeContent::Bc1, DecodeContent::Bc7] {
        let flat = EncodeLayout::flat_2d(kind, 64, 32);
        let plain = Dds::encode_from_rgba8(&px, flat).unwrap();
        let zero = Dds::encode_from_rgba8(&px, flat.with_rdo(Rdo::lambda(0))).unwrap();
        assert_eq!(plain.data, zero.data);
        let strong = Dds::encode_from_rgba8(&px, flat.with_rdo(Rdo::lambda(500.0f32.to_bits()))).unwrap();
        assert_eq!(strong.data.len(), plain.data.len());
        assert_ne!(strong.data, plain.data);
        let again = Dds::encode_from_rgba8(&px, flat.with_rdo(Rdo::lambda(500.0f32.to_bits()))).unwrap();
        assert_eq!(strong.data, again.data);
        let a = plain.decode_rgba8(FIRST).unwrap();
        assert_eq!(strong.decode_rgba8(FIRST).unwrap().pixels.len(), a.pixels.len());
        // An image of one colour that the format holds exactly.
        let grey = vec![255u8; 64 * 32 * 4];
        let exact = Dds::encode_from_rgba8(&grey, flat).unwrap();
        let kept = Dds::encode_from_rgba8(&grey, flat.with_rdo(Rdo::lambda(500.0f32.to_bits()))).unwrap();
        assert_eq!(exact.decode_rgba8(FIRST).unwrap().pixels, grey);
        assert_eq!(exact.data, kept.data);
    }
}

/// An image encodes as a texture of its own size.
#[test]
fn images_encode_themselves() {
    let img = ImageRgba8 { width: 3, height: 2, depth: 2, pixels: noise(48, 5) };
    let dds = img.encode_dds(DecodeContent::Bgra8).unwrap();
    assert_eq!(dds.decode_rgba8(FIRST).unwrap(), img);
    let empty = ImageRgba8 { width: 0, height: 2, depth: 1, pixels: vec![] };
    assert_eq!(
        empty.encode_dds(DecodeContent::Rgba8).unwrap_err(),
        Error::InvalidField("zero image dimension")
    );
}

/// The value of an unsigned half.
fn half_value(h: u32) -> f32 {
    if h < 0x400 {
        h as f32 * 2f32.powi(-24)
    } else {
        (1024 + h % 1024) as f32 * 2f32.powi(h as i32 / 1024 - 25)
    }
}

#[test]
fn halves_are_kept() {
    for h in 0..=0x7BFFu32 {
        assert_eq!(f32_to_half_uf16(half_value(h).to_bits()) as u32, h);
    }
}

/// Unsigned blocks with one subset and 10-bit endpoints decode to what their
/// fields say.
#[test]
fn bc6h_blocks_decode_as_stated() {
    let weights = [0u32, 4, 9, 13, 17, 21, 26, 30, 34, 38, 43, 47, 51, 55, 60, 64];
    let level = |q: u32| match q {
        0 => 0,
        1023 => 0xFFFF,
        _ => (q * 65536 + 32768) / 1024,
    };
    let raw = noise(16 * 4_000, 0x5bd1_e995_1234_5677);
    for (case, part) in raw.chunks_exact(16).enumerate() {
        let mut blk = [0u8; 16];
        blk.copy_from_slice(part);
        if case % 8 == 0 {
            // Small endpoints, for halves below the normal range.
            blk[0] = 0;
            for b in blk.iter_mut().take(8).skip(1) {
                *b &= 0x11;
            }
        }
        blk[0] = (blk[0] & 0xE0) | 3;
        let v = u128::from_le_bytes(blk);
        let bits = |off: u32, n: u32| ((v >> off) & ((1u128 << n) - 1)) as u32;
        let got = decode_bc6h(&blk, 4, 4, false).unwrap();
        for p in 0..16u32 {
            let k = if p == 0 { bits(65, 3) } else { bits(64 + 4 * p, 4) };
            let w = weights[k as usize];
            for c in 0..3u32 {
                let (a, b) = (level(bits(5 + 10 * c, 10)), level(bits(35 + 10 * c, 10)));
                let h = ((a * (64 - w) + b * w + 32) / 64) * 31 / 64;
                assert_eq!(got[(4 * p + c) as usize], half_value(h).to_bits(), "case {case} texel {p}");
            }
            assert_eq!(got[(4 * p + 3) as usize], 1.0f32.to_bits());
        }
    }
}

/// The error, over halves, of an encoded BC6H block is no more than that of the
/// fit between the channels' extremes, and flat endpoints are exact.
#[test]
fn bc6h_blocks_come_back() {
    let raw = noise(48 * 300, 0x1357_9bdf_0246_8ace);
    for (case, part) in raw.chunks_exact(48).enumerate() {
        let span = [1u32, 40, 600, 9_000][case % 4];
        let base = 0x2000 + (part[0] as u32) * 40;
        let mut px = [[0u32; 4]; 16];
        let mut halves = [[0i32; 3]; 16];
        for t in 0..16 {
            for c in 0..3 {
                let h = base + part[3 * t + c] as u32 * span / 256;
                halves[t][c] = h as i32;
                px[t][c] = half_value(h).to_bits();
            }
        }
        let block = encode_block_uf16(&px);
        assert_eq!(block[0] % 32, 3);
        let out = decode_bc6h(&block, 4, 4, false).unwrap();
        let mut err = 0i64;
        for t in 0..16 {
            for c in 0..3 {
                let d = (f32_to_half_uf16(out[4 * t + c]) as i32 - halves[t][c]) as i64;
                err += d * d;
            }
        }
        let hi: [i32; 3] = core::array::from_fn(|c| halves.iter().map(|h| h[c]).max().unwrap());
        let lo: [i32; 3] = core::array::from_fn(|c| halves.iter().map(|h| h[c]).min().unwrap());
        let seed = try_pair(&halves, hi, lo);
        assert!(err <= seed.err, "case {case}: {err} over {}", seed.err);
    }
    for q in [0i32, 1, 17, 512, 1022, 1023] {
        let h = half_from_interp(unquantize10(q)) as u32;
        let px = [[half_value(h).to_bits(), 0, half_value(h).to_bits(), 0]; 16];
        let out = decode_bc6h(&encode_block_uf16(&px), 4, 4, false).unwrap();
        for t in 0..16 {
            assert_eq!(out[4 * t..4 * t + 3], px[t][..3], "endpoint {q}");
        }
    }
}

/// A subresource decodes to what its own slice encodes and decodes to.
#[test]
fn containers_hold_their_slices() {
    let rgba = noise(8 * 8 * 4 * 3, 0x4a7c_15f3_9cc0_ed1b);
    for kind in [DecodeContent::Bc1, DecodeContent::Bc3, DecodeContent::Bc7, DecodeContent::Bgra8] {
        let layout = EncodeLayout::flat_2d(kind, 8, 8).with_depth(3);
        let all = Dds::encode_from_rgba8(&rgba, layout).unwrap().decode_rgba8(FIRST).unwrap();
        for z in 0..3usize {
            let part = &rgba[z * 256..z * 256 + 256];
            let one = Dds::encode_from_rgba8(part, EncodeLayout::flat_2d(kind, 8, 8)).unwrap();
            let want = one.decode_rgba8(FIRST).unwrap();
            assert_eq!(all.pixels[z * 256..z * 256 + 256], want.pixels[..], "slice {z}");
        }
    }
}
