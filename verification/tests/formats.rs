use rusty_dds::content::DecodeContent;
use rusty_dds::decode::bc6h::{decode_bc6h, decode_bc6h_into};
use rusty_dds::decode::bcn::{
    decode_bc1, decode_bc1_into, decode_bc2, decode_bc2_into, decode_bc3, decode_bc3_into, decode_bc4,
    decode_bc4_into, decode_bc5, decode_bc5_into, decode_bc7, decode_bc7_into,
};
use rusty_dds::decode::reference::reference_rgba8;
use rusty_dds::decode::uncompressed::{decode_bgra8, decode_rgba8};
use rusty_dds::decode::{decode_slice, decode_surface_pixels};
use rusty_dds::encode::blocks::alpha::{
    alpha_sse, consider_alpha, encode_alpha_block, encode_alpha_block_flat, encode_bc4, encode_bc5, snorm_i32_to_unorm_u8,
};
use rusty_dds::encode::blocks::bc7::{encode_bc7_scored, pack_bc7_mode6, try_bc7_mode4, try_bc7_mode5, ColorSeeds};
use rusty_dds::encode::blocks::image::encode_image;
use rusty_dds::encode::blocks::m1::fit_partition;
use rusty_dds::encode::blocks::rdo::{
    bc1_block_sse, bc1_block_sse_limited, encode_image_bc1_rdo, polish_endpoints_fixed_table,
};
use rusty_dds::encode::blocks::rdo7::{bc7_block_sse, encode_image_bc7_rdo, parse_mode6};
use rusty_dds::encode::blocks::sweep::{sweep_gate, window_sweep};
use rusty_dds::encode::blocks::{bc1, channel_span, from_565, gather_block, lerp_rgb, EncodeQuality};
use rusty_dds::encode::metrics::{max_abs_diff, squared_error};
use rusty_dds::error::Error;

struct Noise(u64);

impl Noise {
    fn next(&mut self) -> u64 {
        self.0 ^= self.0 << 13;
        self.0 ^= self.0 >> 7;
        self.0 ^= self.0 << 17;
        self.0
    }

    fn bytes(&mut self, n: usize) -> Vec<u8> {
        (0..n).map(|_| (self.next() >> 24) as u8).collect()
    }

    fn texels(&mut self, spread: u64) -> [[u8; 4]; 16] {
        let base = self.next();
        let mut px = [[255u8; 4]; 16];
        for p in px.iter_mut() {
            let r = self.next();
            for c in 0..4 {
                p[c] = (((base >> (8 * c)) & 0xFF) as u8).wrapping_add(((r >> (8 * c)) % spread) as u8);
            }
        }
        px
    }
}

/// Two endpoint words and an index word, worked out by hand.
#[test]
fn bc1_block_by_hand() {
    // White and black, the first row one of each palette entry.
    let block = [0xFF, 0xFF, 0x00, 0x00, 0b11_10_01_00, 0, 0, 0];
    let px = decode_bc1(&block, 4, 4).unwrap();
    assert_eq!(&px[..16], &[255, 255, 255, 255, 0, 0, 0, 255, 170, 170, 170, 255, 85, 85, 85, 255]);
    // The first word not the larger: three colours and transparent black.
    let block = [0x00, 0x00, 0xFF, 0xFF, 0b11_10_01_00, 0, 0, 0];
    let px = decode_bc1(&block, 4, 4).unwrap();
    assert_eq!(&px[..16], &[0, 0, 0, 255, 255, 255, 255, 255, 128, 128, 128, 255, 0, 0, 0, 0]);
}

#[test]
fn bc2_and_bc3_alpha_by_hand() {
    let mut block = [0u8; 16];
    block[0] = 0xF3;
    block[8..12].copy_from_slice(&[0xFF, 0xFF, 0xFF, 0xFF]);
    let px = decode_bc2(&block, 4, 4).unwrap();
    assert_eq!((px[3], px[7], px[11]), (0x33, 0xFF, 0));
    let mut block = [0u8; 16];
    block[0] = 200;
    block[1] = 60;
    block[2] = 0b00_001_000;
    block[8..12].copy_from_slice(&[0xFF, 0xFF, 0xFF, 0xFF]);
    let px = decode_bc3(&block, 4, 4).unwrap();
    assert_eq!((px[3], px[7], px[11]), (200, 60, 200));
}

#[test]
fn bc4_levels_by_hand() {
    // 255 and 0, index 2 of every texel: six sevenths of the way to the first.
    let word: u64 = (0..16).fold(0, |w, i| w | 2 << (3 * i));
    let mut block = [255u8, 0, 0, 0, 0, 0, 0, 0];
    block[2..].copy_from_slice(&word.to_le_bytes()[..6]);
    let px = decode_bc4(&block, 4, 4, false).unwrap();
    assert_eq!(&px[..4], &[219, 0, 0, 255]);
    // The other order: the limits are indices 6 and 7.
    let word: u64 = 6 | 7 << 3;
    let mut block = [10u8, 20, 0, 0, 0, 0, 0, 0];
    block[2..].copy_from_slice(&word.to_le_bytes()[..6]);
    let px = decode_bc4(&block, 4, 4, false).unwrap();
    assert_eq!((px[0], px[4], px[8]), (0, 255, 10));
    let px = decode_bc4(&block, 4, 4, true).unwrap();
    assert_eq!((px[0] as i8, px[4] as i8, px[8] as i8), (-127, 127, 10));
    // The signed byte -128 counts as -127.
    let px = decode_bc4(&[0x80, 0x80, 0, 0, 0, 0, 0, 0], 4, 4, true).unwrap();
    assert_eq!(px[0] as i8, -127);
    // BC5: red's block, then green's.
    let both = [9u8, 9, 0, 0, 0, 0, 0, 0, 5, 5, 0, 0, 0, 0, 0, 0];
    let px = decode_bc5(&both, 4, 4, false).unwrap();
    assert_eq!(&px[..4], &[9, 5, 0, 255]);
}

/// Whatever the block, the decoders agree with the general one.
#[test]
fn surfaces_match_the_general_decoder() {
    let mut rng = Noise(0x1357_9bdf_0246_8ace);
    for kind in DecodeContent::ALL_LDR {
        for &(w, h, d) in &[(1u32, 1u32, 1u32), (4, 4, 1), (7, 5, 1), (16, 9, 3)] {
            let data = rng.bytes((w.div_ceil(4) * h.div_ceil(4) * 16 * d).max(w * h * d * 4) as usize);
            let got = decode_surface_pixels(kind, &data, w, h, d).unwrap();
            let want = reference_rgba8(kind, &data, w, h, d).unwrap();
            assert_eq!(got.len(), (w * h * d * 4) as usize);
            assert_eq!(got, want, "{} {w}x{h}x{d}", kind.name());
        }
    }
}

#[test]
fn decode_refusals() {
    for kind in DecodeContent::ALL_LDR {
        let plain = kind.block_bytes().is_none();
        let need = kind.block_bytes().unwrap_or(64);
        assert_eq!(decode_slice(kind, &vec![0; need - 1], 4, 4), Err(Error::TruncatedData));
        if !plain {
            assert_eq!(
                decode_slice(kind, &vec![0; need], 0, 4),
                Err(Error::InvalidField("zero image dimension"))
            );
        }
        assert_eq!(
            decode_surface_pixels(kind, &vec![0; need], 4, 4, 0),
            Err(Error::InvalidField("zero depth"))
        );
        assert_eq!(decode_surface_pixels(kind, &vec![0; need], 4, 4, 2), Err(Error::TruncatedData));
    }
    let mut small = [0u8; 60];
    assert_eq!(decode_bc1_into(&[0; 8], 4, 4, &mut small), Err(Error::OutOfBounds));
    assert_eq!(decode_bc7_into(&[0; 16], 4, 4, &mut small), Err(Error::OutOfBounds));
    assert_eq!(decode_bc7(&[0; 16], 4, 4).unwrap(), vec![0; 64]);
    assert_eq!(decode_bc6h(&[0; 15], 4, 4, false), Err(Error::TruncatedData));
    assert_eq!(decode_bc6h(&[0; 16], 4, 0, false), Err(Error::InvalidField("zero image dimension")));
    assert_eq!(decode_rgba8(&[1, 2, 3, 4], 1, 1), Ok(vec![1, 2, 3, 4]));
    assert_eq!(decode_bgra8(&[1, 2, 3, 4], 1, 1), Ok(vec![3, 2, 1, 4]));
}

/// What a mode 6 block is packed from is what it is read as, and what the
/// general decoder interpolates.
#[test]
fn mode6_blocks_round_trip() {
    let mut rng = Noise(0x2468_ace0_1357_9bdf);
    for _ in 0..2_000 {
        let r = rng.next();
        let q0 = [r as u8 & 127, (r >> 8) as u8 & 127, (r >> 16) as u8 & 127, (r >> 24) as u8 & 127];
        let q1 = [(r >> 32) as u8 & 127, (r >> 40) as u8 & 127, (r >> 48) as u8 & 127, (r >> 56) as u8 & 127];
        let r = rng.next();
        let (p0, p1) = (r as u8 & 1, (r >> 1) as u8 & 1);
        let mut idx = [0u8; 16];
        for (i, v) in idx.iter_mut().enumerate() {
            *v = (r >> (4 * i)) as u8 & if i == 0 { 7 } else { 15 };
        }
        let block = pack_bc7_mode6(q0, p0, q1, p1, &idx);
        let parts = parse_mode6(&block).unwrap();
        assert_eq!((parts.q0, parts.p0, parts.q1, parts.p1, parts.idx), (q0, p0, q1, p1, idx));
        let px = decode_bc7(&block, 4, 4).unwrap();
        let weights = [0u32, 4, 9, 13, 17, 21, 26, 30, 34, 38, 43, 47, 51, 55, 60, 64];
        for t in 0..16 {
            for c in 0..4 {
                let (a, b) = ((2 * q0[c] + p0) as u32, (2 * q1[c] + p1) as u32);
                let w = weights[idx[t] as usize];
                assert_eq!(px[4 * t + c] as u32, ((64 - w) * a + w * b + 32) / 64);
            }
        }
    }
    assert!(parse_mode6(&[0u8; 16]).is_none());
}

/// The reported error is the error that the block decodes to: BC1, BC4, BC7.
#[test]
fn scores_are_decoded_errors() {
    let mut rng = Noise(0x0f1e_2d3c_4b5a_6978);
    for case in 0..600 {
        let px = rng.texels([3, 20, 100, 255][case % 4]);
        let flat: Vec<u8> = px.iter().flatten().copied().collect();
        for q in [EncodeQuality::Quality, EncodeQuality::Fast] {
            let (block, err) = bc1::encode_bc1_scored(&px, q);
            // The encoder's mixtures round down; the decoder is within one.
            let (c0, c1) = (u16::from_le_bytes([block[0], block[1]]), u16::from_le_bytes([block[2], block[3]]));
            let table = u32::from_le_bytes([block[4], block[5], block[6], block[7]]);
            let (a, b) = (from_565(c0), from_565(c1));
            let model = if c0 > c1 {
                [a, b, lerp_rgb::<2, 1>(a, b), lerp_rgb::<1, 2>(a, b)]
            } else {
                [a, b, lerp_rgb::<1, 1>(a, b), [0, 0, 0]]
            };
            let out = decode_bc1(&block, 4, 4).unwrap();
            let mut want = 0i32;
            for t in 0..16 {
                let colour = model[((table >> (2 * t)) & 3) as usize];
                for c in 0..3 {
                    let d = colour[c] as i32 - px[t][c] as i32;
                    want += d * d;
                    assert!((out[4 * t + c] as i32 - colour[c] as i32).abs() <= 1);
                }
            }
            assert_eq!(err, bc1_block_sse(&px, &block));
            assert_eq!(err, want, "bc1 case {case}");

            let samples: [u8; 16] = core::array::from_fn(|i| px[i][0]);
            let block = encode_alpha_block(&samples, q, false);
            let mut direct = [0u8; 8];
            encode_bc4(&px, false, q, &mut direct);
            assert_eq!(block, direct);
            let out = decode_bc4(&block, 4, 4, false).unwrap();
            let spread = samples.iter().max().unwrap() - samples.iter().min().unwrap();
            for t in 0..16 {
                assert!((out[4 * t] as i32 - samples[t] as i32).abs() <= spread as i32 / 7 + 1);
            }
        }
        let (block, err) = encode_bc7_scored(&px);
        let out = decode_bc7(&block, 4, 4).unwrap();
        let want = squared_error(&out, &flat).unwrap();
        assert_eq!(err as u128, want, "bc7 case {case}");
        assert_eq!(err, bc7_block_sse(&px, &block));
    }
}

/// The full search is never worse than the fast one for BC1.
#[test]
fn quality_beats_fast() {
    let mut rng = Noise(0x7777_1234_5678_9abc);
    for case in 0..400 {
        let px = rng.texels([8, 60, 255][case % 3]);
        let (_, best) = bc1::encode_bc1_scored(&px, EncodeQuality::Quality);
        let (_, fast) = bc1::encode_bc1_scored(&px, EncodeQuality::Fast);
        assert!(best <= fast, "case {case}");
    }
}

/// Polishing keeps the index bytes and never worsens the block.
#[test]
fn polish_keeps_indices() {
    let mut rng = Noise(0x1111_2222_3333_4445);
    for _ in 0..2_000 {
        let px = rng.texels(80);
        let raw = rng.bytes(8);
        let block: [u8; 8] = core::array::from_fn(|i| raw[i]);
        let done = polish_endpoints_fixed_table(&px, &block);
        assert_eq!(done[4..], block[4..]);
        assert!(bc1_block_sse(&px, &done) <= bc1_block_sse(&px, &block));
    }
}

#[test]
fn images_go_block_by_block() {
    let rgba: Vec<u8> = (0..5 * 5 * 4).map(|v| v as u8).collect();
    let first = |px: &[[u8; 4]; 16]| {
        let mut b = [0u8; 16];
        b[0] = px[0][0];
        b[1] = px[15][0];
        b
    };
    let mut out = [9u8; 9];
    assert_eq!(encode_image(&rgba, 5, 5, 2, first, &mut out), Ok(()));
    // Four blocks; past the edge the last texel repeats.
    assert_eq!(out, [0, 72, 16, 76, 80, 92, 96, 96, 9]);
    assert_eq!(encode_image(&rgba, 5, 5, 2, first, &mut out[..7]), Err(Error::TruncatedData));
    assert_eq!(encode_image(&rgba[1..], 5, 5, 2, first, &mut out), Err(Error::TruncatedData));
    // Blocks of no bytes write nothing.
    assert_eq!(encode_image(&rgba, 5, 5, 0, first, &mut out), Ok(()));
    assert_eq!(out, [0, 72, 16, 76, 80, 92, 96, 96, 9]);
    assert_eq!(encode_image(&rgba[1..], 5, 5, 0, first, &mut out), Err(Error::TruncatedData));
}

#[test]
fn spans_and_differences() {
    let rgba = [10u8, 1, 0, 255, 13, 1, 0, 255];
    assert_eq!(channel_span(&rgba, 2, 1, 0), 3);
    assert_eq!(channel_span(&rgba, 2, 1, 1), 0);
    assert_eq!(channel_span(&[], 0, 0, 0), 0);
    assert_eq!(max_abs_diff(&[1, 200], &[4, 190]), Some(10));
    assert_eq!(max_abs_diff(&[], &[]), Some(0));
    assert_eq!(max_abs_diff(&[1], &[]), None);
    assert_eq!(squared_error(&[1, 200], &[4, 190]), Some(109));
    assert_eq!(squared_error(&[], &[]), None);
    assert_eq!(squared_error(&[1], &[]), None);
}

/// Sixteen equal samples are stored without error.
#[test]
fn constant_samples_are_exact() {
    for v in 0..=255u8 {
        let samples = [v; 16];
        for q in [EncodeQuality::Quality, EncodeQuality::Fast] {
            let block = encode_alpha_block(&samples, q, false);
            assert_eq!(alpha_sse(&samples, &block, false), 0);
            assert_eq!(decode_bc4(&block, 4, 4, false).unwrap()[0], v);
        }
        assert_eq!(alpha_sse(&samples, &encode_alpha_block_flat(&samples, false), false), 0);
    }
}

/// An error limit is exclusive.
#[test]
fn limited_errors() {
    let mut rng = Noise(0x5151_6262_7373_8485);
    for _ in 0..500 {
        let px = rng.texels(200);
        let raw = rng.bytes(8);
        let block: [u8; 8] = core::array::from_fn(|i| raw[i]);
        let err = bc1_block_sse(&px, &block);
        assert_eq!(bc1_block_sse_limited(&px, &block, err), None);
        assert_eq!(bc1_block_sse_limited(&px, &block, err + 1), Some(err));
    }
}

/// Decoding into caller memory gives what the allocating decoders give.
#[test]
fn decoders_into_caller_memory() {
    let mut rng = Noise(0x1234_4321_1234_4321);
    let data = rng.bytes(3 * 2 * 16);
    let mut out = vec![0u8; 10 * 7 * 4];
    decode_bc2_into(&data, 10, 7, &mut out).unwrap();
    assert_eq!(out, decode_bc2(&data, 10, 7).unwrap());
    decode_bc3_into(&data, 10, 7, &mut out).unwrap();
    assert_eq!(out, decode_bc3(&data, 10, 7).unwrap());
    for signed in [false, true] {
        decode_bc4_into(&data, 10, 7, signed, &mut out).unwrap();
        assert_eq!(out, decode_bc4(&data, 10, 7, signed).unwrap());
        decode_bc5_into(&data, 10, 7, signed, &mut out).unwrap();
        assert_eq!(out, decode_bc5(&data, 10, 7, signed).unwrap());
    }
    decode_bc1_into(&data, 10, 7, &mut out).unwrap();
    assert_eq!(out, decode_bc1(&data, 10, 7).unwrap());
    let mut floats = vec![0u32; 10 * 7 * 4];
    decode_bc6h_into(&data, 10, 7, true, &mut floats).unwrap();
    assert_eq!(floats, decode_bc6h(&data, 10, 7, true).unwrap());
    assert_eq!(decode_bc6h_into(&data, 10, 7, true, &mut floats[1..]), Err(Error::OutOfBounds));
}

/// The general BC6H decoder on a block that holds one colour.
#[test]
fn bc6h_block_by_hand() {
    // One subset, 10-bit endpoints: red 1023 and 1023, the rest zero.
    let bits: u128 = 0b00011 | 1023 << 5 | 1023 << 35;
    let px = decode_bc6h(&bits.to_le_bytes(), 4, 4, false).unwrap();
    assert_eq!(&px[..4], &[65504.0f32.to_bits(), 0, 0, 1.0f32.to_bits()]);
}

/// Every block that a rate-distortion pass emits names a mode.
#[test]
fn optimised_blocks_are_legal() {
    let mut rng = Noise(0x0bad_f00d_1234_5677);
    let mut rgba = Vec::new();
    for _ in 0..12 * 8 {
        for t in rng.texels(40) {
            rgba.extend_from_slice(&t);
        }
    }
    let (w, h) = (48u32, 32u32);
    let mut out = vec![0u8; (w / 4 * h / 4 * 16) as usize];
    encode_image_bc7_rdo(&rgba, w, h, 100.0f32.to_bits(), &mut out).unwrap();
    for block in out.chunks_exact(16) {
        assert_ne!(block[0], 0);
    }
    let mut small = vec![0u8; (w / 4 * h / 4 * 8) as usize];
    encode_image_bc1_rdo(&rgba, w, h, EncodeQuality::Quality, 100.0f32.to_bits(), &mut small).unwrap();
    assert_eq!(decode_bc1(&small, w, h).unwrap().len(), rgba.len());
    assert_eq!(
        encode_image_bc1_rdo(&rgba[1..], w, h, EncodeQuality::Fast, 0, &mut small),
        Err(Error::TruncatedData)
    );
    assert_eq!(encode_image_bc7_rdo(&rgba, w, h, 0, &mut small), Err(Error::TruncatedData));
}

fn stated_colour(c0: u16, c1: u16, always_four: bool, k: usize) -> [u8; 4] {
    let f = |w: u16| ((w >> 11) as u32 & 31, (w >> 5) as u32 & 63, w as u32 & 31);
    let ((r0, g0, b0), (r1, g1, b1)) = (f(c0), f(c1));
    let end = |r: u32, g: u32, b: u32| {
        [((r * 527 + 23) / 64) as u8, ((g * 259 + 33) / 64) as u8, ((b * 527 + 23) / 64) as u8, 255]
    };
    let third = |r: u32, g: u32, b: u32| {
        [((r * 351 + 61) / 128) as u8, ((g * 2763 + 1039) / 2048) as u8, ((b * 351 + 61) / 128) as u8, 255]
    };
    let half = |r: u32, g: u32, b: u32| {
        [((r * 1053 + 125) / 256) as u8, ((g * 4145 + 1019) / 2048) as u8, ((b * 1053 + 125) / 256) as u8, 255]
    };
    let four = c0 > c1 || always_four;
    match k {
        0 => end(r0, g0, b0),
        1 => end(r1, g1, b1),
        2 if four => third(2 * r0 + r1, 2 * g0 + g1, 2 * b0 + b1),
        2 => half(r0 + r1, g0 + g1, b0 + b1),
        _ if four => third(2 * r1 + r0, 2 * g1 + g0, 2 * b1 + b0),
        _ => [0; 4],
    }
}

fn stated_texels(block: &[u8], always_four: bool) -> Vec<[u8; 4]> {
    let c0 = u16::from_le_bytes([block[0], block[1]]);
    let c1 = u16::from_le_bytes([block[2], block[3]]);
    let table = u32::from_le_bytes([block[4], block[5], block[6], block[7]]);
    (0..16).map(|t| stated_colour(c0, c1, always_four, (table >> (2 * t)) as usize & 3)).collect()
}

fn alpha_index(block: &[u8], t: usize) -> usize {
    let mut word = [0u8; 8];
    word[..6].copy_from_slice(&block[2..8]);
    (u64::from_le_bytes(word) >> (3 * t)) as usize & 7
}

/// The decoders give exactly the colours and levels that the contracts state.
#[test]
fn decoders_give_what_is_stated() {
    let mut rng = Noise(0x9999_8888_7777_6667);
    for case in 0..20_000 {
        let mut block = rng.bytes(16);
        match case % 4 {
            // Equal and ordered endpoints, both ways round.
            1 => {
                block[1] = block[0];
                let head: Vec<u8> = block[8..10].to_vec();
                block[10..12].copy_from_slice(&head);
            }
            2 => block.swap(0, 1),
            _ => {}
        }
        let colour = stated_texels(&block, false);
        let got = decode_bc1(&block[..8], 4, 4).unwrap();
        assert_eq!(got, colour.concat(), "bc1 case {case}");

        let colour = stated_texels(&block[8..], true);
        let got = decode_bc2(&block, 4, 4).unwrap();
        for t in 0..16 {
            assert_eq!(got[4 * t..4 * t + 3], colour[t][..3], "bc2 case {case}");
            assert_eq!(got[4 * t + 3], 17 * (block[t / 2] >> (4 * (t % 2)) & 15));
        }

        let (a, b) = (block[0] as u32, block[1] as u32);
        let smooth: [u32; 8] = if a > b {
            core::array::from_fn(|k| match k {
                0 => a,
                1 => b,
                k => ((8 - k as u32) * a + (k as u32 - 1) * b + 1) / 7,
            })
        } else {
            core::array::from_fn(|k| match k {
                0 => a,
                1 => b,
                6 => 0,
                7 => 255,
                k => ((6 - k as u32) * a + (k as u32 - 1) * b + 1) / 5,
            })
        };
        let got = decode_bc3(&block, 4, 4).unwrap();
        for t in 0..16 {
            assert_eq!(got[4 * t..4 * t + 3], colour[t][..3], "bc3 case {case}");
            assert_eq!(got[4 * t + 3] as u32, smooth[alpha_index(&block, t)], "bc3 case {case}");
        }

        for signed in [false, true] {
            let level = |v: u8| if signed { (v as i8 as i64).max(-127) } else { v as i64 };
            let (a, b) = (level(block[0]), level(block[1]));
            let mix = |w: i64| b + ((w * (a - b) + 32768) >> 16);
            let levels = if a > b {
                [a, b, mix(56173), mix(46812), mix(37450), mix(28086), mix(18724), mix(9363)]
            } else {
                let (lo, hi) = if signed { (-127, 127) } else { (0, 255) };
                [a, b, mix(52429), mix(39321), mix(26215), mix(13107), lo, hi]
            };
            let got = decode_bc4(&block[..8], 4, 4, signed).unwrap();
            for t in 0..16 {
                assert_eq!(got[4 * t], levels[alpha_index(&block, t)] as u8, "bc4 case {case}");
                assert_eq!(got[4 * t + 1..4 * t + 4], [0, 0, 255]);
            }
            let both = decode_bc5(&block, 4, 4, signed).unwrap();
            let green = decode_bc4(&block[8..], 4, 4, signed).unwrap();
            for t in 0..16 {
                assert_eq!(both[4 * t..4 * t + 4], [got[4 * t], green[4 * t], 0, 255]);
            }
        }
    }
}

/// The sweep passes pairs over without fitting them; it ends where a sweep that
/// fits every pair ends.
#[test]
fn sweep_loses_nothing_by_passing_pairs_over() {
    let mut rng = Noise(0x3141_5926_5358_9793);
    for case in 0..400 {
        let spread = [10, 30, 60, 120][case % 4];
        let px = rng.texels(spread);
        let samples: [u8; 16] = core::array::from_fn(|i| px[i][0]);
        for signed in [false, true] {
            let block = encode_alpha_block(&samples, EncodeQuality::Fast, signed);
            let err = alpha_sse(&samples, &block, signed);
            let (mut swept, mut swept_err) = (block, err);
            window_sweep(&samples, signed, &mut swept, &mut swept_err);
            let (mut full, mut full_err) = (block, err);
            let level = |b: u8| if signed { b as i8 as i32 } else { b as i32 };
            let (lo, hi) = if signed { (-127, 127) } else { (0, 255) };
            for d0 in -4..=4 {
                for d1 in -4..=4 {
                    if (d0, d1) != (0, 0) {
                        let a0 = (level(block[0]) + d0).clamp(lo, hi);
                        let a1 = (level(block[1]) + d1).clamp(lo, hi);
                        consider_alpha(a0, a1, signed, &samples, &mut full, &mut full_err);
                    }
                }
            }
            assert_eq!((swept, swept_err), (full, full_err), "case {case}");
            assert!(swept_err <= err);
            assert_eq!(alpha_sse(&samples, &swept, signed), swept_err);
        }
    }
    assert!(sweep_gate(16, 5, false) && sweep_gate(64, 5, false) && sweep_gate(8, 5, true) && sweep_gate(32, 5, true));
    assert!(!sweep_gate(15, 5, false) && !sweep_gate(65, 5, false) && !sweep_gate(7, 5, true) && !sweep_gate(33, 5, true));
    assert!(!sweep_gate(20, 4, false) && !sweep_gate(20, 4, true));
}

/// A mode is given up where its first half alone reaches the limit, and only
/// there.
#[test]
fn modes_are_given_up_by_their_first_half() {
    let mut rng = Noise(0x6b8b_4567_327b_23c6);
    let mut over = 0;
    for case in 0..300 {
        let px = rng.texels([20, 100, 255][case % 3]);
        let seeds = ColorSeeds::new(&px);
        let (b4, e4) = try_bc7_mode4(&px, &seeds, i64::MAX).unwrap();
        let (b5, e5) = try_bc7_mode5(&px, 0, &seeds, i64::MAX).unwrap();
        assert_eq!(b4[0], 0x10);
        assert_eq!(b5[0], 0x20);
        assert_eq!(bc7_block_sse(&px, &b4), e4, "mode 4 case {case}");
        assert_eq!(bc7_block_sse(&px, &b5), e5, "mode 5 case {case}");
        assert!(try_bc7_mode4(&px, &seeds, 0).is_none());
        assert!(try_bc7_mode5(&px, 0, &seeds, 0).is_none());
        assert_eq!(try_bc7_mode4(&px, &seeds, e4 + 1), Some((b4, e4)));
        assert_eq!(try_bc7_mode5(&px, 0, &seeds, e5 + 1), Some((b5, e5)));
        let mut came = false;
        for limit in [1, e4 / 4, e4 / 2, e4] {
            match try_bc7_mode4(&px, &seeds, limit) {
                Some(r) => {
                    assert_eq!(r, (b4, e4));
                    came = true;
                    over += 1;
                }
                None => assert!(!came, "mode 4 case {case}"),
            }
        }
    }
    assert!(over > 0);
}

/// A rotated mode 5 block decodes to the channels where they were.
#[test]
fn rotated_blocks_report_their_error() {
    let mut rng = Noise(0x2545_f491_4f6c_dd1d);
    for case in 0..300usize {
        let px = rng.texels([20, 100, 255][case % 3]);
        let c = case % 3;
        let mut turned = px;
        for p in turned.iter_mut() {
            p.swap(3, c);
        }
        let seeds = ColorSeeds::new(&turned);
        let (b, e) = try_bc7_mode5(&turned, c as u8 + 1, &seeds, i64::MAX).unwrap();
        assert_eq!(bc7_block_sse(&px, &b), e, "case {case}");
    }
}

#[test]
fn partitions_under_any_limit() {
    let mut rng = Noise(0x1f83_d9ab_fb41_bd6b);
    let mut px = rng.texels(60);
    for p in px.iter_mut() {
        p[3] = 255;
    }
    for part in [0usize, 13, 63] {
        let (b, e) = fit_partition(&px, part, i64::MAX).unwrap();
        assert_eq!(bc7_block_sse(&px, &b), e);
        for limit in [-1, i64::MIN, 0] {
            assert!(fit_partition(&px, part, limit).is_none());
        }
    }
}

#[test]
fn signed_levels_are_held_to_their_range() {
    assert_eq!(snorm_i32_to_unorm_u8(-127), 0);
    assert_eq!(snorm_i32_to_unorm_u8(0), 128);
    assert_eq!(snorm_i32_to_unorm_u8(127), 255);
    assert_eq!(snorm_i32_to_unorm_u8(-128), 0);
    assert_eq!(snorm_i32_to_unorm_u8(i32::MIN), 0);
    assert_eq!(snorm_i32_to_unorm_u8(i32::MAX), 255);
}

/// What the rate-distortion pass costs a block is bounded by the strength,
/// scaled by the error that the block already carries.
#[test]
fn damage_is_scaled_by_the_error_in_hand() {
    let mut rng = Noise(0x3c6e_f372_fe94_f82b);
    let (w, h) = (48u32, 32u32);
    let mut rgba = Vec::new();
    for k in 0..12 * 8 {
        for t in rng.texels([2, 6, 30, 90][k % 4]) {
            rgba.extend_from_slice(&t);
        }
    }
    let mut moved = 0;
    for lambda in [0.5f32, 25.0, 400.0, 1e30] {
        let mut small = vec![0u8; (w / 4 * h / 4 * 8) as usize];
        encode_image_bc1_rdo(&rgba, w, h, EncodeQuality::Quality, lambda.to_bits(), &mut small).unwrap();
        let mut large = vec![0u8; (w / 4 * h / 4 * 16) as usize];
        encode_image_bc7_rdo(&rgba, w, h, lambda.to_bits(), &mut large).unwrap();
        for i in 0..(w / 4 * h / 4) as usize {
            let px = gather_block(&rgba, w as usize, h as usize, i % 12, i / 12);
            let (base, _) = bc1::encode_bc1_scored(&px, EncodeQuality::Quality);
            let e0 = bc1_block_sse(&px, &base) as f64;
            let b: [u8; 8] = core::array::from_fn(|k| small[8 * i + k]);
            let bound = e0 + 7.0 * lambda as f64 * (e0 / 192.0).min(1.0);
            assert!(bc1_block_sse(&px, &b) as f64 <= bound * 1.000001 + 1e-9, "bc1 block {i}");
            assert!(e0 > 0.0 || b == base);
            moved += (b != base) as u32;

            let (base, e0) = encode_bc7_scored(&px);
            let e0 = e0 as f64;
            let b: [u8; 16] = core::array::from_fn(|k| large[16 * i + k]);
            let bound = e0 + 14.0 * lambda as f64 * (e0 / 256.0).min(1.0);
            assert!(bc7_block_sse(&px, &b) as f64 <= bound * 1.000001 + 1e-9, "bc7 block {i}");
            assert!(e0 > 0.0 || b == base);
            moved += (b != base) as u32;
        }
    }
    assert!(moved > 0);
}

/// BC2 keeps the high four bits of alpha, and BC5 its two channels apart.
#[test]
fn two_part_blocks_come_back_part_by_part() {
    let mut rng = Noise(0x510e_527f_9b05_688c);
    for case in 0..200 {
        let px = rng.texels([20, 100, 255][case % 3]);
        let mut block = [0u8; 16];
        bc1::encode_bc2(&px, EncodeQuality::Quality, &mut block);
        let out = decode_bc2(&block, 4, 4).unwrap();
        let four = u16::from_le_bytes([block[8], block[9]]) > u16::from_le_bytes([block[10], block[11]]);
        let colours = decode_bc1(&block[8..], 4, 4).unwrap();
        for t in 0..16 {
            assert_eq!(out[4 * t + 3], 17 * (px[t][3] / 16));
            if four {
                assert_eq!(out[4 * t..4 * t + 3], colours[4 * t..4 * t + 3]);
            }
        }
        for signed in [false, true] {
            let mut pair = [0u8; 16];
            encode_bc5(&px, signed, EncodeQuality::Fast, &mut pair);
            let out = decode_bc5(&pair, 4, 4, signed).unwrap();
            let red = decode_bc4(&pair[..8], 4, 4, signed).unwrap();
            let green = decode_bc4(&pair[8..], 4, 4, signed).unwrap();
            for t in 0..16 {
                assert_eq!(out[4 * t..4 * t + 4], [red[4 * t], green[4 * t], 0, 255]);
            }
        }
    }
}
