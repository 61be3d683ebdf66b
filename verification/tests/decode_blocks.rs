use rusty_dds::content::DecodeContent;
use rusty_dds::decode::bcn::{
    bc7_fast_block, bc7_mode1_block, bc7_mode3_block, bc7_mode6_block, decode_bc7, BC7_P2_FIXUP, BC7_P2_SUBSET,
};
use rusty_dds::decode::decode_surface_pixels;
use rusty_dds::decode::reference::reference_rgba8;
use rusty_dds::encode::blocks::bc7::W6M;

#[test]
fn two_subset_modes_match_the_general_decoder() {
    for &(mode, mask, set) in &[(1u32, 0x3u8, 0x2u8), (3, 0xf, 0x8)] {
        let mut state = 0xdead_beef_cafe_f00du64 ^ mode as u64;
        let mut next = move || {
            state ^= state << 13;
            state ^= state >> 7;
            state ^= state << 17;
            state
        };
        for partition in 0..64u8 {
            for case in 0..200 {
                let mut raw = [0u8; 16];
                match case {
                    0 => {}
                    1 => raw.iter_mut().for_each(|x| *x = 0xff),
                    _ => {
                        let (x, y) = (next(), next());
                        raw[..8].copy_from_slice(&x.to_le_bytes());
                        raw[8..].copy_from_slice(&y.to_le_bytes());
                    }
                }
                let pshift = mode + 1;
                let v = u128::from_le_bytes(raw);
                let v = (v & !(0x3fu128 << pshift)) | ((partition as u128) << pshift);
                let mut blk = v.to_le_bytes();
                blk[0] = (blk[0] & !mask) | set;

                let claimed = if mode == 1 {
                    bc7_mode1_block(&blk)
                } else {
                    bc7_mode3_block(&blk)
                };
                assert!(claimed.is_some(), "mode {mode} partition {partition} not recognised");

                let mut theirs = [0u8; 64];
                bcdec_rs::bc7(&blk, &mut theirs, 16);
                assert_eq!(
                    claimed.unwrap(),
                    theirs,
                    "mode {mode}, partition {partition}, case {case} diverged"
                );
            }
        }
    }
}

#[test]
fn other_modes_are_declined() {
    for mode in 0..8u32 {
        let mut blk = [0u8; 16];
        blk[0] = 1u8 << mode;
        assert_eq!(bc7_mode1_block(&blk).is_some(), mode == 1, "m1 vs {mode}");
        assert_eq!(bc7_mode3_block(&blk).is_some(), mode == 3, "m3 vs {mode}");
    }
}

#[test]
fn bcn_other_modes_are_declined() {
    for mode in 0..8u32 {
        let mut blk = [0u8; 16];
        blk[0] = 1 << mode;
        assert_eq!(
            bc7_mode6_block(&blk).is_some(),
            mode == 6,
            "mode {mode} handled incorrectly"
        );
    }
    // No bit set in the first byte: declined too.
    assert!(!bc7_mode6_block(&[0u8; 16]).is_some());
}

#[test]
fn partition_tables_are_the_spec_tables() {
    assert_eq!(BC7_P2_SUBSET[0], 0xcccc);
    assert_eq!(BC7_P2_SUBSET[1], 0x8888);
    assert_eq!(BC7_P2_SUBSET[2], 0xeeee);
    // Subset 0 always owns pixel 0, so bit 0 is never set.
    assert!(BC7_P2_SUBSET.iter().all(|m| m & 1 == 0));
    // Every partition uses both subsets.
    assert!(BC7_P2_SUBSET.iter().all(|&m| m != 0));
    // The anchor belongs to subset 1.
    for (i, &f) in BC7_P2_FIXUP.iter().enumerate() {
        assert!((1..=15).contains(&f), "partition {i} anchor {f}");
        assert_eq!(
            (BC7_P2_SUBSET[i] >> f) & 1,
            1,
            "partition {i} anchor not in subset 1"
        );
    }
}

#[test]
fn mode6_matches_the_general_decoder() {
    let mut state = 0x243f_6a88_85a3_08d3u64;
    let mut next = move || {
        state ^= state << 13;
        state ^= state >> 7;
        state ^= state << 17;
        state
    };

    for case in 0..20_000 {
        let mut blk = [0u8; 16];
        match case {
            0 => {}
            1 => blk.iter_mut().for_each(|b| *b = 0xff),
            _ => {
                let (a, b) = (next(), next());
                blk[..8].copy_from_slice(&a.to_le_bytes());
                blk[8..].copy_from_slice(&b.to_le_bytes());
            }
        }
        blk[0] = 0x40;

        let ours = bc7_mode6_block(&blk);
        assert!(ours.is_some(), "case {case}: not recognised");

        let mut theirs = [0u8; 64];
        bcdec_rs::bc7(&blk, &mut theirs, 16);

        assert_eq!(
            ours.unwrap(),
            theirs,
            "case {case}: mode-6 fast path diverged\n  block {blk:02x?}"
        );
    }
}

#[test]
fn weights_are_the_spec_table() {
    assert_eq!(W6M[0], 0);
    assert_eq!(W6M[15], 64);
    assert!(W6M.windows(2).all(|w| w[0] < w[1]));
}

/// The high bit of the first byte is a red bit, not part of the mode.
#[test]
fn mode6_blocks_with_an_odd_red_level_are_taken() {
    let mut state = 0x9e37_79b9_7f4a_7c15u64;
    let mut next = move || {
        state ^= state << 13;
        state ^= state >> 7;
        state ^= state << 17;
        state
    };
    for case in 0..5_000 {
        let mut blk = [0u8; 16];
        let (a, b) = (next(), next());
        blk[..8].copy_from_slice(&a.to_le_bytes());
        blk[8..].copy_from_slice(&b.to_le_bytes());
        blk[0] = 0xc0;
        let mut theirs = [0u8; 64];
        bcdec_rs::bc7(&blk, &mut theirs, 16);
        assert_eq!(bc7_mode6_block(&blk), Some(theirs), "case {case}");
        assert_eq!(bc7_fast_block(&blk), Some(theirs), "case {case}");
        assert_eq!(decode_bc7(&blk, 4, 4).unwrap(), theirs.to_vec(), "case {case}");
    }
    // Red 1 with a zero low bit, and nothing else: two of 255 at every texel.
    let mut blk = [0u8; 16];
    blk[0] = 0xc0;
    let px = bc7_mode6_block(&blk).unwrap();
    assert_eq!(px[..4], [2, 0, 0, 0]);
}

fn bits(v: u128, off: u32, n: u32) -> u32 {
    ((v >> off) & ((1u128 << n) - 1)) as u32
}

fn index(v: u128, base: u32, n: u32, p: u32) -> usize {
    if p == 0 {
        bits(v, base, n - 1) as usize
    } else {
        bits(v, base + n * p - 1, n) as usize
    }
}

fn between(w: u32, a: u32, b: u32) -> u8 {
    (((64 - w) * a + w * b + 32) / 64) as u8
}

/// Modes 4 and 5 decode to what their fields say, rotation last.
#[test]
fn modes_4_and_5_decode_as_stated() {
    let w2 = [0u32, 21, 43, 64];
    let w3 = [0u32, 9, 18, 27, 37, 46, 55, 64];
    let mut state = 0x0123_4567_89ab_cdefu64;
    let mut next = move || {
        state ^= state << 13;
        state ^= state >> 7;
        state ^= state << 17;
        state
    };
    for case in 0..8_000u32 {
        let mut blk = [0u8; 16];
        let (a, b) = (next(), next());
        blk[..8].copy_from_slice(&a.to_le_bytes());
        blk[8..].copy_from_slice(&b.to_le_bytes());
        let five = case % 2 == 0;
        let rotation = if five { (case / 2) % 4 } else { 0 };
        blk[0] = if five { 0x20 | (rotation as u8) << 6 } else { 0x10 };
        let v = u128::from_le_bytes(blk);
        let mut want = [0u8; 64];
        for p in 0..16u32 {
            let mut t = [0u8; 4];
            for c in 0..3u32 {
                let level = |e: u32| {
                    if five {
                        let q = bits(v, 8 + 14 * c + 7 * e, 7);
                        2 * q + q / 64
                    } else {
                        let q = bits(v, 8 + 10 * c + 5 * e, 5);
                        8 * q + q / 4
                    }
                };
                let w = w2[index(v, if five { 66 } else { 50 }, 2, p)];
                t[c as usize] = between(w, level(0), level(1));
            }
            let level = |e: u32| {
                if five {
                    bits(v, 50 + 8 * e, 8)
                } else {
                    let q = bits(v, 38 + 6 * e, 6);
                    4 * q + q / 16
                }
            };
            let w = if five { w2[index(v, 97, 2, p)] } else { w3[index(v, 81, 3, p)] };
            t[3] = between(w, level(0), level(1));
            if rotation > 0 {
                t.swap(3, rotation as usize - 1);
            }
            want[4 * p as usize..4 * p as usize + 4].copy_from_slice(&t);
        }
        assert_eq!(decode_bc7(&blk, 4, 4).unwrap(), want.to_vec(), "case {case}");
        assert_eq!(bc7_fast_block(&blk), None, "case {case}");
    }
}

/// The general decoder and the fast paths agree, pixels and errors alike.
#[test]
fn reference_decode_is_the_decode() {
    let mut state = 0xfeed_face_dead_beefu64;
    let mut data = Vec::new();
    for k in 0..6 * 16u64 {
        state ^= state << 13;
        state ^= state >> 7;
        state ^= state << 17;
        data.push(if k % 16 == 0 { 1 << (state % 8) } else { state as u8 });
    }
    for (w, h, d) in [(8, 8, 1), (7, 5, 1), (4, 4, 3), (8, 8, 0), (16, 16, 1), (8, 8, 9)] {
        for kind in [DecodeContent::Bc7, DecodeContent::Bc1, DecodeContent::Bc3, DecodeContent::Rgba8] {
            assert_eq!(
                reference_rgba8(kind, &data, w, h, d),
                decode_surface_pixels(kind, &data, w, h, d),
                "{w}x{h}x{d}"
            );
        }
    }
}
