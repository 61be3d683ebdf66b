use rusty_dds::encode::mips::{downsample_rgba8, downsample_rgba8_into};
use rusty_dds::swizzle::swap_rb;

fn downsample_reference(src: &[u8], width: u32, height: u32, depth: u32) -> Vec<u8> {
    let dw = (width / 2).max(1) as usize;
    let dh = (height / 2).max(1) as usize;
    let dd = (depth / 2).max(1) as usize;
    let (sw, sh, sd) = (width as usize, height as usize, depth as usize);
    let mut out = vec![0u8; dw * dh * dd * 4];
    for z in 0..dd {
        for y in 0..dh {
            for x in 0..dw {
                let x0 = (x * 2).min(sw - 1);
                let y0 = (y * 2).min(sh - 1);
                let z0 = (z * 2).min(sd - 1);
                let x1 = (x0 + 1).min(sw - 1);
                let y1 = (y0 + 1).min(sh - 1);
                let z1 = (z0 + 1).min(sd - 1);
                let mut acc = [0u32; 4];
                let mut n = 0u32;
                for zz in z0..=z1 {
                    for yy in y0..=y1 {
                        for xx in x0..=x1 {
                            let i = ((zz * sh + yy) * sw + xx) * 4;
                            for c in 0..4 {
                                acc[c] += src[i + c] as u32;
                            }
                            n += 1;
                        }
                    }
                }
                let o = ((z * dh + y) * dw + x) * 4;
                for c in 0..4 {
                    out[o + c] = ((acc[c] + n / 2) / n) as u8;
                }
            }
        }
    }
    out
}

#[test]
fn downsample_matches_reference() {
    let mut state = 0x5eed_0f_1e_a1_b0c5u64;
    let mut next = move || {
        state ^= state << 13;
        state ^= state >> 7;
        state ^= state << 17;
        state
    };
    for case in 0..4_000u32 {
        let (w, h, d) = match case % 8 {
            0 => (2, 2, 1),
            1 => (1, 7, 1),
            2 => (16, 1, 1),
            3 => (5, 6, 1),
            4 => (6, 5, 1),
            5 => (4, 4, 4),
            6 => (3, 3, 2),
            _ => (
                (next() % 40 + 1) as u32,
                (next() % 40 + 1) as u32,
                (next() % 3 + 1) as u32,
            ),
        };
        let mut src = vec![0u8; (w * h * d * 4) as usize];
        for b in src.iter_mut() {
            *b = next() as u8;
        }
        let got = downsample_rgba8(&src, w, h, d).unwrap();
        let want = downsample_reference(&src, w, h, d);
        assert_eq!(got, want, "case {case}: {w}x{h}x{d}");
    }
    {
        let (w, h) = (1101u32, 612u32);
        let mut src = vec![0u8; (w * h * 4) as usize];
        let mut s3 = 0x0bad_cafe_1234_5678u64;
        for b in src.iter_mut() {
            s3 ^= s3 << 13;
            s3 ^= s3 >> 7;
            s3 ^= s3 << 17;
            *b = s3 as u8;
        }
        assert_eq!(
            downsample_rgba8(&src, w, h, 1).unwrap(),
            downsample_reference(&src, w, h, 1),
            "parallel band path"
        );
    }
    let (w, h) = (512u32, 384u32);
    let mut src = vec![0u8; (w * h * 4) as usize];
    let mut s2 = 0x9e37_79b9_7f4a_7c15u64;
    for b in src.iter_mut() {
        s2 ^= s2 << 13;
        s2 ^= s2 >> 7;
        s2 ^= s2 << 17;
        *b = s2 as u8;
    }
    assert_eq!(
        downsample_rgba8(&src, w, h, 1).unwrap(),
        downsample_reference(&src, w, h, 1)
    );
}

#[test]
fn into_chain_matches_allocating_chain() {
    let mut state = 0xc4a1_9_0f_2b5du64;
    let mut next = move || {
        state ^= state << 13;
        state ^= state >> 7;
        state ^= state << 17;
        state
    };
    for case in 0..400u32 {
        let (mut w, mut h, mut d) = (
            (next() % 65 + 1) as u32,
            (next() % 65 + 1) as u32,
            (next() % 4 + 1) as u32,
        );
        let mut src = vec![0u8; (w * h * d * 4) as usize];
        for b in src.iter_mut() {
            *b = next() as u8;
        }
        let mut alloc_cur = src.clone();
        let mut cur_buf: Vec<u8> = Vec::new();
        let mut next_buf: Vec<u8> = Vec::new();
        for level in 0..6 {
            let cur: &[u8] = if level == 0 { &src } else { &cur_buf };
            assert_eq!(alloc_cur, cur, "case {case} level {level}");
            if w == 1 && h == 1 && d == 1 {
                break;
            }
            alloc_cur = downsample_rgba8(&alloc_cur, w, h, d).unwrap();
            downsample_rgba8_into(cur, w, h, d, &mut next_buf).unwrap();
            std::mem::swap(&mut cur_buf, &mut next_buf);
            w = (w / 2).max(1);
            h = (h / 2).max(1);
            d = (d / 2).max(1);
        }
    }
}

/// A mean of two, four and eight taps, rounded half up; a flat image stays
/// flat; a single texel is its own next level.
#[test]
fn downsample_exact_values() {
    let row = [0u8, 10, 255, 7, 1, 20, 254, 8];
    assert_eq!(downsample_rgba8(&row, 2, 1, 1).unwrap(), vec![1, 15, 255, 8]);
    let quad = [1u8, 0, 0, 255, 2, 0, 0, 255, 3, 0, 0, 255, 4, 1, 2, 255];
    assert_eq!(downsample_rgba8(&quad, 2, 2, 1).unwrap(), vec![3, 0, 1, 255]);
    let mut cube = Vec::new();
    for i in 0..8u8 {
        cube.extend_from_slice(&[i, 0, 0, 0]);
    }
    assert_eq!(downsample_rgba8(&cube, 2, 2, 2).unwrap(), vec![4, 0, 0, 0]);
    let flat = vec![77u8; 5 * 3 * 4];
    assert_eq!(downsample_rgba8(&flat, 5, 3, 1).unwrap(), vec![77u8; 2 * 4]);
    assert_eq!(downsample_rgba8(&[9, 8, 7, 6], 1, 1, 1).unwrap(), vec![9, 8, 7, 6]);
}

#[test]
fn swap_rb_matches_scalar() {
    fn swap_rb_scalar(src: &[u8], dst: &mut [u8]) {
        for (s, d) in src.chunks_exact(4).zip(dst.chunks_exact_mut(4)) {
            d.copy_from_slice(&[s[2], s[1], s[0], s[3]]);
        }
    }
    let mut state = 0x5111_22ab_c0ff_ee01u64;
    let mut next = move || {
        state ^= state << 13;
        state ^= state >> 7;
        state ^= state << 17;
        state
    };
    for case in 0..60_000u32 {
        let px = (next() % 68) as usize;
        let mut src = vec![0u8; px * 4];
        for b in src.iter_mut() {
            *b = next() as u8;
        }
        let mut fast = vec![0u8; px * 4];
        let mut slow = vec![0u8; px * 4];
        assert!(swap_rb(&src, &mut fast), "dispatch declined, case {case}");
        swap_rb_scalar(&src, &mut slow);
        assert_eq!(fast, slow, "case {case}, {px} px");
    }
    let mut state2 = 0x9e37_79b9_7f4a_7c15u64;
    let mut src = vec![0u8; 512 * 512 * 4];
    for b in src.iter_mut() {
        state2 ^= state2 << 13;
        state2 ^= state2 >> 7;
        state2 ^= state2 << 17;
        *b = state2 as u8;
    }
    let mut fast = vec![0u8; src.len()];
    let mut slow = vec![0u8; src.len()];
    assert!(swap_rb(&src, &mut fast));
    swap_rb_scalar(&src, &mut slow);
    assert_eq!(fast, slow);
    let mut twice = vec![0u8; src.len()];
    assert!(swap_rb(&fast, &mut twice));
    assert_eq!(twice, src);
}
