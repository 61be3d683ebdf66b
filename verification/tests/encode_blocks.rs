use rusty_dds::binary32::{ceil_i32, round_clamp_snorm, round_clamp_u8};
use rusty_dds::encode::blocks::bc1::pack_bc1_scored;
use rusty_dds::encode::blocks::bc7::{
    extrema_opaque, extrema_rgba, fit_indices_mode6, ls_endpoints_mode6, palette_mode6, qtab_entry,
    quantize_7p, unquantize_7p, unquantize_7p_chan, W6M,
};
use rusty_dds::encode::blocks::{from_565, lerp_rgb, to_565};

#[test]
fn palette_mode6_vector_matches_scalar() {
    let mut state = 0x2b7e_1516_28ae_d2a6u64;
    let mut next = move || {
        state ^= state << 13;
        state ^= state >> 7;
        state ^= state << 17;
        state
    };
    for case in 0..60_000u32 {
        let (c0, c1) = match case {
            0 => ([0u8; 4], [0u8; 4]),
            1 => ([255u8; 4], [255u8; 4]),
            2 => ([0u8; 4], [255u8; 4]),
            3 => ([255u8; 4], [0u8; 4]),
            _ => {
                let (a, b) = (next(), next());
                (
                    [a as u8, (a >> 8) as u8, (a >> 16) as u8, (a >> 24) as u8],
                    [b as u8, (b >> 8) as u8, (b >> 16) as u8, (b >> 24) as u8],
                )
            }
        };
        let base = [
            c0[0] as i32 * 64 + 32,
            c0[1] as i32 * 64 + 32,
            c0[2] as i32 * 64 + 32,
            c0[3] as i32 * 64 + 32,
        ];
        let got = palette_mode6(c0, c1);
        let mut want = [[0u8; 4]; 16];
        for (k, &w) in W6M.iter().enumerate() {
            for c in 0..4 {
                want[k][c] = ((base[c] + w as i32 * (c1[c] as i32 - c0[c] as i32)) >> 6) as u8;
            }
        }
        assert_eq!(got, want, "case {case} c0={c0:?} c1={c1:?}");
    }
}

/// The least-squares solve in hardware single precision.
fn ls_endpoints_in_hardware(pixels: &[[u8; 4]; 16], indices: &[u8; 16]) -> Option<([u8; 4], [u8; 4])> {
    let mut a00 = 0.0f32;
    let mut a01 = 0.0f32;
    let mut a11 = 0.0f32;
    let mut b0 = [0.0f32; 4];
    let mut b1 = [0.0f32; 4];
    for i in 0..16 {
        let w = W6M[indices[i] as usize] as f32 / 64.0;
        let u = 1.0 - w;
        a00 += u * u;
        a01 += u * w;
        a11 += w * w;
        for c in 0..4 {
            let x = pixels[i][c] as f32;
            b0[c] += u * x;
            b1[c] += w * x;
        }
    }
    let det = a00 * a11 - a01 * a01;
    if det.abs() < 1e-4 {
        return None;
    }
    let mut e0 = [0u8; 4];
    let mut e1 = [0u8; 4];
    for c in 0..4 {
        let x0 = (a11 * b0[c] - a01 * b1[c]) / det;
        let x1 = (a00 * b1[c] - a01 * b0[c]) / det;
        e0[c] = x0.round().clamp(0.0, 255.0) as u8;
        e1[c] = x1.round().clamp(0.0, 255.0) as u8;
    }
    Some((e0, e1))
}

#[test]
fn ls_endpoints_mode6_vector_matches_scalar_bitwise() {
    let mut state = 0x51ac_1d0e_7717_3355u64;
    let mut next = move || {
        state ^= state << 13;
        state ^= state >> 7;
        state ^= state << 17;
        state
    };
    for case in 0..60_000u32 {
        let mut px = [[0u8; 4]; 16];
        for q in px.iter_mut() {
            let r = next();
            *q = [r as u8, (r >> 8) as u8, (r >> 16) as u8, (r >> 24) as u8];
        }
        let mut idx = [0u8; 16];
        match case {
            0 => {}
            1 => idx = [15u8; 16],
            2 => {
                for (i, s) in idx.iter_mut().enumerate() {
                    *s = if i % 2 == 0 { 0 } else { 15 };
                }
            }
            _ => {
                for s in idx.iter_mut() {
                    *s = (next() >> 20) as u8 & 15;
                }
            }
        }
        let got = ls_endpoints_mode6(&px, &idx);
        let want = ls_endpoints_in_hardware(&px, &idx);
        assert_eq!(got, want, "case {case}");
    }
}

#[test]
fn qtab_matches_the_direct_search() {
    fn direct_chan(c: u8, p: u8) -> (u8, i32) {
        let q0 = (c >> 1).min(127);
        let mut best_qi = q0;
        let mut best_e = i32::MAX;
        for cand in q0.saturating_sub(1)..=q0.saturating_add(1).min(127) {
            let recon = unquantize_7p_chan(cand, p);
            let e = (recon as i32 - c as i32).pow(2);
            if e < best_e {
                best_e = e;
                best_qi = cand;
            }
        }
        (best_qi, best_e)
    }
    fn direct(c: [u8; 4]) -> ([u8; 4], u8) {
        let mut best_p = 0u8;
        let mut best_q = [0u8; 4];
        let mut best_err = i32::MAX;
        for p in 0..2u8 {
            let mut q = [0u8; 4];
            let mut err = 0i32;
            for i in 0..4 {
                let (qi, e) = direct_chan(c[i], p);
                q[i] = qi;
                err += e;
            }
            if err < best_err {
                best_err = err;
                best_p = p;
                best_q = q;
            }
        }
        (best_q, best_p)
    }

    for p in 0..2u8 {
        for c in 0..=255u8 {
            let want = direct_chan(c, p);
            let (q, e) = qtab_entry(c, p);
            assert_eq!((q, e as i32), want, "channel c={c} p={p}");
        }
    }
    let mut state = 0x1234_5678_9abc_def0u64;
    for case in 0..200_000 {
        let c = if case < 256 {
            [case as u8; 4]
        } else {
            state ^= state << 13;
            state ^= state >> 7;
            state ^= state << 17;
            let b = state.to_le_bytes();
            [b[0], b[1], b[2], b[3]]
        };
        assert_eq!(quantize_7p(c), direct(c), "colour {c:?}");
    }
}

fn sqr3(a: [u8; 3], b: [u8; 3]) -> i32 {
    let mut s = 0i32;
    for i in 0..3 {
        let d = a[i] as i32 - b[i] as i32;
        s += d * d;
    }
    s
}

fn nearest_table(pixels: &[[u8; 4]; 16], colors: &[[u8; 3]; 4], alpha_punch: bool) -> u32 {
    let mut table = 0u32;
    for (i, p) in pixels.iter().enumerate() {
        let idx = if alpha_punch && p[3] < 128 {
            3
        } else {
            let mut best = 0usize;
            let mut best_d = i32::MAX;
            for (j, c) in colors.iter().enumerate() {
                let d = sqr3([p[0], p[1], p[2]], *c);
                if d < best_d {
                    best_d = d;
                    best = j;
                }
            }
            best
        };
        table |= (idx as u32) << (2 * i);
    }
    table
}

fn pack_bc1(pixels: [[u8; 4]; 16], max_c: [u8; 3], min_c: [u8; 3]) -> [u8; 8] {
    let mut max565 = to_565(max_c);
    let min565 = to_565(min_c);
    if max565 == min565 {
        max565 = max565.saturating_add(1);
    }
    let (c0, c1, table) = if max565 != min565 {
        let (hi, lo) = (max565.max(min565), max565.min(min565));
        let colors = [
            from_565(hi),
            from_565(lo),
            lerp_rgb::<2, 1>(from_565(hi), from_565(lo)),
            lerp_rgb::<1, 2>(from_565(hi), from_565(lo)),
        ];
        (hi, lo, nearest_table(&pixels, &colors, false))
    } else {
        let colors = [
            from_565(min565),
            from_565(max565),
            lerp_rgb::<1, 1>(from_565(min565), from_565(max565)),
            [0, 0, 0],
        ];
        (min565, max565, nearest_table(&pixels, &colors, true))
    };
    let mut out = [0u8; 8];
    out[0..2].copy_from_slice(&c0.to_le_bytes());
    out[2..4].copy_from_slice(&c1.to_le_bytes());
    out[4..8].copy_from_slice(&table.to_le_bytes());
    out
}

fn bc1_sse(pixels: &[[u8; 4]; 16], block: &[u8]) -> i32 {
    let c0 = u16::from_le_bytes([block[0], block[1]]);
    let c1 = u16::from_le_bytes([block[2], block[3]]);
    let table = u32::from_le_bytes([block[4], block[5], block[6], block[7]]);
    let colors = if c0 > c1 {
        [
            from_565(c0),
            from_565(c1),
            lerp_rgb::<2, 1>(from_565(c0), from_565(c1)),
            lerp_rgb::<1, 2>(from_565(c0), from_565(c1)),
        ]
    } else {
        [
            from_565(c0),
            from_565(c1),
            lerp_rgb::<1, 1>(from_565(c0), from_565(c1)),
            [0, 0, 0],
        ]
    };
    let mut err = 0i32;
    for (i, p) in pixels.iter().enumerate() {
        let idx = ((table >> (2 * i)) & 3) as usize;
        err += sqr3([p[0], p[1], p[2]], colors[idx]);
    }
    err
}

#[test]
fn bc1_scored_matches_pack_plus_sse() {
    let mut state = 0x243F6A8885A308D3u64;
    let mut rng = move || {
        state ^= state << 13;
        state ^= state >> 7;
        state ^= state << 17;
        state
    };
    for case in 0..200_000 {
        let mut px = [[0u8; 4]; 16];
        let flat = case % 7 == 0;
        let base = (rng() & 0xFF) as u8;
        for p in px.iter_mut() {
            let r = rng();
            if flat {
                p[0] = base.wrapping_add((r & 3) as u8);
                p[1] = base.wrapping_add(((r >> 2) & 3) as u8);
                p[2] = base.wrapping_add(((r >> 4) & 3) as u8);
            } else {
                p[0] = (r & 0xFF) as u8;
                p[1] = ((r >> 8) & 0xFF) as u8;
                p[2] = ((r >> 16) & 0xFF) as u8;
            }
            p[3] = if case % 5 == 0 && (r >> 24) & 3 == 0 {
                ((r >> 26) & 0x7F) as u8
            } else {
                255
            };
        }
        let e0 = [(rng() & 0xFF) as u8, (rng() & 0xFF) as u8, (rng() & 0xFF) as u8];
        let e1 = [(rng() & 0xFF) as u8, (rng() & 0xFF) as u8, (rng() & 0xFF) as u8];
        let old_block = pack_bc1(px, e0, e1);
        let old_err = bc1_sse(&px, &old_block);
        let (new_block, new_err) = pack_bc1_scored(&px, e0, e1, i32::MAX).expect("unbounded");
        assert!(new_err >= old_err, "fast beat exhaustive?! (case {case})");
        assert!(
            new_err <= old_err + old_err / 100 + 32,
            "projection fit degraded SSE beyond contract (case {case}): {new_err} vs {old_err}"
        );
        if new_block != old_block {
            assert!(new_err >= old_err);
        }
        // A limit equal to the error is not below it.
        assert!(pack_bc1_scored(&px, e0, e1, new_err).is_none());
        if new_err > 0 {
            assert!(pack_bc1_scored(&px, e0, e1, new_err + 1).is_some());
        }
    }
}

fn fit_exhaustive(pixels: &[[u8; 4]; 16], pal: &[[u8; 4]; 16]) -> ([u8; 16], i64) {
    let mut indices = [0u8; 16];
    let mut err = 0i64;
    for (i, px) in pixels.iter().enumerate() {
        let mut best = (0u8, i32::MAX);
        for (k, p) in pal.iter().enumerate() {
            let mut e = 0i32;
            for c in 0..4 {
                let d = p[c] as i32 - px[c] as i32;
                e += d * d;
            }
            if e < best.1 {
                best = (k as u8, e);
            }
        }
        indices[i] = best.0;
        err += best.1 as i64;
    }
    (indices, err)
}

#[test]
fn mode6_projection_matches_exhaustive() {
    let mut state = 0x9E3779B97F4A7C15u64;
    let mut rng = move || {
        state ^= state << 13;
        state ^= state >> 7;
        state ^= state << 17;
        state
    };
    for case in 0..400_000u32 {
        let r = rng();
        let e0 = [
            (r & 0xFF) as u8,
            ((r >> 8) & 0xFF) as u8,
            ((r >> 16) & 0xFF) as u8,
            ((r >> 24) & 0xFF) as u8,
        ];
        let e1 = if case % 4 == 0 {
            let s = rng();
            let mut v = [0u8; 4];
            for c in 0..4 {
                let d = ((s >> (8 * c)) & 0xF) as i32 - 8;
                v[c] = (e0[c] as i32 + d).clamp(0, 255) as u8;
            }
            v
        } else {
            let s = rng();
            [
                (s & 0xFF) as u8,
                ((s >> 8) & 0xFF) as u8,
                ((s >> 16) & 0xFF) as u8,
                ((s >> 24) & 0xFF) as u8,
            ]
        };
        let (q0, p0) = quantize_7p(e0);
        let (q1, p1) = quantize_7p(e1);
        let pal = palette_mode6(unquantize_7p(q0, p0), unquantize_7p(q1, p1));
        let mut px = [[0u8; 4]; 16];
        for p in px.iter_mut() {
            let r = rng();
            if r & 1 == 0 {
                let k = ((r >> 1) & 15) as usize;
                for c in 0..4 {
                    let n = ((r >> (8 + 8 * c)) & 7) as i32 - 3;
                    p[c] = (pal[k][c] as i32 + n).clamp(0, 255) as u8;
                }
            } else {
                p[0] = (r >> 8) as u8;
                p[1] = (r >> 16) as u8;
                p[2] = (r >> 24) as u8;
                p[3] = (r >> 32) as u8;
            }
        }
        let fast = fit_indices_mode6(&px, &pal);
        let slow = fit_exhaustive(&px, &pal);
        assert!(fast.1 >= slow.1, "fast beat exhaustive?! (case {case})");
        assert!(
            fast.1 <= slow.1 + slow.1 / 100 + 16,
            "projection fit degraded SSE beyond contract (case {case}): {} vs {}",
            fast.1,
            slow.1
        );
    }
}

#[test]
fn round_clamp_u8_matches_round_then_clamp() {
    let mut cases: Vec<f32> = vec![
        0.0, -0.0, -0.5, 0.5, 1.5, 2.5, -1.5, 254.5, 255.0, 255.5, 256.0,
        -1.0, 300.0, -300.0, 0.49999997, -0.49999997, 127.5, 128.5,
        f32::MIN_POSITIVE, -f32::MIN_POSITIVE,
    ];
    let mut state = 0x9e37_79b9_7f4a_7c15u64;
    let mut next = move || {
        state ^= state << 13;
        state ^= state >> 7;
        state ^= state << 17;
        state
    };
    for _ in 0..200_000 {
        let r = next();
        cases.push((r as u32 as f32 / u32::MAX as f32) * 600.0 - 50.0);
        cases.push(f32::from_bits((r >> 32) as u32));
    }
    for x in cases {
        if x.is_nan() {
            continue;
        }
        let want = x.round().clamp(0.0, 255.0) as u8;
        assert_eq!(round_clamp_u8(x.to_bits()), want, "x = {x:?} ({:#x})", x.to_bits());
    }
}

#[test]
fn round_clamp_snorm_matches_round_then_clamp() {
    let mut cases: Vec<f32> = vec![
        0.0, -0.0, 0.5, -0.5, 1.5, -1.5, 2.5, -2.5, 126.5, -126.5, 127.0,
        -127.0, 127.5, -127.5, 128.0, -300.0, 300.0, 0.49999997, -0.49999997,
        f32::MIN_POSITIVE, -f32::MIN_POSITIVE, f32::INFINITY, f32::NEG_INFINITY,
    ];
    for k in -127i32..127 {
        let tie = k as f32 + 0.5;
        cases.push(tie);
        cases.push(f32::from_bits(tie.to_bits() - 1));
        cases.push(f32::from_bits(tie.to_bits() + 1));
    }
    let mut state = 0x517e_57a7_e0f3_2b1du64;
    let mut next = move || {
        state ^= state << 13;
        state ^= state >> 7;
        state ^= state << 17;
        state
    };
    for _ in 0..200_000 {
        let r = next();
        cases.push((r as u32 as f32 / u32::MAX as f32) * 600.0 - 300.0);
        cases.push(f32::from_bits((r >> 32) as u32));
    }
    for x in cases {
        if x.is_nan() {
            continue;
        }
        let want = x.round().clamp(-127.0, 127.0) as i32;
        assert_eq!(round_clamp_snorm(x.to_bits()), want, "x = {x:?} ({:#x})", x.to_bits());
    }
}

#[test]
fn ceil_i32_matches_ceil() {
    let mut cases: Vec<f32> = vec![
        0.0, -0.0, 0.5, -0.5, 1.0, -1.0, 2.5, -2.5, 0.49999997, -0.49999997,
        2147483000.0, 2147483648.0, -2147483648.0, 3e9, -3e9, 1e38, -1e38,
        f32::INFINITY, f32::NEG_INFINITY, f32::MIN_POSITIVE, -f32::MIN_POSITIVE,
    ];
    let mut state = 0xce11_a51d_2026_08_26u64;
    let mut next = move || {
        state ^= state << 13;
        state ^= state >> 7;
        state ^= state << 17;
        state
    };
    for _ in 0..200_000 {
        let r = next();
        cases.push((r as u32 as f32 / u32::MAX as f32) * 4_000_000.0 - 1_000_000.0);
        cases.push(f32::from_bits((r >> 32) as u32));
    }
    for x in cases {
        if x.is_nan() {
            continue;
        }
        let want = x.ceil() as i32;
        assert_eq!(ceil_i32(x.to_bits()), want, "x = {x:?} ({:#x})", x.to_bits());
    }
}

#[test]
fn extrema_avx2_match_scalar() {
    fn rgba_ref(px: &[[u8; 4]; 16]) -> ([u8; 4], [u8; 4]) {
        let (mut min_l, mut max_l) = (i32::MAX, i32::MIN);
        let (mut min_p, mut max_p) = ([0u8; 4], [255u8; 4]);
        for p in px {
            let l = p[0] as i32 + p[1] as i32 + p[2] as i32 + p[3] as i32;
            if l < min_l {
                min_l = l;
                min_p = *p;
            }
            if l > max_l {
                max_l = l;
                max_p = *p;
            }
        }
        (max_p, min_p)
    }
    fn opaque_ref(px: &[[u8; 4]; 16]) -> ([u8; 3], [u8; 3]) {
        let (mut min_l, mut max_l) = (i32::MAX, i32::MIN);
        let (mut min_rgb, mut max_rgb) = ([0u8; 3], [0u8; 3]);
        for p in px {
            let l = p[0] as i32 * 2 + p[1] as i32 * 3 + p[2] as i32;
            if l < min_l {
                min_l = l;
                min_rgb = [p[0], p[1], p[2]];
            }
            if l > max_l {
                max_l = l;
                max_rgb = [p[0], p[1], p[2]];
            }
        }
        (max_rgb, min_rgb)
    }
    let mut state = 0xe87a_11e5_2026_0826u64;
    let mut next = move || {
        state ^= state << 13;
        state ^= state >> 7;
        state ^= state << 17;
        state
    };
    for case in 0..120_000u32 {
        let mut px = [[0u8; 4]; 16];
        match case {
            0 => {}
            1 => px = [[7, 31, 255, 12]; 16],
            _ => {
                for p in px.iter_mut() {
                    let r = next();
                    *p = [r as u8, (r >> 8) as u8, (r >> 16) as u8, (r >> 24) as u8];
                }
                let i = (next() as usize) & 15;
                let j = (next() as usize) & 15;
                let p = px[i];
                match case & 3 {
                    0 => px[j] = [p[2], p[1], p[0], p[3]],
                    2 => px[j] = p,
                    _ => {}
                }
            }
        }
        assert_eq!(extrema_rgba(&px), rgba_ref(&px), "rgba case {case} px={px:?}");
        assert_eq!(extrema_opaque(&px), opaque_ref(&px), "opaque case {case} px={px:?}");
    }
}
