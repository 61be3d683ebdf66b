use rusty_dds::binary32::{add32, div32, from_int32, less32, mul32, sqrt32, sub32};

fn same(got: u32, want: f32, what: &str, a: u32, b: u32) {
    if want.is_nan() {
        assert!(f32::from_bits(got).is_nan(), "{what} {a:#x} {b:#x}: {got:#x}");
    } else {
        assert_eq!(got, want.to_bits(), "{what} {a:#x} {b:#x}");
    }
}

fn check(a: u32, b: u32) {
    let (x, y) = (f32::from_bits(a), f32::from_bits(b));
    same(add32(a, b), x + y, "add", a, b);
    same(sub32(a, b), x - y, "sub", a, b);
    same(mul32(a, b), x * y, "mul", a, b);
    same(div32(a, b), x / y, "div", a, b);
    same(sqrt32(a), x.sqrt(), "sqrt", a, b);
    assert_eq!(less32(a, b), x < y, "less {a:#x} {b:#x}");
}

/// Every operation rounds as the hardware does: zeros, subnormals, infinities,
/// ties and random patterns.
#[test]
fn arithmetic_matches_the_hardware() {
    let edges = [
        0u32, 1, 2, 0x007F_FFFF, 0x0080_0000, 0x0080_0001, 0x3F7F_FFFF, 0x3F80_0000, 0x3F80_0001, 0x4000_0000,
        0x4B7F_FFFF, 0x4B80_0000, 0x7F7F_FFFF, 0x7F80_0000, 0x7FC0_0000, 0x7F80_0001,
    ];
    for &a in &edges {
        for &b in &edges {
            for s in 0..4u32 {
                check(a | (s & 1) << 31, b | (s >> 1) << 31);
            }
        }
    }
    let mut state = 0x0123_4567_89ab_cdefu64;
    let mut next = move || {
        state ^= state << 13;
        state ^= state >> 7;
        state ^= state << 17;
        state
    };
    for _ in 0..200_000 {
        let r = next();
        check(r as u32, (r >> 32) as u32);
        // Close exponents, where additions cancel and round.
        let e = 0x3F00_0000 + ((r >> 40) as u32 & 0x0FFF_FFFF) % 0x0200_0000;
        check(e, e ^ (next() as u32 & 0x80FF_FFFF));
    }
}

#[test]
fn integers_round_as_the_hardware_casts() {
    let mut state = 0xfeed_f00d_dead_beefu64;
    let mut next = move || {
        state ^= state << 13;
        state ^= state >> 7;
        state ^= state << 17;
        state
    };
    for n in -300i64..300 {
        assert_eq!(from_int32(n), (n as f32).to_bits(), "{n}");
    }
    for _ in 0..100_000 {
        let n = (next() >> (next() % 40 + 24)) as i64;
        assert_eq!(from_int32(n), (n as f32).to_bits(), "{n}");
        assert_eq!(from_int32(-n), (-n as f32).to_bits(), "-{n}");
    }
}
