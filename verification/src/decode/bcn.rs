//! Block-compressed decode.
//!
//! BC7 modes 1, 3 and 6 are decoded here; every other block goes to the general
//! decoder. A block decodes to sixteen RGBA texels, and a surface takes from
//! each block the texels that lie inside it.

use vstd::arithmetic::power2::{lemma_pow2_pos, pow2};
use vstd::prelude::*;

use crate::content::{product3, DecodeContent};
use crate::decode::bcdec::{bc1_texels, bc2_texels, bc3_texels, bc4_bytes, bc7_texels, general_bc1, general_bc2, general_bc3, general_bc4, general_bc5, general_bc7};
use crate::encode::blocks::bc7::{interp64, interpolate, stretch7, weight2, weight3, weight4, weights2, weights3, weights4};
use crate::encode::blocks::m1::level6_byte;
use crate::encode::blocks::{block_count, blocks_across, stretch5, stretch6};
use crate::error::Error;
use crate::model::{bit_field, digit, power_of_two};

verus! {

/// The two-subset partitions of BC7: bit `p` is set where pixel `p`, in row
/// order, belongs to subset 1.
pub const BC7_P2_SUBSET: [u16; 64] = [
    0xcccc, 0x8888, 0xeeee, 0xecc8, 0xc880, 0xfeec, 0xfec8, 0xec80,
    0xc800, 0xffec, 0xfe80, 0xe800, 0xffe8, 0xff00, 0xfff0, 0xf000,
    0xf710, 0x008e, 0x7100, 0x08ce, 0x008c, 0x7310, 0x3100, 0x8cce,
    0x088c, 0x3110, 0x6666, 0x366c, 0x17e8, 0x0ff0, 0x718e, 0x399c,
    0xaaaa, 0xf0f0, 0x5a5a, 0x33cc, 0x3c3c, 0x55aa, 0x9696, 0xa55a,
    0x73ce, 0x13c8, 0x324c, 0x3bdc, 0x6996, 0xc33c, 0x9966, 0x0660,
    0x0272, 0x04e4, 0x4e40, 0x2720, 0xc936, 0x936c, 0x39c6, 0x639c,
    0x9336, 0x9cc6, 0x817e, 0xe718, 0xccf0, 0x0fcc, 0x7744, 0xee22,
];

/// The pixel that carries subset 1's fix-up index, for each partition. Subset
/// 0's is pixel 0. Both are stored with one bit fewer.
pub const BC7_P2_FIXUP: [u8; 64] = [
    15, 15, 15, 15, 15, 15, 15, 15, 15, 15, 15, 15, 15, 15, 15, 15,
    15, 2, 8, 2, 2, 8, 8, 15, 2, 8, 2, 2, 8, 8, 2, 2,
    15, 15, 6, 8, 2, 8, 15, 15, 2, 8, 2, 2, 2, 15, 15, 6,
    6, 2, 6, 8, 15, 15, 2, 2, 15, 15, 15, 15, 15, 2, 2, 15,
];

/// The subset, 0 or 1, of pixel `p` in a two-subset partition.
pub open spec fn subset_of(part: int, p: int) -> int {
    digit(BC7_P2_SUBSET@[part] as int, 2, p as nat)
}

/// The pixel that carries subset 1's fix-up index.
pub open spec fn fixup_of(part: int) -> int {
    BC7_P2_FIXUP@[part] as int
}

/// The subset of each pixel in a two-subset partition.
pub fn subsets_of(part: usize) -> (s: [u8; 16])
    requires
        part < 64,
    ensures
        forall|p: int| 0 <= p < 16 ==> #[trigger] s@[p] == subset_of(part as int, p),
        forall|p: int| 0 <= p < 16 ==> #[trigger] s@[p] < 2,
{
    let mask: u16 = BC7_P2_SUBSET[part];
    let mut s: [u8; 16] = [0u8; 16];
    let mut t: u16 = mask;
    let mut p: usize = 0;
    while p < 16
        invariant
            p <= 16,
            forall|k: nat| k < 16 - p ==> digit(t as int, 2, k) == #[trigger] digit(mask as int, 2, (p + k) as nat),
            forall|k: int| 0 <= k < p ==> #[trigger] s@[k] == digit(mask as int, 2, k as nat),
            forall|k: int| 0 <= k < p ==> #[trigger] s@[k] < 2,
        decreases 16 - p,
    {
        proof {
            assert(digit(t as int, 2, 0) == digit(mask as int, 2, (p + 0) as nat));
        }
        s[p] = (t % 2) as u8;
        proof {
            assert forall|k: nat| k < 16 - (p + 1) implies digit((t / 2) as int, 2, k) == #[trigger] digit(
                mask as int,
                2,
                (p + 1 + k) as nat,
            ) by {
                assert(digit(t as int, 2, k + 1) == digit(mask as int, 2, (p + (k + 1)) as nat));
            }
        }
        t = t / 2;
        p = p + 1;
    }
    s
}

/// Every partition gives pixel 0 to subset 0 and its fix-up pixel, which is
/// not pixel 0, to subset 1.
pub proof fn law_partitions_use_both_subsets(part: int)
    requires
        0 <= part < 64,
    ensures
        subset_of(part, 0) == 0,
        1 <= fixup_of(part) < 16,
        subset_of(part, fixup_of(part)) == 1,
{
    reveal_with_fuel(digit, 16);
}

/// A block as the number whose low byte is its first byte.
pub open spec fn block_number(block: Seq<u8>, i: nat) -> int
    decreases block.len() - i,
{
    if i >= block.len() {
        0
    } else {
        block[i as int] + 256 * block_number(block, i + 1)
    }
}

/// The sixteen bytes of a block as a number, low byte first.
pub fn read_block(block: &[u8]) -> (v: u128)
    requires
        block@.len() == 16,
    ensures
        v == block_number(block@, 0),
{
    let mut v: u128 = 0;
    let mut i: usize = 16;
    while i > 0
        invariant
            i <= 16,
            block@.len() == 16,
            v == block_number(block@, i as nat),
            i < 16 ==> v < pow2((8 * (16 - i)) as nat),
            i == 16 ==> v == 0,
        decreases i,
    {
        proof {
            let e = (8 * (16 - i)) as nat;
            vstd::arithmetic::power2::lemma_pow2_adds(e, 8);
            vstd::arithmetic::power2::lemma2_to64();
            vstd::arithmetic::power2::lemma_pow2_adds(64, 64);
            assert(v < pow2(e));
            if e + 8 < 128 {
                vstd::arithmetic::power2::lemma_pow2_strictly_increases(e + 8, 128);
            }
            assert(pow2(128) == 0x1_0000_0000_0000_0000 * 0x1_0000_0000_0000_0000);
        }
        i = i - 1;
        v = block[i] as u128 + 256 * v;
    }
    v
}

/// The `n` bits of `v` from bit `off` up.
pub fn read_bits(v: u128, off: u32, n: u32) -> (r: u32)
    requires
        off < 128,
        n <= 16,
    ensures
        r == bit_field(v as int, off as nat, n as nat),
        r < pow2(n as nat),
{
    let p: u128 = power_of_two(off);
    let m: u128 = power_of_two(n);
    proof {
        lemma_pow2_pos(off as nat);
        lemma_pow2_pos(n as nat);
        vstd::arithmetic::power2::lemma2_to64();
        if n < 16 {
            vstd::arithmetic::power2::lemma_pow2_strictly_increases(n as nat, 16);
        }
    }
    ((v / p) % m) as u32
}

/// The bit offset of pixel `p`'s index in a two-subset block with `bits`-wide
/// indices that start at bit `base`: the anchors before `p` took one bit fewer.
pub open spec fn index_offset(base: int, bits: int, fixup: int, p: int) -> int {
    base + bits * p - (if p > 0 {
        1int
    } else {
        0
    }) - (if p > fixup {
        1int
    } else {
        0
    })
}

/// The width of pixel `p`'s index: the anchors are one bit narrower.
pub open spec fn index_width(bits: int, fixup: int, p: int) -> int {
    if p == 0 || p == fixup {
        bits - 1
    } else {
        bits
    }
}

/// The bit offset, from the first index, and the width of pixel `p`'s index.
pub fn bc7_p2_index_at(p: usize, fixup: usize, bits: u32) -> (r: (u32, u32))
    requires
        p < 16,
        1 <= fixup < 16,
        bits == 2 || bits == 3,
    ensures
        r.0 == index_offset(0, bits as int, fixup as int, p as int),
        r.1 == index_width(bits as int, fixup as int, p as int),
        r.0 < 46,
        1 <= r.1 <= 3,
{
    let first: u32 = if p > 0 {
        1
    } else {
        0
    };
    let second: u32 = if p > fixup {
        1
    } else {
        0
    };
    let w: u32 = if p == 0 || p == fixup {
        bits - 1
    } else {
        bits
    };
    if bits == 2 {
        (2 * (p as u32) - first - second, w)
    } else {
        (3 * (p as u32) - first - second, w)
    }
}

/// Endpoint `e` (0..4) and channel `c` of a mode 1 block.
pub open spec fn mode1_endpoint(v: int, e: int, c: int) -> int {
    level6_byte(bit_field(v, (8 + 24 * c + 6 * e) as nat, 6), bit_field(v, (80 + e / 2) as nat, 1))
}

/// The four bytes of pixel `p` of a mode 1 block.
pub open spec fn mode1_texel(v: int, p: int, c: int) -> int {
    let part = bit_field(v, 2, 6);
    let fixup = fixup_of(part);
    let w = weights3()[bit_field(
        v,
        index_offset(82, 3, fixup, p) as nat,
        index_width(3, fixup, p) as nat,
    )];
    let s = subset_of(part, p);
    if c == 3 {
        255
    } else {
        interp64(w, mode1_endpoint(v, 2 * s, c), mode1_endpoint(v, 2 * s + 1, c))
    }
}

/// Endpoint `e` (0..4) and channel `c` of a mode 3 block.
pub open spec fn mode3_endpoint(v: int, e: int, c: int) -> int {
    2 * bit_field(v, (10 + 28 * c + 7 * e) as nat, 7) + bit_field(v, (94 + e) as nat, 1)
}

/// The four bytes of pixel `p` of a mode 3 block.
pub open spec fn mode3_texel(v: int, p: int, c: int) -> int {
    let part = bit_field(v, 4, 6);
    let fixup = fixup_of(part);
    let w = weights2()[bit_field(
        v,
        index_offset(98, 2, fixup, p) as nat,
        index_width(2, fixup, p) as nat,
    )];
    let s = subset_of(part, p);
    if c == 3 {
        255
    } else {
        interp64(w, mode3_endpoint(v, 2 * s, c), mode3_endpoint(v, 2 * s + 1, c))
    }
}

/// Channel `c` of endpoint `e` (0 or 1) of a mode 6 block.
pub open spec fn mode6_endpoint(v: int, e: int, c: int) -> int {
    2 * bit_field(v, (7 + 14 * c + 7 * e) as nat, 7) + bit_field(v, (63 + e) as nat, 1)
}

/// The index of pixel `p` of a mode 6 block.
pub open spec fn mode6_index(v: int, p: int) -> int {
    if p == 0 {
        bit_field(v, 65, 3)
    } else {
        bit_field(v, (64 + 4 * p) as nat, 4)
    }
}

/// The four bytes of pixel `p` of a mode 6 block.
pub open spec fn mode6_texel(v: int, p: int, c: int) -> int {
    interp64(weights4()[mode6_index(v, p)], mode6_endpoint(v, 0, c), mode6_endpoint(v, 1, c))
}

/// The index of pixel `p` where the block has one subset and its `bits`-wide
/// indices start at bit `base`: pixel 0's is one bit narrower.
pub open spec fn lone_index(v: int, base: int, bits: int, p: int) -> int {
    if p == 0 {
        bit_field(v, base as nat, (bits - 1) as nat)
    } else {
        bit_field(v, (base + bits * p - 1) as nat, bits as nat)
    }
}

/// Channel `c` of endpoint `e` (0 or 1) of a mode 4 block: 5-bit colour and
/// 6-bit alpha levels.
pub open spec fn mode4_endpoint(v: int, e: int, c: int) -> int {
    if c < 3 {
        stretch5(bit_field(v, (8 + 10 * c + 5 * e) as nat, 5))
    } else {
        stretch6(bit_field(v, (38 + 6 * e) as nat, 6))
    }
}

/// The four bytes of pixel `p` of a mode 4 block without rotation whose colour
/// takes the 2-bit indices and whose alpha takes the 3-bit ones.
pub open spec fn mode4_texel(v: int, p: int, c: int) -> int {
    let w = if c < 3 {
        weights2()[lone_index(v, 50, 2, p)]
    } else {
        weights3()[lone_index(v, 81, 3, p)]
    };
    interp64(w, mode4_endpoint(v, 0, c), mode4_endpoint(v, 1, c))
}

/// Channel `c` of endpoint `e` (0 or 1) of a mode 5 block: 7-bit colour and
/// 8-bit alpha levels.
pub open spec fn mode5_endpoint(v: int, e: int, c: int) -> int {
    if c < 3 {
        stretch7(bit_field(v, (8 + 14 * c + 7 * e) as nat, 7))
    } else {
        bit_field(v, (50 + 8 * e) as nat, 8)
    }
}

/// The four bytes of pixel `p` of a mode 5 block before its rotation.
pub open spec fn mode5_unrotated(v: int, p: int, c: int) -> int {
    let w = if c < 3 {
        weights2()[lone_index(v, 66, 2, p)]
    } else {
        weights2()[lone_index(v, 97, 2, p)]
    };
    interp64(w, mode5_endpoint(v, 0, c), mode5_endpoint(v, 1, c))
}

/// The channel that a rotation shows as channel `c`: rotations 1, 2 and 3
/// exchange alpha with red, green and blue.
pub open spec fn turned(rotation: int, c: int) -> int {
    if rotation == 0 {
        c
    } else if c == 3 {
        rotation - 1
    } else if c == rotation - 1 {
        3
    } else {
        c
    }
}

/// The four bytes of pixel `p` of a mode 5 block.
pub open spec fn mode5_texel(v: int, p: int, c: int) -> int {
    mode5_unrotated(v, p, turned(bit_field(v, 6, 2), c))
}

/// Sixteen RGBA texels given by pixel and channel.
pub open spec fn texels_by(f: spec_fn(int, int) -> int) -> Seq<u8> {
    Seq::new(64, |k: int| f(k / 4, k % 4) as u8)
}

/// The texels of a mode 6 block.
pub open spec fn mode6_texels(block: Seq<u8>) -> Seq<u8> {
    texels_by(|p: int, c: int| mode6_texel(block_number(block, 0), p, c))
}

/// The texels of a mode 1 block.
pub open spec fn mode1_texels(block: Seq<u8>) -> Seq<u8> {
    texels_by(|p: int, c: int| mode1_texel(block_number(block, 0), p, c))
}

/// The texels of a mode 3 block.
pub open spec fn mode3_texels(block: Seq<u8>) -> Seq<u8> {
    texels_by(|p: int, c: int| mode3_texel(block_number(block, 0), p, c))
}

/// The texels of a mode 4 block without rotation whose colour takes the 2-bit
/// indices.
pub open spec fn mode4_texels(block: Seq<u8>) -> Seq<u8> {
    texels_by(|p: int, c: int| mode4_texel(block_number(block, 0), p, c))
}

/// The texels of a mode 5 block.
pub open spec fn mode5_texels(block: Seq<u8>) -> Seq<u8> {
    texels_by(|p: int, c: int| mode5_texel(block_number(block, 0), p, c))
}

/// The sixteen RGBA texels of a BC7 block. The mode is unary: as many zero bits
/// as its number, then a one.
pub open spec fn bc7_rgba(block: Seq<u8>) -> Seq<u8> {
    if block[0] % 128 == 64 {
        mode6_texels(block)
    } else if block[0] % 4 == 2 {
        mode1_texels(block)
    } else if block[0] % 16 == 8 {
        mode3_texels(block)
    } else if block[0] == 0x10 {
        mode4_texels(block)
    } else if block[0] % 64 == 32 {
        mode5_texels(block)
    } else {
        bc7_texels(block)
    }
}

fn seven_and_bit(v: u128, off: u32, bit: u32) -> (b: u8)
    requires
        off < 128,
        bit < 128,
    ensures
        b == 2 * bit_field(v as int, off as nat, 7) + bit_field(v as int, bit as nat, 1),
{
    proof {
        vstd::arithmetic::power2::lemma2_to64();
    }
    (2 * read_bits(v, off, 7) + read_bits(v, bit, 1)) as u8
}

/// Decodes a mode 6 block; none for any other block. The high bit of the first
/// byte is no part of the mode: it is the first endpoint's low red bit.
pub fn bc7_mode6_block(block: &[u8]) -> (r: Option<[u8; 64]>)
    requires
        block@.len() == 16,
    ensures
        r is Some <==> block@[0] % 128 == 64,
        r matches Some(px) ==> px@ == mode6_texels(block@),
{
    if block[0] % 128 != 64 {
        return None;
    }
    let v: u128 = read_block(block);
    let ghost n = v as int;
    let e0: [u8; 4] = [
        seven_and_bit(v, 7, 63),
        seven_and_bit(v, 21, 63),
        seven_and_bit(v, 35, 63),
        seven_and_bit(v, 49, 63),
    ];
    let e1: [u8; 4] = [
        seven_and_bit(v, 14, 64),
        seven_and_bit(v, 28, 64),
        seven_and_bit(v, 42, 64),
        seven_and_bit(v, 56, 64),
    ];
    proof {
        assert(forall|c: int| 0 <= c < 4 ==> #[trigger] e0@[c] == mode6_endpoint(n, 0, c));
        assert(forall|c: int| 0 <= c < 4 ==> #[trigger] e1@[c] == mode6_endpoint(n, 1, c));
    }
    let mut px: [u8; 64] = [0u8; 64];
    let mut p: usize = 0;
    while p < 16
        invariant
            p <= 16,
            n == v as int,
            forall|c: int| 0 <= c < 4 ==> #[trigger] e0@[c] == mode6_endpoint(n, 0, c),
            forall|c: int| 0 <= c < 4 ==> #[trigger] e1@[c] == mode6_endpoint(n, 1, c),
            forall|k: int| 0 <= k < 4 * p ==> #[trigger] px@[k] == mode6_texel(n, k / 4, k % 4) as u8,
        decreases 16 - p,
    {
        proof {
            vstd::arithmetic::power2::lemma2_to64();
        }
        let k: u32 = if p == 0 {
            read_bits(v, 65, 3)
        } else {
            read_bits(v, 64 + 4 * (p as u32), 4)
        };
        let w: u32 = weight4(k as usize);
        px[4 * p] = interpolate(w, e0[0], e1[0]);
        px[4 * p + 1] = interpolate(w, e0[1], e1[1]);
        px[4 * p + 2] = interpolate(w, e0[2], e1[2]);
        px[4 * p + 3] = interpolate(w, e0[3], e1[3]);
        p = p + 1;
    }
    proof {
        assert(px@ =~= mode6_texels(block@));
    }
    Some(px)
}

fn six_and_bit(v: u128, off: u32, bit: u32) -> (b: u8)
    requires
        off < 128,
        bit < 128,
    ensures
        b == level6_byte(bit_field(v as int, off as nat, 6), bit_field(v as int, bit as nat, 1)),
{
    proof {
        vstd::arithmetic::power2::lemma2_to64();
    }
    let t: u32 = 2 * read_bits(v, off, 6) + read_bits(v, bit, 1);
    (2 * t + t / 64) as u8
}

/// Decodes a mode 1 block; none for any other block.
pub fn bc7_mode1_block(block: &[u8]) -> (r: Option<[u8; 64]>)
    requires
        block@.len() == 16,
    ensures
        r is Some <==> block@[0] % 4 == 2,
        r matches Some(px) ==> px@ == mode1_texels(block@),
{
    if block[0] % 4 != 2 {
        return None;
    }
    let v: u128 = read_block(block);
    let ghost n = v as int;
    proof {
        vstd::arithmetic::power2::lemma2_to64();
    }
    let part: usize = read_bits(v, 2, 6) as usize;
    let sub: [u8; 16] = subsets_of(part);
    let fixup: usize = BC7_P2_FIXUP[part] as usize;
    proof {
        law_partitions_use_both_subsets(part as int);
    }
    let e: [[u8; 3]; 4] = [
        [six_and_bit(v, 8, 80), six_and_bit(v, 32, 80), six_and_bit(v, 56, 80)],
        [six_and_bit(v, 14, 80), six_and_bit(v, 38, 80), six_and_bit(v, 62, 80)],
        [six_and_bit(v, 20, 81), six_and_bit(v, 44, 81), six_and_bit(v, 68, 81)],
        [six_and_bit(v, 26, 81), six_and_bit(v, 50, 81), six_and_bit(v, 74, 81)],
    ];
    proof {
        assert forall|i: int, c: int| 0 <= i < 4 && 0 <= c < 3 implies #[trigger] e@[i]@[c] == mode1_endpoint(n, i, c) by {
            assert(i == 0 || i == 1 || i == 2 || i == 3);
            assert(c == 0 || c == 1 || c == 2);
        }
    }
    let mut px: [u8; 64] = [0u8; 64];
    let mut p: usize = 0;
    while p < 16
        invariant
            p <= 16,
            n == v as int,
            part == bit_field(n, 2, 6),
            fixup == fixup_of(part as int),
            1 <= fixup < 16,
            forall|p: int| 0 <= p < 16 ==> #[trigger] sub@[p] == subset_of(part as int, p),
            forall|p: int| 0 <= p < 16 ==> #[trigger] sub@[p] < 2,
            forall|i: int, c: int| 0 <= i < 4 && 0 <= c < 3 ==> #[trigger] e@[i]@[c] == mode1_endpoint(n, i, c),
            forall|k: int| 0 <= k < 4 * p ==> #[trigger] px@[k] == mode1_texel(n, k / 4, k % 4) as u8,
        decreases 16 - p,
    {
        let (off, width) = bc7_p2_index_at(p, fixup, 3);
        proof {
            vstd::arithmetic::power2::lemma2_to64();
            if width < 3 {
                vstd::arithmetic::power2::lemma_pow2_strictly_increases(width as nat, 3);
            }
        }
        let w: u32 = weight3(read_bits(v, 82 + off, width) as usize);
        let s: usize = 2 * (sub[p] as usize);
        px[4 * p] = interpolate(w, e[s][0], e[s + 1][0]);
        px[4 * p + 1] = interpolate(w, e[s][1], e[s + 1][1]);
        px[4 * p + 2] = interpolate(w, e[s][2], e[s + 1][2]);
        px[4 * p + 3] = 255;
        p = p + 1;
    }
    proof {
        assert(px@ =~= mode1_texels(block@));
    }
    Some(px)
}

/// Decodes a mode 3 block; none for any other block.
pub fn bc7_mode3_block(block: &[u8]) -> (r: Option<[u8; 64]>)
    requires
        block@.len() == 16,
    ensures
        r is Some <==> block@[0] % 16 == 8,
        r matches Some(px) ==> px@ == mode3_texels(block@),
{
    if block[0] % 16 != 8 {
        return None;
    }
    let v: u128 = read_block(block);
    let ghost n = v as int;
    proof {
        vstd::arithmetic::power2::lemma2_to64();
    }
    let part: usize = read_bits(v, 4, 6) as usize;
    let sub: [u8; 16] = subsets_of(part);
    let fixup: usize = BC7_P2_FIXUP[part] as usize;
    proof {
        law_partitions_use_both_subsets(part as int);
    }
    let e: [[u8; 3]; 4] = [
        [seven_and_bit(v, 10, 94), seven_and_bit(v, 38, 94), seven_and_bit(v, 66, 94)],
        [seven_and_bit(v, 17, 95), seven_and_bit(v, 45, 95), seven_and_bit(v, 73, 95)],
        [seven_and_bit(v, 24, 96), seven_and_bit(v, 52, 96), seven_and_bit(v, 80, 96)],
        [seven_and_bit(v, 31, 97), seven_and_bit(v, 59, 97), seven_and_bit(v, 87, 97)],
    ];
    proof {
        assert forall|i: int, c: int| 0 <= i < 4 && 0 <= c < 3 implies #[trigger] e@[i]@[c] == mode3_endpoint(n, i, c) by {
            assert(i == 0 || i == 1 || i == 2 || i == 3);
            assert(c == 0 || c == 1 || c == 2);
        }
    }
    let mut px: [u8; 64] = [0u8; 64];
    let mut p: usize = 0;
    while p < 16
        invariant
            p <= 16,
            n == v as int,
            part == bit_field(n, 4, 6),
            fixup == fixup_of(part as int),
            1 <= fixup < 16,
            forall|p: int| 0 <= p < 16 ==> #[trigger] sub@[p] == subset_of(part as int, p),
            forall|p: int| 0 <= p < 16 ==> #[trigger] sub@[p] < 2,
            forall|i: int, c: int| 0 <= i < 4 && 0 <= c < 3 ==> #[trigger] e@[i]@[c] == mode3_endpoint(n, i, c),
            forall|k: int| 0 <= k < 4 * p ==> #[trigger] px@[k] == mode3_texel(n, k / 4, k % 4) as u8,
        decreases 16 - p,
    {
        let (off, width) = bc7_p2_index_at(p, fixup, 2);
        proof {
            vstd::arithmetic::power2::lemma2_to64();
            if width < 2 {
                vstd::arithmetic::power2::lemma_pow2_strictly_increases(width as nat, 2);
            }
        }
        let w: u32 = weight2(read_bits(v, 98 + off, width) as usize);
        let s: usize = 2 * (sub[p] as usize);
        px[4 * p] = interpolate(w, e[s][0], e[s + 1][0]);
        px[4 * p + 1] = interpolate(w, e[s][1], e[s + 1][1]);
        px[4 * p + 2] = interpolate(w, e[s][2], e[s + 1][2]);
        px[4 * p + 3] = 255;
        p = p + 1;
    }
    proof {
        assert(px@ =~= mode3_texels(block@));
    }
    Some(px)
}

/// Decodes a block of one of the modes handled here; none for any other block.
pub fn bc7_fast_block(block: &[u8]) -> (r: Option<[u8; 64]>)
    requires
        block@.len() == 16,
    ensures
        r is Some <==> block@[0] % 128 == 64 || block@[0] % 4 == 2 || block@[0] % 16 == 8,
        r matches Some(px) ==> px@ == bc7_rgba(block@),
{
    match bc7_mode6_block(block) {
        Some(px) => Some(px),
        None => match bc7_mode1_block(block) {
            Some(px) => Some(px),
            None => bc7_mode3_block(block),
        },
    }
}

/// Decodes any BC7 block.
pub fn bc7_block(block: &[u8]) -> (px: [u8; 64])
    requires
        block@.len() == 16,
    ensures
        px@ == bc7_rgba(block@),
{
    match bc7_fast_block(block) {
        Some(px) => px,
        None => general_bc7(block),
    }
}

/// Sixteen single-channel bytes as RGBA texels: green and blue zero, opaque.
pub open spec fn red_texels(r: Seq<u8>) -> Seq<u8> {
    Seq::new(
        64,
        |k: int|
            if k % 4 == 0 {
                r[k / 4]
            } else if k % 4 == 3 {
                255u8
            } else {
                0u8
            },
    )
}

/// Sixteen red and sixteen green bytes as RGBA texels: blue zero, opaque.
pub open spec fn red_green_texels(r: Seq<u8>, g: Seq<u8>) -> Seq<u8> {
    Seq::new(
        64,
        |k: int|
            if k % 4 == 0 {
                r[k / 4]
            } else if k % 4 == 1 {
                g[k / 4]
            } else if k % 4 == 3 {
                255u8
            } else {
                0u8
            },
    )
}

/// The sixteen RGBA texels, row by row, of one block.
pub open spec fn block_rgba(kind: DecodeContent, block: Seq<u8>) -> Seq<u8> {
    match kind {
        DecodeContent::Bc1 => bc1_texels(block),
        DecodeContent::Bc2 => bc2_texels(block),
        DecodeContent::Bc3 => bc3_texels(block),
        DecodeContent::Bc4UNorm => red_texels(bc4_bytes(block, false)),
        DecodeContent::Bc4SNorm => red_texels(bc4_bytes(block, true)),
        DecodeContent::Bc5UNorm => red_green_texels(bc4_bytes(block.take(8), false), bc4_bytes(block.skip(8), false)),
        DecodeContent::Bc5SNorm => red_green_texels(bc4_bytes(block.take(8), true), bc4_bytes(block.skip(8), true)),
        _ => bc7_rgba(block),
    }
}

fn expand_red(r: &[u8; 16]) -> (px: [u8; 64])
    ensures
        px@ == red_texels(r@),
{
    let mut px: [u8; 64] = [0u8; 64];
    let mut p: usize = 0;
    while p < 16
        invariant
            p <= 16,
            forall|k: int| 0 <= k < 4 * p ==> #[trigger] px@[k] == red_texels(r@)[k],
        decreases 16 - p,
    {
        px[4 * p] = r[p];
        px[4 * p + 1] = 0;
        px[4 * p + 2] = 0;
        px[4 * p + 3] = 255;
        p = p + 1;
    }
    proof {
        assert(px@ =~= red_texels(r@));
    }
    px
}

fn expand_red_green(rg: &[u8; 32], Ghost(r): Ghost<Seq<u8>>, Ghost(g): Ghost<Seq<u8>>) -> (px: [u8; 64])
    requires
        forall|i: int| 0 <= i < 16 ==> #[trigger] rg@[2 * i] == r[i],
        forall|i: int| 0 <= i < 16 ==> #[trigger] rg@[2 * i + 1] == g[i],
    ensures
        px@ == red_green_texels(r, g),
{
    let mut px: [u8; 64] = [0u8; 64];
    let mut p: usize = 0;
    while p < 16
        invariant
            p <= 16,
            forall|i: int| 0 <= i < 16 ==> #[trigger] rg@[2 * i] == r[i],
            forall|i: int| 0 <= i < 16 ==> #[trigger] rg@[2 * i + 1] == g[i],
            forall|k: int| 0 <= k < 4 * p ==> #[trigger] px@[k] == red_green_texels(r, g)[k],
        decreases 16 - p,
    {
        proof {
            assert(rg@[2 * (p as int)] == r[p as int]);
            assert(rg@[2 * (p as int) + 1] == g[p as int]);
        }
        px[4 * p] = rg[2 * p];
        px[4 * p + 1] = rg[2 * p + 1];
        px[4 * p + 2] = 0;
        px[4 * p + 3] = 255;
        p = p + 1;
    }
    proof {
        assert(px@ =~= red_green_texels(r, g));
    }
    px
}

/// Decodes one block to sixteen RGBA texels.
pub fn decode_block(kind: DecodeContent, block: &[u8]) -> (px: [u8; 64])
    requires
        kind.block_size() == Some(block@.len() as int),
    ensures
        px@ == block_rgba(kind, block@),
{
    match kind {
        DecodeContent::Bc1 => general_bc1(block),
        DecodeContent::Bc2 => general_bc2(block),
        DecodeContent::Bc3 => general_bc3(block),
        DecodeContent::Bc4UNorm => expand_red(&general_bc4(block, false)),
        DecodeContent::Bc4SNorm => expand_red(&general_bc4(block, true)),
        DecodeContent::Bc5UNorm => expand_red_green(
            &general_bc5(block, false),
            Ghost(bc4_bytes(block@.take(8), false)),
            Ghost(bc4_bytes(block@.skip(8), false)),
        ),
        DecodeContent::Bc5SNorm => expand_red_green(
            &general_bc5(block, true),
            Ghost(bc4_bytes(block@.take(8), true)),
            Ghost(bc4_bytes(block@.skip(8), true)),
        ),
        _ => bc7_block(block),
    }
}

/// Channel `c` of texel `t`, counted row by row over a surface `w` texels wide,
/// of a payload of blocks of `b` bytes that decode to `texels`.
pub open spec fn tiled_texel<T>(texels: spec_fn(Seq<u8>) -> Seq<T>, b: int, data: Seq<u8>, w: int, t: int, c: int) -> T {
    let x = t % w;
    let y = t / w;
    let i = (y / 4) * block_count(w) + x / 4;
    texels(data.subrange(i * b, i * b + b))[((y % 4) * 4 + x % 4) * 4 + c]
}

/// The pixels of a surface of blocks of `b` bytes that decode to `texels`.
pub open spec fn tiled<T>(texels: spec_fn(Seq<u8>) -> Seq<T>, b: int, data: Seq<u8>, w: int, h: int) -> Seq<T> {
    Seq::new((w * h * 4) as nat, |k: int| tiled_texel(texels, b, data, w, k / 4, k % 4))
}

/// The RGBA pixels of a surface of blocks.
pub open spec fn surface_pixels(kind: DecodeContent, data: Seq<u8>, w: int, h: int) -> Seq<u8> {
    tiled(|block: Seq<u8>| block_rgba(kind, block), kind.block_size().unwrap(), data, w, h)
}

/// The block grid of a surface and the bytes of its payload.
pub fn block_grid(width: u32, height: u32, block_bytes: usize) -> (r: Result<(usize, usize, usize), Error>)
    requires
        block_bytes > 0,
    ensures
        ({
            let need = block_count(width as int) * block_count(height as int) * block_bytes;
            &&& (width == 0 || height == 0) ==> r == Err::<(usize, usize, usize), Error>(
                Error::InvalidField("zero image dimension"),
            )
            &&& width > 0 && height > 0 && need > usize::MAX ==> r == Err::<(usize, usize, usize), Error>(
                Error::OutOfBounds,
            )
            &&& width > 0 && height > 0 && need <= usize::MAX ==> r == Ok::<(usize, usize, usize), Error>(
                (block_count(width as int) as usize, block_count(height as int) as usize, need as usize),
            )
        }),
{
    if width == 0 || height == 0 {
        return Err(Error::InvalidField("zero image dimension"));
    }
    let bx: usize = blocks_across(width as usize);
    let by: usize = blocks_across(height as usize);
    match product3(bx, by, block_bytes) {
        Ok(n) => Ok((bx, by, n)),
        Err(e) => Err(e),
    }
}

proof fn lemma_texel_position(w: int, x: int, y: int)
    requires
        0 <= x < w,
        0 <= y,
    ensures
        (y * w + x) % w == x,
        (y * w + x) / w == y,
{
    vstd::arithmetic::div_mod::lemma_fundamental_div_mod_converse(y * w + x, w, y, x);
}

/// Whether texel `t` of a surface `w` texels wide lies in block `(bx, by)`.
pub open spec fn in_block(w: int, t: int, bx: int, by: int) -> bool {
    (t % w) / 4 == bx && (t / w) / 4 == by
}

/// Where texel `t` of a surface lies among the sixteen of its block.
pub open spec fn place_in_block(w: int, t: int) -> int {
    (t / w % 4) * 4 + t % w % 4
}

/// Whether texel `t` is one of the first `i` of block `(bx, by)`.
#[verifier::opaque]
spec fn among_first(w: int, t: int, bx: int, by: int, i: int) -> bool {
    in_block(w, t, bx, by) && place_in_block(w, t) < i
}

proof fn lemma_blit_hit(w: int, bx: int, by: int, i: int, t: int)
    requires
        w > 0,
        0 <= bx,
        0 <= by,
        0 <= i < 16,
        4 * bx + i % 4 < w,
        t == (4 * by + i / 4) * w + 4 * bx + i % 4,
    ensures
        t >= 0,
        place_in_block(w, t) == i,
        forall|s: int|
            0 <= s ==> #[trigger] among_first(w, s, bx, by, i + 1) == (among_first(w, s, bx, by, i) || s == t),
{
    reveal(among_first);
    lemma_texel_position(w, 4 * bx + i % 4, 4 * by + i / 4);
    assert(0 <= (4 * by + i / 4) * w) by (nonlinear_arith)
        requires
            0 <= by,
            0 <= i,
            w > 0,
    ;
    assert(in_block(w, t, bx, by));
    assert(place_in_block(w, t) == i);
    assert forall|s: int| 0 <= s implies #[trigger] among_first(w, s, bx, by, i + 1) == (among_first(w, s, bx, by, i) || s == t) by {
        if in_block(w, s, bx, by) && place_in_block(w, s) == i {
            lemma_same_place(w, s, t, bx, by);
        }
    }
}

proof fn lemma_blit_miss(w: int, h: int, bx: int, by: int, i: int)
    requires
        w > 0,
        h > 0,
        0 <= bx,
        0 <= by,
        0 <= i < 16,
        4 * bx + i % 4 >= w || 4 * by + i / 4 >= h,
    ensures
        forall|s: int|
            0 <= s < w * h ==> #[trigger] among_first(w, s, bx, by, i + 1) == among_first(w, s, bx, by, i),
{
    reveal(among_first);
    assert forall|s: int| 0 <= s < w * h implies #[trigger] among_first(w, s, bx, by, i + 1) == among_first(w, s, bx, by, i) by {
        lemma_texel_inside(w, h, s);
        let x = s % w;
        let y = s / w;
        if in_block(w, s, bx, by) && place_in_block(w, s) == i {
            assert(x % 4 == i % 4 && y % 4 == i / 4);
            assert(x == 4 * bx + i % 4 && y == 4 * by + i / 4);
        }
    }
}

/// Copies the texels of block `(bx, by)` that lie inside the surface.
fn blit_rgba4<T: Copy>(px: &[T; 64], out: &mut [T], w: usize, h: usize, bx: usize, by: usize)
    requires
        w > 0,
        old(out)@.len() == w * h * 4,
        4 * bx < w,
        4 * by < h,
    ensures
        final(out)@.len() == old(out)@.len(),
        forall|k: int|
            0 <= k < w * h * 4 ==> #[trigger] final(out)@[k] == (if in_block(w as int, k / 4, bx as int, by as int) {
                px@[place_in_block(w as int, k / 4) * 4 + k % 4]
            } else {
                old(out)@[k]
            }),
{
    let len: usize = out.len();
    let ghost start = out@;
    let mut i: usize = 0;
    proof {
        reveal(among_first);
    }
    while i < 16
        invariant
            i <= 16,
            w > 0,
            len == out@.len(),
            start == old(out)@,
            out@.len() == w * h * 4,
            start.len() == w * h * 4,
            4 * bx < w,
            4 * by < h,
            forall|k: int|
                0 <= k < w * h * 4 ==> #[trigger] out@[k] == (if among_first(w as int, k / 4, bx as int, by as int, i as int) {
                    px@[place_in_block(w as int, k / 4) * 4 + k % 4]
                } else {
                    start[k]
                }),
        decreases 16 - i,
    {
        let col: usize = i % 4;
        let row: usize = i / 4;
        let ghost before = out@;
        if col < w - 4 * bx && row < h - 4 * by {
            let x: usize = 4 * bx + col;
            let y: usize = 4 * by + row;
            proof {
                assert(0 <= y * w && y * w + x < w * h) by (nonlinear_arith)
                    requires
                        0 <= x < w,
                        0 <= y < h,
                ;
            }
            let t: usize = y * w + x;
            let k: usize = t * 4;
            out[k] = px[4 * i];
            out[k + 1] = px[4 * i + 1];
            out[k + 2] = px[4 * i + 2];
            out[k + 3] = px[4 * i + 3];
            proof {
                lemma_blit_hit(w as int, bx as int, by as int, i as int, t as int);
                let ghost wi = w as int;
                assert forall|j: int| 0 <= j < w * h * 4 implies #[trigger] out@[j] == (if among_first(
                    wi,
                    j / 4,
                    bx as int,
                    by as int,
                    i + 1,
                ) {
                    px@[place_in_block(wi, j / 4) * 4 + j % 4]
                } else {
                    start[j]
                }) by {
                    assert(among_first(wi, j / 4, bx as int, by as int, i + 1) == (among_first(
                        wi,
                        j / 4,
                        bx as int,
                        by as int,
                        i as int,
                    ) || j / 4 == t));
                    if j / 4 == t {
                        assert(j == k + j % 4);
                    } else {
                        assert(out@[j] == before[j]);
                    }
                }
            }
        } else {
            proof {
                lemma_blit_miss(w as int, h as int, bx as int, by as int, i as int);
                assert forall|j: int| 0 <= j < w * h * 4 implies #[trigger] out@[j] == (if among_first(
                    w as int,
                    j / 4,
                    bx as int,
                    by as int,
                    i + 1,
                ) {
                    px@[place_in_block(w as int, j / 4) * 4 + j % 4]
                } else {
                    start[j]
                }) by {
                    assert(among_first(w as int, j / 4, bx as int, by as int, i + 1) == among_first(
                        w as int,
                        j / 4,
                        bx as int,
                        by as int,
                        i as int,
                    ));
                }
            }
        }
        i = i + 1;
    }
}

proof fn lemma_same_place(w: int, s: int, t: int, bx: int, by: int)
    requires
        w > 0,
        0 <= s,
        0 <= t,
        in_block(w, s, bx, by),
        in_block(w, t, bx, by),
        place_in_block(w, s) == place_in_block(w, t),
    ensures
        s == t,
{
    vstd::arithmetic::div_mod::lemma_fundamental_div_mod(s, w);
    vstd::arithmetic::div_mod::lemma_fundamental_div_mod(t, w);
    let xs = s % w;
    let ys = s / w;
    let xt = t % w;
    let yt = t / w;
    assert(xs % 4 == xt % 4 && ys % 4 == yt % 4);
    assert(xs == xt && ys == yt);
}

proof fn lemma_texel_inside(w: int, h: int, t: int)
    requires
        w > 0,
        0 <= t < w * h,
    ensures
        0 <= t % w < w,
        0 <= t / w < h,
{
    vstd::arithmetic::div_mod::lemma_fundamental_div_mod(t, w);
    vstd::arithmetic::div_mod::lemma_mod_bound(t, w);
    let q = t / w;
    assert(0 <= q < h) by (nonlinear_arith)
        requires
            t == w * q + t % w,
            0 <= t % w < w,
            0 <= t < w * h,
            w > 0,
    ;
}

/// Whether the decode of a surface of blocks of `b` bytes into `out_len`
/// numbers succeeds, and if not, why.
pub open spec fn blocks_outcome(b: int, len: int, w: int, h: int, out_len: int) -> Result<(), Error> {
    let need = block_count(w) * block_count(h) * b;
    if w == 0 || h == 0 {
        Err(Error::InvalidField("zero image dimension"))
    } else if need > usize::MAX {
        Err(Error::OutOfBounds)
    } else if len < need {
        Err(Error::TruncatedData)
    } else if out_len != w * h * 4 {
        Err(Error::OutOfBounds)
    } else {
        Ok(())
    }
}

/// The same for a surface of a content kind.
pub open spec fn decode_outcome(kind: DecodeContent, len: int, w: int, h: int, out_len: int) -> Result<(), Error> {
    blocks_outcome(kind.block_size().unwrap(), len, w, h, out_len)
}

/// Decodes blocks of `b` bytes with `f`, whose result is `texels`, and lays
/// their texels out row by row in `out`.
pub(crate) fn tile_blocks<T: Copy, F: Fn(&[u8]) -> [T; 64]>(
    f: F,
    Ghost(texels): Ghost<spec_fn(Seq<u8>) -> Seq<T>>,
    b: usize,
    data: &[u8],
    w: usize,
    h: usize,
    out: &mut [T],
)
    requires
        w > 0,
        h > 0,
        b > 0,
        data@.len() >= block_count(w as int) * block_count(h as int) * b,
        old(out)@.len() == w * h * 4,
        forall|block: &[u8]| block@.len() == b ==> #[trigger] call_requires(f, (block,)),
        forall|block: &[u8], px: [T; 64]| #[trigger] call_ensures(f, (block,), px) ==> px@ == texels(block@),
    ensures
        final(out)@ == tiled(texels, b as int, data@, w as int, h as int),
{
    let _len: usize = data.len();
    let bx_n: usize = blocks_across(w);
    let by_n: usize = blocks_across(h);
    let ghost want = tiled(texels, b as int, data@, w as int, h as int);
    let mut by: usize = 0;
    while by < by_n
        invariant
            by <= by_n,
            w > 0,
            h > 0,
            w > 0,
            h > 0,
            bx_n == block_count(w as int),
            by_n == block_count(h as int),
            forall|block: &[u8]| block@.len() == b ==> #[trigger] call_requires(f, (block,)),
                forall|block: &[u8], px: [T; 64]| #[trigger] call_ensures(f, (block,), px) ==> px@ == texels(block@),
            b > 0,
            _len == data@.len(),
            data@.len() >= bx_n * by_n * b,
            want == tiled(texels, b as int, data@, w as int, h as int),
            out@.len() == w * h * 4,
            forall|k: int| 0 <= k < w * h * 4 && (k / 4) / (w as int) / 4 < by ==> #[trigger] out@[k] == want[k],
        decreases by_n - by,
    {
        let mut bx: usize = 0;
        while bx < bx_n
            invariant
                by < by_n,
                bx <= bx_n,
                w > 0,
                h > 0,
                w > 0,
                h > 0,
                bx_n == block_count(w as int),
                by_n == block_count(h as int),
                forall|block: &[u8]| block@.len() == b ==> #[trigger] call_requires(f, (block,)),
                forall|block: &[u8], px: [T; 64]| #[trigger] call_ensures(f, (block,), px) ==> px@ == texels(block@),
                b > 0,
                _len == data@.len(),
            data@.len() >= bx_n * by_n * b,
                    want == tiled(texels, b as int, data@, w as int, h as int),
                out@.len() == w * h * 4,
                forall|k: int|
                    0 <= k < w * h * 4 && ((k / 4) / (w as int) / 4 < by || ((k / 4) / (w as int) / 4 == by && (k / 4) % (
                    w as int) / 4 < bx)) ==> #[trigger] out@[k] == want[k],
            decreases bx_n - bx,
        {
            proof {
                let i = by * bx_n + bx;
                assert(0 <= by * bx_n && i + 1 <= bx_n * by_n) by (nonlinear_arith)
                    requires
                        i == by * bx_n + bx,
                        0 <= bx < bx_n,
                        0 <= by < by_n,
                ;
                assert(i * b + b <= bx_n * by_n * b && 0 <= i * b) by (nonlinear_arith)
                    requires
                        0 <= i,
                        i + 1 <= bx_n * by_n,
                        b > 0,
                ;
                assert(i <= i * b) by (nonlinear_arith)
                    requires
                        0 <= i,
                        b >= 1,
                ;
            }
            let i: usize = by * bx_n + bx;
            let at: usize = i * b;
            let block: &[u8] = vstd::slice::slice_subrange(data, at, at + b);
            let px: [T; 64] = f(block);
            blit_rgba4(&px, out, w, h, bx, by);
            proof {
                assert forall|k: int|
                    0 <= k < w * h * 4 && ((k / 4) / (w as int) / 4 < by || ((k / 4) / (w as int) / 4 == by && (k / 4) % (
                    w as int) / 4 < bx + 1)) implies #[trigger] out@[k] == want[k] by {
                    if in_block(w as int, k / 4, bx as int, by as int) {
                        assert(want[k] == tiled_texel(texels, b as int, data@, w as int, k / 4, k % 4));
                    }
                }
            }
            bx = bx + 1;
        }
        proof {
            assert forall|k: int| 0 <= k < w * h * 4 && (k / 4) / (w as int) / 4 < by + 1 implies #[trigger] out@[k]
                == want[k] by {
                lemma_texel_inside(w as int, h as int, k / 4);
            }
        }
        by = by + 1;
    }
    proof {
        assert forall|k: int| 0 <= k < w * h * 4 implies #[trigger] out@[k] == want[k] by {
            lemma_texel_inside(w as int, h as int, k / 4);
        }
        assert(out@ =~= want);
    }
}

/// Decodes a surface of blocks into `out`, which must be exactly one RGBA8
/// surface.
pub fn decode_blocks_into(kind: DecodeContent, data: &[u8], width: u32, height: u32, out: &mut [u8]) -> (r: Result<
    (),
    Error,
>)
    requires
        kind.block_size() is Some,
    ensures
        r == decode_outcome(kind, data@.len() as int, width as int, height as int, old(out)@.len() as int),
        r is Ok ==> final(out)@ == surface_pixels(kind, data@, width as int, height as int),
        r is Err ==> final(out)@ == old(out)@,
{
    let b: usize = match kind.block_bytes() {
        Some(b) => b,
        None => 16,
    };
    let (_, _, need) = match block_grid(width, height, b) {
        Ok(g) => g,
        Err(e) => {
            return Err(e);
        },
    };
    if data.len() < need {
        return Err(Error::TruncatedData);
    }
    let w: usize = width as usize;
    let h: usize = height as usize;
    match product3(w, h, 4) {
        Ok(n) => {
            if out.len() != n {
                return Err(Error::OutOfBounds);
            }
        },
        Err(_) => {
            let _len: usize = out.len();
            return Err(Error::OutOfBounds);
        },
    }
    let ghost texels = |block: Seq<u8>| block_rgba(kind, block);
    let f = |block: &[u8]| -> (px: [u8; 64])
        requires
            kind.block_size() == Some(block@.len() as int),
        ensures
            px@ == block_rgba(kind, block@),
        { decode_block(kind, block) };
    tile_blocks(f, Ghost(texels), b, data, w, h, out);
    Ok(())
}

/// Whether the decode of a surface of blocks into a buffer of its own
/// succeeds, and if not, why.
pub open spec fn alloc_outcome(kind: DecodeContent, len: int, w: int, h: int) -> Result<(), Error> {
    let base = decode_outcome(kind, len, w, h, w * h * 4);
    if base is Ok && w * h * 4 > usize::MAX {
        Err(Error::OutOfBounds)
    } else {
        base
    }
}

/// Decodes a surface of blocks to RGBA8. The payload is checked before the
/// buffer is made.
pub fn decode_blocks(kind: DecodeContent, data: &[u8], width: u32, height: u32) -> (r: Result<Vec<u8>, Error>)
    requires
        kind.block_size() is Some,
    ensures
        r matches Ok(v) ==> alloc_outcome(kind, data@.len() as int, width as int, height as int) is Ok && v@
            == surface_pixels(kind, data@, width as int, height as int),
        r matches Err(e) ==> alloc_outcome(kind, data@.len() as int, width as int, height as int) == Err::<(), Error>(e),
{
    let b: usize = match kind.block_bytes() {
        Some(b) => b,
        None => 16,
    };
    match block_grid(width, height, b) {
        Ok((_, _, need)) => {
            if data.len() < need {
                return Err(Error::TruncatedData);
            }
        },
        Err(e) => {
            return Err(e);
        },
    }
    match product3(width as usize, height as usize, 4) {
        Err(e) => Err(e),
        Ok(n) => {
            let mut out: Vec<u8> = vec![0u8; n];
            match decode_blocks_into(kind, data, width, height, out.as_mut_slice()) {
                Ok(()) => Ok(out),
                Err(e) => Err(e),
            }
        },
    }
}

/// Decodes a BC1 surface to RGBA8.
pub fn decode_bc1(data: &[u8], width: u32, height: u32) -> (r: Result<Vec<u8>, Error>)
    ensures
        r matches Ok(v) ==> alloc_outcome(DecodeContent::Bc1, data@.len() as int, width as int, height as int) is Ok && v@
            == surface_pixels(DecodeContent::Bc1, data@, width as int, height as int),
        r matches Err(e) ==> alloc_outcome(DecodeContent::Bc1, data@.len() as int, width as int, height as int) == Err::<(), Error>(
            e,
        ),
{
    decode_blocks(DecodeContent::Bc1, data, width, height)
}

/// Decodes a BC1 surface into `out`, which must be exactly one RGBA8 surface.
pub fn decode_bc1_into(data: &[u8], width: u32, height: u32, out: &mut [u8]) -> (r: Result<(), Error>)
    ensures
        r == decode_outcome(DecodeContent::Bc1, data@.len() as int, width as int, height as int, old(out)@.len() as int),
        r is Ok ==> final(out)@ == surface_pixels(DecodeContent::Bc1, data@, width as int, height as int),
        r is Err ==> final(out)@ == old(out)@,
{
    decode_blocks_into(DecodeContent::Bc1, data, width, height, out)
}

/// Decodes a BC2 surface to RGBA8.
pub fn decode_bc2(data: &[u8], width: u32, height: u32) -> (r: Result<Vec<u8>, Error>)
    ensures
        r matches Ok(v) ==> alloc_outcome(DecodeContent::Bc2, data@.len() as int, width as int, height as int) is Ok && v@
            == surface_pixels(DecodeContent::Bc2, data@, width as int, height as int),
        r matches Err(e) ==> alloc_outcome(DecodeContent::Bc2, data@.len() as int, width as int, height as int) == Err::<(), Error>(
            e,
        ),
{
    decode_blocks(DecodeContent::Bc2, data, width, height)
}

/// Decodes a BC2 surface into `out`, which must be exactly one RGBA8 surface.
pub fn decode_bc2_into(data: &[u8], width: u32, height: u32, out: &mut [u8]) -> (r: Result<(), Error>)
    ensures
        r == decode_outcome(DecodeContent::Bc2, data@.len() as int, width as int, height as int, old(out)@.len() as int),
        r is Ok ==> final(out)@ == surface_pixels(DecodeContent::Bc2, data@, width as int, height as int),
        r is Err ==> final(out)@ == old(out)@,
{
    decode_blocks_into(DecodeContent::Bc2, data, width, height, out)
}

/// Decodes a BC3 surface to RGBA8.
pub fn decode_bc3(data: &[u8], width: u32, height: u32) -> (r: Result<Vec<u8>, Error>)
    ensures
        r matches Ok(v) ==> alloc_outcome(DecodeContent::Bc3, data@.len() as int, width as int, height as int) is Ok && v@
            == surface_pixels(DecodeContent::Bc3, data@, width as int, height as int),
        r matches Err(e) ==> alloc_outcome(DecodeContent::Bc3, data@.len() as int, width as int, height as int) == Err::<(), Error>(
            e,
        ),
{
    decode_blocks(DecodeContent::Bc3, data, width, height)
}

/// Decodes a BC3 surface into `out`, which must be exactly one RGBA8 surface.
pub fn decode_bc3_into(data: &[u8], width: u32, height: u32, out: &mut [u8]) -> (r: Result<(), Error>)
    ensures
        r == decode_outcome(DecodeContent::Bc3, data@.len() as int, width as int, height as int, old(out)@.len() as int),
        r is Ok ==> final(out)@ == surface_pixels(DecodeContent::Bc3, data@, width as int, height as int),
        r is Err ==> final(out)@ == old(out)@,
{
    decode_blocks_into(DecodeContent::Bc3, data, width, height, out)
}

/// The BC4 kind of a signedness.
pub open spec fn bc4_of(is_signed: bool) -> DecodeContent {
    if is_signed {
        DecodeContent::Bc4SNorm
    } else {
        DecodeContent::Bc4UNorm
    }
}

/// The BC5 kind of a signedness.
pub open spec fn bc5_of(is_signed: bool) -> DecodeContent {
    if is_signed {
        DecodeContent::Bc5SNorm
    } else {
        DecodeContent::Bc5UNorm
    }
}

fn bc4_kind(is_signed: bool) -> (k: DecodeContent)
    ensures
        k == bc4_of(is_signed),
{
    if is_signed {
        DecodeContent::Bc4SNorm
    } else {
        DecodeContent::Bc4UNorm
    }
}

fn bc5_kind(is_signed: bool) -> (k: DecodeContent)
    ensures
        k == bc5_of(is_signed),
{
    if is_signed {
        DecodeContent::Bc5SNorm
    } else {
        DecodeContent::Bc5UNorm
    }
}

/// Decodes a BC4 surface to RGBA8.
pub fn decode_bc4(data: &[u8], width: u32, height: u32, is_signed: bool) -> (r: Result<Vec<u8>, Error>)
    ensures
        r matches Ok(v) ==> alloc_outcome(bc4_of(is_signed), data@.len() as int, width as int, height as int) is Ok && v@
            == surface_pixels(bc4_of(is_signed), data@, width as int, height as int),
        r matches Err(e) ==> alloc_outcome(bc4_of(is_signed), data@.len() as int, width as int, height as int) == Err::<(), Error>(
            e,
        ),
{
    decode_blocks(bc4_kind(is_signed), data, width, height)
}

/// Decodes a BC4 surface into `out`, which must be exactly one RGBA8 surface.
pub fn decode_bc4_into(data: &[u8], width: u32, height: u32, is_signed: bool, out: &mut [u8]) -> (r: Result<(), Error>)
    ensures
        r == decode_outcome(bc4_of(is_signed), data@.len() as int, width as int, height as int, old(out)@.len() as int),
        r is Ok ==> final(out)@ == surface_pixels(bc4_of(is_signed), data@, width as int, height as int),
        r is Err ==> final(out)@ == old(out)@,
{
    decode_blocks_into(bc4_kind(is_signed), data, width, height, out)
}

/// Decodes a BC5 surface to RGBA8.
pub fn decode_bc5(data: &[u8], width: u32, height: u32, is_signed: bool) -> (r: Result<Vec<u8>, Error>)
    ensures
        r matches Ok(v) ==> alloc_outcome(bc5_of(is_signed), data@.len() as int, width as int, height as int) is Ok && v@
            == surface_pixels(bc5_of(is_signed), data@, width as int, height as int),
        r matches Err(e) ==> alloc_outcome(bc5_of(is_signed), data@.len() as int, width as int, height as int) == Err::<(), Error>(
            e,
        ),
{
    decode_blocks(bc5_kind(is_signed), data, width, height)
}

/// Decodes a BC5 surface into `out`, which must be exactly one RGBA8 surface.
pub fn decode_bc5_into(data: &[u8], width: u32, height: u32, is_signed: bool, out: &mut [u8]) -> (r: Result<(), Error>)
    ensures
        r == decode_outcome(bc5_of(is_signed), data@.len() as int, width as int, height as int, old(out)@.len() as int),
        r is Ok ==> final(out)@ == surface_pixels(bc5_of(is_signed), data@, width as int, height as int),
        r is Err ==> final(out)@ == old(out)@,
{
    decode_blocks_into(bc5_kind(is_signed), data, width, height, out)
}

/// Decodes a BC7 surface to RGBA8.
pub fn decode_bc7(data: &[u8], width: u32, height: u32) -> (r: Result<Vec<u8>, Error>)
    ensures
        r matches Ok(v) ==> alloc_outcome(DecodeContent::Bc7, data@.len() as int, width as int, height as int) is Ok && v@
            == surface_pixels(DecodeContent::Bc7, data@, width as int, height as int),
        r matches Err(e) ==> alloc_outcome(DecodeContent::Bc7, data@.len() as int, width as int, height as int) == Err::<(), Error>(
            e,
        ),
{
    decode_blocks(DecodeContent::Bc7, data, width, height)
}

/// Decodes a BC7 surface into `out`, which must be exactly one RGBA8 surface.
pub fn decode_bc7_into(data: &[u8], width: u32, height: u32, out: &mut [u8]) -> (r: Result<(), Error>)
    ensures
        r == decode_outcome(DecodeContent::Bc7, data@.len() as int, width as int, height as int, old(out)@.len() as int),
        r is Ok ==> final(out)@ == surface_pixels(DecodeContent::Bc7, data@, width as int, height as int),
        r is Err ==> final(out)@ == old(out)@,
{
    decode_blocks_into(DecodeContent::Bc7, data, width, height, out)
}

} // verus!
