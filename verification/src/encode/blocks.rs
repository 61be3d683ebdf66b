//! Per-block BCn encoders and the block walk that drives them.
//!
//! A block is sixteen texels in row order; `rows` gives its mathematical view.

use vstd::arithmetic::power2::{lemma_pow2_adds, lemma_pow2_pos, pow2};
use vstd::prelude::*;

use crate::model::{bit_string, bit_width, digit, digits_of, first_min, le_bytes, lemma_bit_string_bound, lemma_bit_string_push, lemma_sq, number_of, power_of_two, rows, sq, sq_diff};

pub mod alpha;
pub mod bc1;
pub mod bc7;
pub mod image;
pub mod laws;
pub mod laws_damage;
pub mod laws_levels;
pub mod laws_mode1;
pub mod laws_mode45;
pub mod laws_rdo;
pub mod laws_seeds;
pub mod lsq;
pub mod m1;
pub mod rdo;
pub mod rdo7;
pub mod sweep;

verus! {

/// Encode effort.
#[derive(Debug, Clone, Copy, PartialEq, Eq, Structural)]
#[non_exhaustive]
pub enum EncodeQuality {
    /// Full adaptive search.
    Quality,
    /// Cheap seeds and least squares only.
    Fast,
}

impl Default for EncodeQuality {
    fn default() -> (q: EncodeQuality)
        ensures
            q == EncodeQuality::Quality,
    {
        EncodeQuality::Quality
    }
}

/// The number of four-texel blocks that cover `n` texels.
pub open spec fn block_count(n: int) -> int {
    (n + 3) / 4
}

/// The number of four-texel blocks that cover `n` texels.
pub fn blocks_across(n: usize) -> (b: usize)
    ensures
        b == block_count(n as int),
{
    if n % 4 == 0 {
        n / 4
    } else {
        n / 4 + 1
    }
}

/// The smaller of two numbers.
pub open spec fn min_int(a: int, b: int) -> int {
    if a <= b {
        a
    } else {
        b
    }
}

/// The larger of two numbers.
pub open spec fn max_int(a: int, b: int) -> int {
    if a >= b {
        a
    } else {
        b
    }
}

/// Texel `i` of block `(bx, by)`: positions past the edge repeat the edge.
pub open spec fn block_texel(rgba: Seq<u8>, w: int, h: int, bx: int, by: int, i: int) -> Seq<u8> {
    let x = min_int(4 * bx + i % 4, w - 1);
    let y = min_int(4 * by + i / 4, h - 1);
    Seq::new(4, |c: int| rgba[(y * w + x) * 4 + c])
}

/// The sixteen texels of block `(bx, by)` of an image.
pub open spec fn block_texels(rgba: Seq<u8>, w: int, h: int, bx: int, by: int) -> Seq<Seq<u8>> {
    Seq::new(16, |i: int| block_texel(rgba, w, h, bx, by, i))
}

/// A block's texels: sixteen of four bytes each.
pub open spec fn is_block(px: Seq<Seq<u8>>) -> bool {
    px.len() == 16 && forall|i: int| 0 <= i < 16 ==> (#[trigger] px[i]).len() == 4
}

proof fn lemma_texel_in_image(w: int, h: int, x: int, y: int, len: int)
    requires
        0 <= x < w,
        0 <= y < h,
        len >= w * h * 4,
    ensures
        0 <= (y * w + x) * 4,
        (y * w + x) * 4 + 3 < len,
        0 <= y * w,
        y * w + x < w * h,
{
    assert(y * w + x < w * h && y * w >= 0) by (nonlinear_arith)
        requires
            0 <= x < w,
            0 <= y < h,
    ;
}

/// Gathers block `(bx, by)`, repeating the last row and column past the edge.
pub fn gather_block(rgba: &[u8], w: usize, h: usize, bx: usize, by: usize) -> (px: [[u8; 4]; 16])
    requires
        w > 0,
        h > 0,
        rgba@.len() >= w * h * 4,
        4 * bx < w,
        4 * by < h,
    ensures
        rows(px) == block_texels(rgba@, w as int, h as int, bx as int, by as int),
{
    let len: usize = rgba.len();
    let mut px: [[u8; 4]; 16] = [[0u8; 4]; 16];
    let mut i: usize = 0;
    while i < 16
        invariant
            i <= 16,
            len == rgba@.len(),
            w > 0,
            h > 0,
            rgba@.len() >= w * h * 4,
            4 * bx < w,
            4 * by < h,
            forall|k: int|
                0 <= k < i ==> (#[trigger] px@[k])@ =~= block_texel(rgba@, w as int, h as int, bx as int, by as int, k),
        decreases 16 - i,
    {
        let col: usize = i % 4;
        let row: usize = i / 4;
        let x: usize = if col < w - 4 * bx {
            4 * bx + col
        } else {
            w - 1
        };
        let y: usize = if row < h - 4 * by {
            4 * by + row
        } else {
            h - 1
        };
        proof {
            lemma_texel_in_image(w as int, h as int, x as int, y as int, rgba@.len() as int);
        }
        let k: usize = (y * w + x) * 4;
        px[i] = [rgba[k], rgba[k + 1], rgba[k + 2], rgba[k + 3]];
        i = i + 1;
    }
    proof {
        assert(rows(px) =~= block_texels(rgba@, w as int, h as int, bx as int, by as int));
    }
    px
}

/// The smallest and largest value of one channel over the first `n` texels.
pub open spec fn channel_range(rgba: Seq<u8>, channel: int, n: nat) -> (int, int)
    decreases n,
{
    if n == 0 {
        (255, 0)
    } else {
        let (lo, hi) = channel_range(rgba, channel, (n - 1) as nat);
        let v = rgba[(n - 1) * 4 + channel] as int;
        (min_int(lo, v), max_int(hi, v))
    }
}

/// The span of one channel over an image; zero for an empty image.
pub fn channel_span(rgba: &[u8], width: u32, height: u32, channel: usize) -> (span: u8)
    requires
        channel < 4,
        rgba@.len() >= width * height * 4,
    ensures
        ({
            let (lo, hi) = channel_range(rgba@, channel as int, (width * height) as nat);
            span == max_int(hi - lo, 0)
        }),
{
    proof {
        assert(0 <= width * height <= 0xFFFF_FFFF * 0xFFFF_FFFF) by (nonlinear_arith)
            requires
                0 <= width <= 0xFFFF_FFFF,
                0 <= height <= 0xFFFF_FFFF,
        ;
    }
    let len: usize = rgba.len();
    let n: u64 = (width as u64) * (height as u64);
    let mut lo: u8 = 255;
    let mut hi: u8 = 0;
    let mut i: u64 = 0;
    while i < n
        invariant
            i <= n,
            len == rgba@.len(),
            n == width * height,
            channel < 4,
            rgba@.len() >= n * 4,
            channel_range(rgba@, channel as int, i as nat) == (lo as int, hi as int),
        decreases n - i,
    {
        let v: u8 = rgba[(i as usize) * 4 + channel];
        if v < lo {
            lo = v;
        }
        if v > hi {
            hi = v;
        }
        i = i + 1;
    }
    if hi > lo {
        hi - lo
    } else {
        0
    }
}

/// The 5:6:5 word of an RGB colour, low bits dropped.
pub open spec fn word565(c: Seq<u8>) -> int {
    (c[0] / 8) * 2048 + (c[1] / 4) * 32 + c[2] / 8
}

/// The 5:6:5 word of an RGB colour, low bits dropped.
pub fn to_565(c: [u8; 3]) -> (w: u16)
    ensures
        w == word565(c@),
{
    (c[0] as u16 / 8) * 2048 + (c[1] as u16 / 4) * 32 + c[2] as u16 / 8
}

/// A 5-bit level stretched to a byte by repeating its high bits.
pub open spec fn stretch5(v: int) -> int {
    v * 8 + v / 4
}

/// A 6-bit level stretched to a byte by repeating its high bits.
pub open spec fn stretch6(v: int) -> int {
    v * 4 + v / 16
}

/// The RGB colour of a 5:6:5 word.
pub open spec fn color565(w: int) -> Seq<u8> {
    seq![
        stretch5(w / 2048 % 32) as u8,
        stretch6(w / 32 % 64) as u8,
        stretch5(w % 32) as u8,
    ]
}

/// The RGB colour of a 5:6:5 word.
pub fn from_565(w: u16) -> (c: [u8; 3])
    ensures
        c@ == color565(w as int),
{
    let r: u16 = w / 2048 % 32;
    let g: u16 = w / 32 % 64;
    let b: u16 = w % 32;
    let c: [u8; 3] = [(r * 8 + r / 4) as u8, (g * 4 + g / 16) as u8, (b * 8 + b / 4) as u8];
    proof {
        assert(c@ =~= color565(w as int));
    }
    c
}

/// One channel mixed in the proportion `aw : bw`, rounded down.
pub open spec fn mix(aw: int, bw: int, a: int, b: int) -> int {
    (aw * a + bw * b) / (aw + bw)
}

/// Two RGB colours mixed in the proportion `aw : bw`, rounded down.
pub open spec fn mix_rgb(aw: int, bw: int, a: Seq<u8>, b: Seq<u8>) -> Seq<u8> {
    seq![
        mix(aw, bw, a[0] as int, b[0] as int) as u8,
        mix(aw, bw, a[1] as int, b[1] as int) as u8,
        mix(aw, bw, a[2] as int, b[2] as int) as u8,
    ]
}

fn mix_channel<const AW: u32, const BW: u32>(a: u8, b: u8) -> (r: u8)
    requires
        0 < AW <= 16,
        0 < BW <= 16,
    ensures
        r == mix(AW as int, BW as int, a as int, b as int),
{
    proof {
        assert(AW * a <= 16 * 255 && BW * b <= 16 * 255 && AW * a >= 0 && BW * b >= 0) by (nonlinear_arith)
            requires
                0 < AW <= 16,
                0 < BW <= 16,
                0 <= a <= 255,
                0 <= b <= 255,
        ;
        assert(0 <= (AW * a + BW * b) / (AW + BW) <= 255) by (nonlinear_arith)
            requires
                0 < AW <= 16,
                0 < BW <= 16,
                0 <= a <= 255,
                0 <= b <= 255,
        ;
    }
    ((AW * (a as u32) + BW * (b as u32)) / (AW + BW)) as u8
}

/// Two RGB colours mixed in the proportion `AW : BW`, rounded down.
pub fn lerp_rgb<const AW: u32, const BW: u32>(a: [u8; 3], b: [u8; 3]) -> (c: [u8; 3])
    requires
        0 < AW <= 16,
        0 < BW <= 16,
    ensures
        c@ == mix_rgb(AW as int, BW as int, a@, b@),
{
    let c: [u8; 3] = [
        mix_channel::<AW, BW>(a[0], b[0]),
        mix_channel::<AW, BW>(a[1], b[1]),
        mix_channel::<AW, BW>(a[2], b[2]),
    ];
    proof {
        assert(c@ =~= mix_rgb(AW as int, BW as int, a@, b@));
    }
    c
}

/// The squared RGB distance between a texel and a colour.
pub open spec fn rgb_distance(p: Seq<u8>, c: Seq<u8>) -> int {
    sq(p[0] - c[0]) + sq(p[1] - c[1]) + sq(p[2] - c[2])
}

pub proof fn lemma_rgb_distance(p: Seq<u8>, c: Seq<u8>)
    ensures
        0 <= rgb_distance(p, c) <= 195075,
{
    lemma_sq(p[0] - c[0]);
    lemma_sq(p[1] - c[1]);
    lemma_sq(p[2] - c[2]);
}

/// The squared RGB distance between a texel and a colour.
pub fn sqr_rgb(p: [u8; 4], c: [u8; 3]) -> (d: i32)
    ensures
        d == rgb_distance(p@, c@),
        0 <= d <= 195075,
{
    sq_diff(p[0], c[0]) + sq_diff(p[1], c[1]) + sq_diff(p[2], c[2])
}

/// Each texel's distance to each colour of an RGB palette.
pub open spec fn rgb_costs(px: Seq<Seq<u8>>, pal: Seq<Seq<u8>>) -> Seq<Seq<int>> {
    Seq::new(px.len(), |i: int| Seq::new(pal.len(), |j: int| rgb_distance(px[i], pal[j])))
}

/// The nearest of an RGB palette's colours, the first among equals, and its
/// distance.
pub fn nearest_rgb<const N: usize>(p: [u8; 4], pal: &[[u8; 3]; N]) -> (r: (u8, i32))
    requires
        0 < N <= 16,
    ensures
        ({
            let costs = Seq::new(N as nat, |j: int| rgb_distance(p@, pal@[j]@));
            r.0 == first_min(costs, N as nat) && r.1 == costs[r.0 as int]
        }),
        r.0 < N,
        0 <= r.1 <= 195075,
{
    let ghost costs = Seq::new(N as nat, |j: int| rgb_distance(p@, pal@[j]@));
    let mut best: usize = 0;
    let mut best_d: i32 = sqr_rgb(p, pal[0]);
    let mut j: usize = 1;
    while j < N
        invariant
            1 <= j <= N <= 16,
            best < j,
            best == first_min(costs, j as nat),
            best_d == costs[best as int],
            0 <= best_d <= 195075,
            costs == Seq::new(N as nat, |j: int| rgb_distance(p@, pal@[j]@)),
        decreases N - j,
    {
        let d: i32 = sqr_rgb(p, pal[j]);
        if d < best_d {
            best_d = d;
            best = j;
        }
        j = j + 1;
    }
    (best as u8, best_d)
}

/// The word whose base-4 digits, lowest first, are sixteen 2-bit indices.
pub fn pack_indices_2bit(idx: &[u8; 16]) -> (t: u32)
    requires
        forall|i: int| 0 <= i < 16 ==> #[trigger] idx@[i] < 4,
    ensures
        t == number_of(idx@, 4, 0),
{
    let mut t: u32 = 0;
    let mut i: usize = 16;
    let mut bound: u64 = 1;
    proof {
        vstd::arithmetic::power2::lemma2_to64();
    }
    while i > 0
        invariant
            i <= 16,
            t == number_of(idx@, 4, i as nat),
            t < bound,
            bound == pow2((2 * (16 - i)) as nat),
            bound <= 0x1_0000_0000,
            forall|i: int| 0 <= i < 16 ==> #[trigger] idx@[i] < 4,
        decreases i,
    {
        proof {
            let e = (2 * (16 - i)) as nat;
            lemma_pow2_adds(e, 2);
            vstd::arithmetic::power2::lemma2_to64();
            if e + 2 < 32 {
                vstd::arithmetic::power2::lemma_pow2_strictly_increases(e + 2, 32);
            }
            assert(pow2(e) * 4 == pow2(e + 2));
        }
        i = i - 1;
        t = idx[i] as u32 + 4 * t;
        bound = bound * 4;
    }
    t
}

/// The sixteen base-4 digits of an index word.
pub fn unpack_indices_2bit(table: u32) -> (idx: [u8; 16])
    ensures
        idx@ == digits_of(table as int, 4, 16),
        forall|i: int| 0 <= i < 16 ==> #[trigger] idx@[i] < 4,
{
    let mut idx: [u8; 16] = [0u8; 16];
    let mut t: u32 = table;
    let mut i: usize = 0;
    while i < 16
        invariant
            i <= 16,
            forall|k: nat| k < 16 - i ==> digit(t as int, 4, k) == #[trigger] digit(table as int, 4, (i + k) as nat),
            forall|k: int| 0 <= k < i ==> #[trigger] idx@[k] == digit(table as int, 4, k as nat),
            forall|k: int| 0 <= k < i ==> #[trigger] idx@[k] < 4,
        decreases 16 - i,
    {
        proof {
            assert(digit(t as int, 4, 0) == digit(table as int, 4, (i + 0) as nat));
        }
        idx[i] = (t % 4) as u8;
        proof {
            assert forall|k: nat| k < 16 - (i + 1) implies digit((t / 4) as int, 4, k) == #[trigger] digit(
                table as int,
                4,
                (i + 1 + k) as nat,
            ) by {
                assert(digit(t as int, 4, k + 1) == digit(table as int, 4, (i + (k + 1)) as nat));
            }
        }
        t = t / 4;
        i = i + 1;
    }
    proof {
        assert(idx@ =~= digits_of(table as int, 4, 16));
    }
    idx
}

/// Writes bit fields, the first into the lowest bits of a 128-bit block.
pub struct BitWriter {
    value: u128,
    pos: u32,
    fields: Ghost<Seq<(int, nat)>>,
}

impl BitWriter {
    /// The fields written so far, as `(value, width)`.
    pub closed spec fn view(&self) -> Seq<(int, nat)> {
        self.fields@
    }

    /// How many bits have been written.
    pub closed spec fn used(&self) -> nat {
        self.pos as nat
    }

    /// The writer holds the fields written so far.
    pub closed spec fn wf(&self) -> bool {
        &&& self.pos == bit_width(self.fields@, self.fields@.len())
        &&& self.pos <= 128
        &&& self.value == bit_string(self.fields@, 0)
    }

    /// An empty writer.
    pub fn new() -> (w: BitWriter)
        ensures
            w.wf(),
            w.used() == 0,
            w@ == Seq::<(int, nat)>::empty(),
    {
        BitWriter { value: 0, pos: 0, fields: Ghost(Seq::empty()) }
    }

    /// Writes the low `n` bits of `value`.
    pub fn write_bits(&mut self, value: u32, n: u32)
        requires
            old(self).wf(),
            n <= 32,
            old(self).used() + n <= 128,
        ensures
            final(self).wf(),
            final(self).used() == old(self).used() + n,
            final(self)@ == old(self)@.push((value as int, n as nat)),
    {
        if n == 0 {
            proof {
                let f = self.fields@;
                lemma_bit_string_push(f, value as int, 0);
                assert(pow2(0) == 1) by {
                    vstd::arithmetic::power2::lemma2_to64();
                }
                assert(value as int % 1 == 0);
                assert(0 * pow2(bit_width(f, f.len())) == 0) by (nonlinear_arith);
            }
            self.fields = Ghost(self.fields@.push((value as int, n as nat)));
            return;
        }
        let p: u128 = power_of_two(self.pos);
        let m: u128 = power_of_two(n);
        proof {
            lemma_pow2_pos(n as nat);
        }
        let v: u128 = (value as u128) % m;
        proof {
            let f = self.fields@;
            lemma_bit_string_push(f, value as int, n as nat);
            lemma_bit_string_bound(f, 0);
            lemma_bit_string_bound(f.push((value as int, n as nat)), 0);
            lemma_pow2_adds(self.pos as nat, n as nat);
            if self.pos + n < 128 {
                vstd::arithmetic::power2::lemma_pow2_strictly_increases((self.pos + n) as nat, 128);
            }
            assert(pow2(128) == 0x1_0000_0000_0000_0000 * 0x1_0000_0000_0000_0000) by {
                lemma_pow2_adds(64, 64);
                vstd::arithmetic::power2::lemma2_to64();
            }
            assert(v * p >= 0) by (nonlinear_arith);
            assert(self.value + v * p == bit_string(f.push((value as int, n as nat)), 0));
        }
        self.value = self.value + v * p;
        self.pos = self.pos + n;
        self.fields = Ghost(self.fields@.push((value as int, n as nat)));
    }

    /// The sixteen bytes of the block, low byte first.
    pub fn into_array(self) -> (out: [u8; 16])
        requires
            self.wf(),
        ensures
            out@ == le_bytes(bit_string(self@, 0), 16),
    {
        le_array16(self.value)
    }
}

/// The sixteen bytes of a 128-bit value, low byte first.
pub fn le_array16(value: u128) -> (out: [u8; 16])
    ensures
        out@ == le_bytes(value as int, 16),
{
    let mut out: [u8; 16] = [0u8; 16];
    let mut t: u128 = value;
    let mut i: usize = 0;
    while i < 16
        invariant
            i <= 16,
            forall|k: nat| k < 16 - i ==> digit(t as int, 256, k) == #[trigger] digit(value as int, 256, (i + k) as nat),
            forall|k: int| 0 <= k < i ==> #[trigger] out@[k] == digit(value as int, 256, k as nat) as u8,
        decreases 16 - i,
    {
        proof {
            assert(digit(t as int, 256, 0) == digit(value as int, 256, (i + 0) as nat));
        }
        out[i] = (t % 256) as u8;
        proof {
            assert forall|k: nat| k < 16 - (i + 1) implies digit((t / 256) as int, 256, k) == #[trigger] digit(
                value as int,
                256,
                (i + 1 + k) as nat,
            ) by {
                assert(digit(t as int, 256, k + 1) == digit(value as int, 256, (i + (k + 1)) as nat));
            }
        }
        t = t / 256;
        i = i + 1;
    }
    proof {
        assert(out@ =~= le_bytes(value as int, 16));
    }
    out
}

} // verus!
