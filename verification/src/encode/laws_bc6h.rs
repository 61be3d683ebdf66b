//! What encoded BC6H blocks and images decode to.

use vstd::arithmetic::power2::pow2;
use vstd::prelude::*;

use crate::decode::bc6h::{bc6h_pixels, bc6h_rgb, widened, ONE};
use crate::decode::bcdec::mode11_texels;
use crate::decode::bcn::{block_number, lone_index, tiled, tiled_texel};
use crate::encode::bc6h::{bc6h_encoded, bc6h_payload, bottom_of, bytes11, chosen11, costs10, costs11, distance3, entry11, fields11, fit11, float_block_at, half_of, half_of_level, halves_of, law_bc6h_never_worse_than_seed, law_bc6h_score, law_halves_are_kept, lemma_entry, level10, ls11, nearest10, palette11, quantised3, seed11, single_of, top_of, tried10, Fit11};
use crate::encode::blocks::bc7::{index_fields, weights4};
use crate::encode::blocks::laws_mode1::lemma_field_of_block;
use crate::encode::blocks::laws_mode45::{lemma_index_widths, lemma_reads_lone_index};
use crate::encode::blocks::rdo::joined;
use crate::encode::blocks::block_count;
use crate::encode::laws::{block_of, lemma_joined_block};
use crate::model::{best_of, bit_field, bit_width, fit_costs, fit_indices, lemma_first_min, lemma_first_min_in, lemma_sq, lemma_total_bound, lemma_total_eq, sq, total};

verus! {

/// A fit whose levels and indices fit their fields, the first index one bit
/// narrower, and whose error is that of the entries it stands for.
pub open spec fn sound11(h: Seq<Seq<int>>, f: Fit11) -> bool {
    &&& forall|c: int| 0 <= c < 3 ==> 0 <= #[trigger] f.0[c] < 1024
    &&& forall|c: int| 0 <= c < 3 ==> 0 <= #[trigger] f.1[c] < 1024
    &&& forall|i: int| 0 <= i < 16 ==> #[trigger] f.2[i] < 16
    &&& f.2[0] < 8
    &&& f.3 == total(Seq::new(16, |i: int| distance3(palette11(f.0, f.1)[f.2[i] as int], h[i])), 16)
}

proof fn lemma_nearest10_range(t: int)
    ensures
        0 <= nearest10(t) < 1024,
{
    let (lo, hi) = tried10(t);
    if lo <= hi {
        lemma_first_min_in(costs10(t), costs10(t).len());
    }
}

proof fn lemma_fit11_sound(h: Seq<Seq<int>>, e0: Seq<int>, e1: Seq<int>)
    ensures
        sound11(h, fit11(h, e0, e1)),
{
    law_bc6h_score(h, e0, e1);
    let costs = costs11(h, palette11(quantised3(e0), quantised3(e1)));
    assert forall|c: int| 0 <= c < 3 implies 0 <= #[trigger] quantised3(e0)[c] < 1024 by {
        lemma_nearest10_range(e0[c]);
    }
    assert forall|c: int| 0 <= c < 3 implies 0 <= #[trigger] quantised3(e1)[c] < 1024 by {
        lemma_nearest10_range(e1[c]);
    }
    assert forall|i: int| 0 <= i < 16 implies #[trigger] fit_indices(costs)[i] < 16 by {
        lemma_first_min_in(costs[i], 16);
    }
}

pub proof fn lemma_chosen11_sound(h: Seq<Seq<int>>)
    ensures
        sound11(h, chosen11(h)),
{
    lemma_fit11_sound(h, Seq::new(3, |c: int| top_of(h, c, 16)), Seq::new(3, |c: int| bottom_of(h, c, 16)));
    if let Some((a, b)) = ls11(h, seed11(h).2) {
        lemma_fit11_sound(h, a, b);
    }
}

proof fn lemma_widths11(f: Fit11)
    ensures
        fields11(f).len() == 23,
        bit_width(fields11(f), 0) == 0,
        forall|j: nat| 1 <= j <= 7 ==> #[trigger] bit_width(fields11(f), j) as int == 5 + 10 * (j - 1),
        bit_width(fields11(f), 23) == 128,
        forall|i: int| 0 <= i < 16 ==> #[trigger] fields11(f)[7 + i] == index_fields(f.2, 4)[i],
{
    reveal_with_fuel(bit_width, 8);
    lemma_index_widths(fields11(f), f.2, 4, 7, 16);
}

/// What a BC6H block is packed from reads back from its bytes.
pub proof fn lemma_reads11(f: Fit11, c: int, p: int)
    requires
        forall|c: int| 0 <= c < 3 ==> 0 <= #[trigger] f.0[c] < 1024,
        forall|c: int| 0 <= c < 3 ==> 0 <= #[trigger] f.1[c] < 1024,
        forall|i: int| 0 <= i < 16 ==> #[trigger] f.2[i] < 16,
        f.2[0] < 8,
        0 <= c < 3,
        0 <= p < 16,
    ensures
        ({
            let v = block_number(bytes11(f), 0);
            &&& bytes11(f).len() == 16
            &&& bytes11(f)[0] % 32 == 3
            &&& bit_field(v, (5 + 10 * c) as nat, 10) == f.0[c]
            &&& bit_field(v, (35 + 10 * c) as nat, 10) == f.1[c]
            &&& lone_index(v, 65, 4, p) == f.2[p]
        }),
{
    reveal(bytes11);
    let g = fields11(f);
    lemma_widths11(f);
    vstd::arithmetic::power2::lemma2_to64();
    assert(pow2(0) == 1 && pow2(5) == 32 && pow2(10) == 1024);
    lemma_field_of_block(g, 0, 0, 3, 5);
    let j = (1 + c) as nat;
    let k = (4 + c) as nat;
    assert(g[j as int] == (f.0[c], 10nat));
    assert(g[k as int] == (f.1[c], 10nat));
    assert(bit_width(g, j) == 5 + 10 * c);
    assert(bit_width(g, k) == 35 + 10 * c);
    lemma_field_of_block(g, j, (5 + 10 * c) as nat, f.0[c], 10);
    lemma_field_of_block(g, k, (35 + 10 * c) as nat, f.1[c], 10);
    assert(bit_width(g, 7) == 65);
    lemma_reads_lone_index(g, f.2, 4, 7, p);
    let b = bytes11(f);
    let v = block_number(b, 0);
    let rest = block_number(b, 1);
    assert(v == b[0] + 256 * rest);
    assert(v / 1 == v);
}

/// An encoded BC6H block decodes to the palette entries that its fit chose: the
/// half of each decoded number is the entry.
pub proof fn law_bc6h_block_decodes(px: Seq<Seq<u32>>, i: int, c: int)
    requires
        px.len() == 16,
        0 <= i < 16,
        0 <= c < 3,
    ensures
        ({
            let f = chosen11(halves_of(px));
            &&& bc6h_rgb(bc6h_encoded(px), false) == mode11_texels(bc6h_encoded(px))
            &&& mode11_texels(bc6h_encoded(px))[3 * i + c] == single_of(palette11(f.0, f.1)[f.2[i] as int][c])
            &&& half_of(mode11_texels(bc6h_encoded(px))[3 * i + c]) == palette11(f.0, f.1)[f.2[i] as int][c]
        }),
{
    let h = halves_of(px);
    let f = chosen11(h);
    lemma_chosen11_sound(h);
    lemma_reads11(f, c, i);
    assert((3 * i + c) / 3 == i && (3 * i + c) % 3 == c);
    lemma_entry(f.0[c], f.1[c], f.2[i] as int);
    law_halves_are_kept(entry11(f.0[c], f.1[c], f.2[i] as int));
}

/// The halves of texel `i` of sixteen decoded RGB texels.
pub open spec fn decoded_halves(rgb: Seq<u32>, i: int) -> Seq<int> {
    Seq::new(3, |c: int| half_of(rgb[3 * i + c]))
}

/// The squared distance, over halves, of a block's texels from sixteen decoded
/// ones.
pub open spec fn halves_error(px: Seq<Seq<u32>>, rgb: Seq<u32>) -> int {
    total(Seq::new(16, |i: int| distance3(decoded_halves(rgb, i), halves_of(px)[i])), 16)
}

/// The error that the BC6H encoder chose by is the squared error, over halves,
/// of the texels that its block decodes to, and no more than the first fit's.
pub proof fn law_bc6h_score_is_decoded_error(px: Seq<Seq<u32>>)
    requires
        px.len() == 16,
    ensures
        halves_error(px, bc6h_rgb(bc6h_encoded(px), false)) == chosen11(halves_of(px)).3,
        halves_error(px, bc6h_rgb(bc6h_encoded(px), false)) <= seed11(halves_of(px)).3,
{
    let h = halves_of(px);
    let f = chosen11(h);
    let rgb = bc6h_rgb(bc6h_encoded(px), false);
    lemma_chosen11_sound(h);
    law_bc6h_never_worse_than_seed(h);
    let got = Seq::new(16, |i: int| distance3(decoded_halves(rgb, i), h[i]));
    let want = Seq::new(16, |i: int| distance3(palette11(f.0, f.1)[f.2[i] as int], h[i]));
    assert forall|i: int| 0 <= i < 16 implies #[trigger] got[i] == want[i] by {
        law_bc6h_block_decodes(px, i, 0);
        law_bc6h_block_decodes(px, i, 1);
        law_bc6h_block_decodes(px, i, 2);
    }
    lemma_total_eq(got, want, 16);
}

pub proof fn lemma_encoded_len(px: Seq<Seq<u32>>)
    ensures
        bc6h_encoded(px).len() == 16,
{
    lemma_chosen11_sound(halves_of(px));
    lemma_reads11(chosen11(halves_of(px)), 0, 0);
}

/// Blocks joined one after another and tiled give, at every texel, what the
/// block that holds the texel gives.
proof fn lemma_joined_tiles(
    texels: spec_fn(Seq<u8>) -> Seq<u32>,
    blocks: Seq<Seq<u8>>,
    w: int,
    h: int,
    x: int,
    y: int,
    c: int,
)
    requires
        0 <= x < w,
        0 <= y < h,
        0 <= c < 4,
        blocks.len() == block_count(w) * block_count(h),
        forall|i: int| 0 <= i < blocks.len() ==> (#[trigger] blocks[i]).len() == 16,
    ensures
        0 <= block_of(w, x, y) < blocks.len(),
        tiled(texels, 16, joined(blocks, 16), w, h)[(y * w + x) * 4 + c] == texels(blocks[block_of(w, x, y)])[((y % 4)
            * 4 + x % 4) * 4 + c],
{
    let (bw, bh) = (block_count(w), block_count(h));
    let n = bw * bh;
    let b = block_of(w, x, y);
    assert(0 <= b < n) by (nonlinear_arith)
        requires
            b == (y / 4) * bw + x / 4,
            n == bw * bh,
            0 <= x / 4 < bw,
            0 <= y / 4 < bh,
    ;
    lemma_joined_block(blocks, 16, b);
    let data = joined(blocks, 16);
    let t = y * w + x;
    vstd::arithmetic::div_mod::lemma_fundamental_div_mod_converse(t, w, y, x);
    let k = t * 4 + c;
    assert(0 <= k < w * h * 4) by (nonlinear_arith)
        requires
            k == (y * w + x) * 4 + c,
            0 <= c < 4,
            0 <= x < w,
            0 <= y < h,
    ;
    assert(k / 4 == t && k % 4 == c);
    assert(tiled(texels, 16, data, w, h)[k] == tiled_texel(texels, 16, data, w, t, c));
}

/// The RGBA texels that a block of an encoded image decodes to.
pub proof fn lemma_image_texel(rgba: Seq<u32>, w: int, h: int, x: int, y: int, c: int)
    requires
        0 <= x < w,
        0 <= y < h,
        0 <= c < 4,
    ensures
        bc6h_pixels(bc6h_payload(rgba, w, h), w, h, false)[(y * w + x) * 4 + c] == widened(
            bc6h_rgb(bc6h_encoded(float_block_at(rgba, w, h, block_of(w, x, y))), false),
        )[((y % 4) * 4 + x % 4) * 4 + c],
{
    let n = block_count(w) * block_count(h);
    assert(n >= 0) by (nonlinear_arith)
        requires
            n == block_count(w) * block_count(h),
            block_count(w) >= 0,
            block_count(h) >= 0,
    ;
    let blocks = Seq::new(n as nat, |k: int| bc6h_encoded(float_block_at(rgba, w, h, k)));
    assert forall|i: int| 0 <= i < blocks.len() implies (#[trigger] blocks[i]).len() == 16 by {
        lemma_encoded_len(float_block_at(rgba, w, h, i));
    }
    lemma_joined_tiles(|block: Seq<u8>| widened(bc6h_rgb(block, false)), blocks, w, h, x, y, c);
}

/// Decoding an encoded BC6H image gives, at every texel, what the block that
/// holds the texel decodes to, opaque, and that block is the encoding of the
/// sixteen texels there: the half of each number is the palette entry that the
/// block's fit chose.
pub proof fn law_bc6h_texels_decode_from_their_blocks(rgba: Seq<u32>, w: int, h: int, x: int, y: int, c: int)
    requires
        0 <= x < w,
        0 <= y < h,
        0 <= c < 4,
    ensures
        ({
            let px = float_block_at(rgba, w, h, block_of(w, x, y));
            let got = bc6h_pixels(bc6h_payload(rgba, w, h), w, h, false)[(y * w + x) * 4 + c];
            let f = chosen11(halves_of(px));
            let i = (y % 4) * 4 + x % 4;
            &&& got == widened(bc6h_rgb(bc6h_encoded(px), false))[i * 4 + c]
            &&& c == 3 ==> got == ONE
            &&& c < 3 ==> half_of(got) == palette11(f.0, f.1)[f.2[i] as int][c]
        }),
{
    let px = float_block_at(rgba, w, h, block_of(w, x, y));
    let i = (y % 4) * 4 + x % 4;
    lemma_image_texel(rgba, w, h, x, y, c);
    assert((i * 4 + c) / 4 == i && (i * 4 + c) % 4 == c);
    if c < 3 {
        law_bc6h_block_decodes(px, i, c);
        assert(i * 3 + c == 3 * i + c);
    }
}

/// The nearest endpoint to a half that is an endpoint's is one of that half.
proof fn lemma_endpoint_found(q: int)
    requires
        0 <= q < 1024,
    ensures
        half_of_level(level10(nearest10(half_of_level(level10(q))))) == half_of_level(level10(q)),
        0 <= half_of_level(level10(q)) <= 31743,
{
    let t = half_of_level(level10(q));
    let (lo, hi) = tried10(t);
    assert(t / 31 == q);
    let costs = costs10(t);
    lemma_first_min(costs, costs.len());
    lemma_sq(0);
    assert(costs[q - lo] == 0);
    let n = nearest10(t);
    assert(costs[n - lo] == sq(half_of_level(level10(n)) - t));
    lemma_sq(half_of_level(level10(n)) - t);
}

proof fn lemma_flat_extremes(h: Seq<Seq<int>>, c: int, t: int, n: nat)
    requires
        0 <= t <= 31743,
        forall|i: int| 0 <= i < n ==> (#[trigger] h[i])[c] == t,
    ensures
        n > 0 ==> top_of(h, c, n) == t && bottom_of(h, c, n) == t,
    decreases n,
{
    if n > 0 {
        lemma_flat_extremes(h, c, t, (n - 1) as nat);
        assert(h[n - 1][c] == t);
        if n == 1 {
            assert(top_of(h, c, 0) == 0 && bottom_of(h, c, 0) == 31743);
        }
    }
}

/// Between equal endpoints every entry is the endpoint's half.
proof fn lemma_flat_entry(q: int, k: int)
    requires
        0 <= q < 1024,
        0 <= k < 16,
    ensures
        entry11(q, q, k) == half_of_level(level10(q)),
{
    let (l, w) = (level10(q), weights4()[k]);
    assert(l * (64 - w) + l * w == 64 * l) by (nonlinear_arith);
}

/// A block of one colour whose halves are endpoints' halves comes back exact.
pub proof fn law_bc6h_flat_endpoints_are_exact(px: Seq<Seq<u32>>, q: Seq<int>, i: int, c: int)
    requires
        px.len() == 16,
        forall|c: int| 0 <= c < 3 ==> 0 <= #[trigger] q[c] < 1024,
        forall|i: int, c: int| 0 <= i < 16 && 0 <= c < 3 ==> half_of(#[trigger] px[i][c]) == half_of_level(level10(q[c])),
        0 <= i < 16,
        0 <= c < 3,
    ensures
        half_of(bc6h_rgb(bc6h_encoded(px), false)[3 * i + c]) == half_of(px[i][c]),
{
    let h = halves_of(px);
    let hi = Seq::new(3, |c: int| top_of(h, c, 16));
    let lo = Seq::new(3, |c: int| bottom_of(h, c, 16));
    assert forall|c: int| 0 <= c < 3 implies #[trigger] hi[c] == half_of_level(level10(q[c])) && lo[c] == hi[c] by {
        lemma_endpoint_found(q[c]);
        assert forall|j: int| 0 <= j < 16 implies (#[trigger] h[j])[c] == half_of_level(level10(q[c])) by {
            assert(half_of(px[j][c]) == half_of_level(level10(q[c])));
        }
        lemma_flat_extremes(h, c, half_of_level(level10(q[c])), 16);
    }
    assert(hi =~= lo);
    let e = quantised3(hi);
    let pal = palette11(e, e);
    assert forall|k: int, c: int| 0 <= k < 16 && 0 <= c < 3 implies #[trigger] pal[k][c] == half_of_level(level10(q[c])) by {
        assert(hi[c] == half_of_level(level10(q[c])));
        lemma_endpoint_found(q[c]);
        lemma_nearest10_range(hi[c]);
        lemma_flat_entry(e[c], k);
    }
    let costs = costs11(h, pal);
    assert forall|j: int| 0 <= j < 16 implies #[trigger] fit_costs(costs)[j] == 0 by {
        lemma_first_min_in(costs[j], 16);
        let k = best_of(costs[j]);
        lemma_sq(0);
        assert(half_of(px[j][0]) == pal[k][0] && half_of(px[j][1]) == pal[k][1] && half_of(px[j][2]) == pal[k][2]);
        assert(costs[j][k] == distance3(pal[k], h[j]));
    }
    lemma_total_bound(fit_costs(costs), 16, 0);
    let f = chosen11(h);
    assert(f == seed11(h));
    lemma_chosen11_sound(h);
    assert(f.0 == e && f.1 == e);
    law_bc6h_block_decodes(px, i, c);
    assert(half_of(px[i][c]) == pal[f.2[i] as int][c]);
}

} // verus!
