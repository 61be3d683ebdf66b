//! BC1 / BC2 / BC3 colour blocks.
//!
//! BC1: luminance seed, channel-range seed, principal-axis seed, iterated
//! least-squares refine and a 5:6:5 lattice refine. Every candidate is scored
//! by the squared error that its block decodes to, and only a strictly smaller
//! error replaces the block in hand.

use vstd::prelude::*;

use crate::binary32::{add32, difference, div32, from_int32, less, less32, mul32, of_int, product, quotient, root, sqrt32, sub32, sum};
use crate::encode::blocks::bc7::{darkest, brightest, extrema_opaque};
use crate::encode::blocks::lsq::{channel_values, dot, ls_endpoints, one_over, solve_endpoints_rgb};
use crate::encode::blocks::{color565, from_565, is_block, lemma_rgb_distance, lerp_rgb, max_int, min_int, mix_rgb, nearest_rgb, pack_indices_2bit, rgb_costs, rgb_distance, sqr_rgb, to_565, unpack_indices_2bit, word565, EncodeQuality};
use crate::model::{best_of, digits_of, fit_costs, fit_error, fit_indices, le16, le32, lemma_digits_round_trip, lemma_first_min_in, lemma_total_bound, lemma_total_grows, number_of, read_le16, read_le32, rows, splice, store, total};

verus! {

/// A block and its squared error.
pub type Scored = (Seq<u8>, int);

/// The first of two scored blocks, unless the second errs strictly less.
pub open spec fn better(a: Scored, b: Scored) -> Scored {
    if b.1 < a.1 {
        b
    } else {
        a
    }
}

/// The four colours of a block whose first word is the larger.
pub open spec fn palette_four(c0: int, c1: int) -> Seq<Seq<u8>> {
    let a = color565(c0);
    let b = color565(c1);
    seq![a, b, mix_rgb(2, 1, a, b), mix_rgb(1, 2, a, b)]
}

/// The three colours, and black, of a block whose first word is not the larger.
pub open spec fn palette_three(c0: int, c1: int) -> Seq<Seq<u8>> {
    let a = color565(c0);
    let b = color565(c1);
    seq![a, b, mix_rgb(1, 1, a, b), seq![0u8, 0u8, 0u8]]
}

/// The colours that a block's two words stand for.
pub open spec fn block_palette(c0: int, c1: int) -> Seq<Seq<u8>> {
    if c0 > c1 {
        palette_four(c0, c1)
    } else {
        palette_three(c0, c1)
    }
}

/// The eight bytes of a block: two 5:6:5 words, then the index word.
pub open spec fn block_bytes(c0: int, c1: int, table: int) -> Seq<u8> {
    seq![
        (c0 % 256) as u8,
        (c0 / 256) as u8,
        (c1 % 256) as u8,
        (c1 / 256) as u8,
        (table % 256) as u8,
        (table / 256 % 256) as u8,
        (table / 65536 % 256) as u8,
        (table / 16777216) as u8,
    ]
}

/// Reading a block's fields gives back what it was made of.
pub proof fn lemma_block_fields(c0: int, c1: int, table: int)
    requires
        0 <= c0 < 65536,
        0 <= c1 < 65536,
        0 <= table < 0x1_0000_0000,
    ensures
        block_bytes(c0, c1, table).len() == 8,
        le16(block_bytes(c0, c1, table), 0) == c0,
        le16(block_bytes(c0, c1, table), 2) == c1,
        le32(block_bytes(c0, c1, table), 4) == table,
{
}

/// The eight bytes of a block.
pub fn make_block(c0: u16, c1: u16, table: u32) -> (b: [u8; 8])
    ensures
        b@ == block_bytes(c0 as int, c1 as int, table as int),
{
    let b: [u8; 8] = [
        (c0 % 256) as u8,
        (c0 / 256) as u8,
        (c1 % 256) as u8,
        (c1 / 256) as u8,
        (table % 256) as u8,
        (table / 256 % 256) as u8,
        (table / 65536 % 256) as u8,
        (table / 16777216) as u8,
    ];
    proof {
        assert(b@ =~= block_bytes(c0 as int, c1 as int, table as int));
    }
    b
}

/// The first 5:6:5 word.
pub fn first_word(b: &[u8; 8]) -> (w: u16)
    ensures
        w == le16(b@, 0),
{
    read_le16(b[0], b[1])
}

/// The second 5:6:5 word.
pub fn second_word(b: &[u8; 8]) -> (w: u16)
    ensures
        w == le16(b@, 2),
{
    read_le16(b[2], b[3])
}

/// The index word.
pub fn index_word(b: &[u8; 8]) -> (w: u32)
    ensures
        w == le32(b@, 4),
{
    read_le32(b[4], b[5], b[6], b[7])
}

/// The four colours of a pair of 5:6:5 words, `hi` above `lo`.
pub fn bc1_palette_565(hi: u16, lo: u16) -> (pal: [[u8; 3]; 4])
    ensures
        rows(pal) == palette_four(hi as int, lo as int),
{
    let a: [u8; 3] = from_565(hi);
    let b: [u8; 3] = from_565(lo);
    let pal: [[u8; 3]; 4] = [a, b, lerp_rgb::<2, 1>(a, b), lerp_rgb::<1, 2>(a, b)];
    proof {
        assert(rows(pal) =~= palette_four(hi as int, lo as int));
    }
    pal
}

/// The three colours, and black, of a pair of 5:6:5 words.
pub fn bc1_palette_punch(c0: u16, c1: u16) -> (pal: [[u8; 3]; 4])
    ensures
        rows(pal) == palette_three(c0 as int, c1 as int),
{
    let a: [u8; 3] = from_565(c0);
    let b: [u8; 3] = from_565(c1);
    let pal: [[u8; 3]; 4] = [a, b, lerp_rgb::<1, 1>(a, b), [0u8, 0u8, 0u8]];
    proof {
        assert(pal@[3]@ =~= seq![0u8, 0u8, 0u8]);
        assert(rows(pal) =~= palette_three(c0 as int, c1 as int));
    }
    pal
}

/// What fitting an RGB palette to texels can cost.
pub proof fn lemma_rgb_fit(px: Seq<Seq<u8>>, pal: Seq<Seq<u8>>)
    requires
        px.len() <= 16,
        0 < pal.len() <= 16,
    ensures
        forall|i: int|
            0 <= i < px.len() ==> 0 <= #[trigger] fit_costs(rgb_costs(px, pal))[i] <= 195075,
        forall|i: int| 0 <= i < px.len() ==> #[trigger] fit_indices(rgb_costs(px, pal))[i] < pal.len(),
        0 <= fit_error(rgb_costs(px, pal)) <= px.len() * 195075,
{
    let costs = rgb_costs(px, pal);
    assert forall|i: int| 0 <= i < px.len() implies 0 <= #[trigger] fit_costs(costs)[i] <= 195075 by {
        lemma_first_min_in(costs[i], pal.len());
        lemma_rgb_distance(px[i], pal[best_of(costs[i])]);
    }
    assert forall|i: int| 0 <= i < px.len() implies #[trigger] fit_indices(costs)[i] < pal.len() by {
        lemma_first_min_in(costs[i], pal.len());
    }
    lemma_total_bound(fit_costs(costs), px.len(), 195075);
}

/// The nearest of four colours for each texel, and the whole error; none where
/// the error reaches the limit.
pub fn fit_rgb4(px: &[[u8; 4]; 16], pal: &[[u8; 3]; 4], err_limit: i32) -> (r: Option<([u8; 16], i32)>)
    ensures
        r is Some <==> fit_error(rgb_costs(rows(*px), rows(*pal))) < err_limit,
        r matches Some((idx, err)) ==> idx@ == fit_indices(rgb_costs(rows(*px), rows(*pal))) && err == fit_error(
            rgb_costs(rows(*px), rows(*pal)),
        ) && 0 <= err <= 3121200 && forall|i: int| 0 <= i < 16 ==> #[trigger] idx@[i] < 4,
{
    let ghost costs = rgb_costs(rows(*px), rows(*pal));
    proof {
        lemma_rgb_fit(rows(*px), rows(*pal));
    }
    let mut idx: [u8; 16] = [0u8; 16];
    let mut err: i32 = 0;
    let mut i: usize = 0;
    while i < 16
        invariant
            i <= 16,
            costs == rgb_costs(rows(*px), rows(*pal)),
            forall|i: int| 0 <= i < 16 ==> 0 <= #[trigger] fit_costs(costs)[i] <= 195075,
            forall|i: int| 0 <= i < 16 ==> #[trigger] fit_indices(costs)[i] < 4,
            forall|k: int| 0 <= k < i ==> #[trigger] idx@[k] == fit_indices(costs)[k],
            err == total(fit_costs(costs), i as nat),
            0 <= err <= i * 195075,
        decreases 16 - i,
    {
        let (j, d) = nearest_rgb(px[i], pal);
        proof {
            assert(costs[i as int] =~= Seq::new(4, |j: int| rgb_distance(px@[i as int]@, pal@[j]@)));
            assert(fit_indices(costs)[i as int] == j);
            assert(fit_costs(costs)[i as int] == d);
        }
        idx[i] = j;
        err = err + d;
        if err >= err_limit {
            proof {
                lemma_total_grows(fit_costs(costs), (i + 1) as nat, 16);
            }
            return None;
        }
        i = i + 1;
    }
    if err >= err_limit {
        return None;
    }
    proof {
        assert(idx@ =~= fit_indices(costs));
    }
    Some((idx, err))
}

/// The four-colour index word of a block of texels, and its error; none where
/// the error reaches the limit.
pub fn bc1_fit_4color(px: &[[u8; 4]; 16], pal: &[[u8; 3]; 4], err_limit: i32) -> (r: Option<(u32, i32)>)
    ensures
        r is Some <==> fit_error(rgb_costs(rows(*px), rows(*pal))) < err_limit,
        r matches Some((table, err)) ==> table == number_of(fit_indices(rgb_costs(rows(*px), rows(*pal))), 4, 0) && err
            == fit_error(rgb_costs(rows(*px), rows(*pal))) && 0 <= err <= 3121200,
{
    match fit_rgb4(px, pal, err_limit) {
        None => None,
        Some((idx, err)) => Some((pack_indices_2bit(&idx), err)),
    }
}

/// The best block with the 5:6:5 words `hi` and `lo`, `hi` being the larger.
#[verifier::opaque]
pub open spec fn four_colour(px: Seq<Seq<u8>>, hi: int, lo: int) -> Scored {
    let costs = rgb_costs(px, palette_four(hi, lo));
    (block_bytes(hi, lo, number_of(fit_indices(costs), 4, 0)), fit_error(costs))
}

/// Index of a texel in a three-colour block: transparent texels take black.
pub open spec fn punch_index(p: Seq<u8>, costs: Seq<int>) -> u8 {
    if p[3] < 128 {
        3
    } else {
        best_of(costs) as u8
    }
}

/// The indices of a three-colour block.
pub open spec fn punch_indices(px: Seq<Seq<u8>>, pal: Seq<Seq<u8>>) -> Seq<u8> {
    Seq::new(16, |i: int| punch_index(px[i], rgb_costs(px, pal)[i]))
}

/// Each texel's cost in a three-colour block.
pub open spec fn punch_costs(px: Seq<Seq<u8>>, pal: Seq<Seq<u8>>) -> Seq<int> {
    Seq::new(16, |i: int| rgb_distance(px[i], pal[punch_indices(px, pal)[i] as int]))
}

/// The best three-colour block whose words are both `c`.
#[verifier::opaque]
pub open spec fn three_colour(px: Seq<Seq<u8>>, c: int) -> Scored {
    let pal = palette_three(c, c);
    (block_bytes(c, c, number_of(punch_indices(px, pal), 4, 0)), total(punch_costs(px, pal), 16))
}

/// The block that a pair of colour endpoints leads to. Endpoints that quantise
/// to one word are told apart by raising the first, where it can be raised.
pub open spec fn endpoint_block(px: Seq<Seq<u8>>, first: Seq<u8>, second: Seq<u8>) -> Scored {
    let b = word565(second);
    let a = if word565(first) != b {
        word565(first)
    } else if b < 65535 {
        b + 1
    } else {
        b
    };
    if a == b {
        three_colour(px, a)
    } else {
        four_colour(px, max_int(a, b), min_int(a, b))
    }
}

proof fn lemma_table_range(idx: Seq<u8>, i: nat)
    requires
        idx.len() == 16,
        i <= 16,
        forall|k: int| 0 <= k < 16 ==> #[trigger] idx[k] < 4,
    ensures
        0 <= number_of(idx, 4, i) < vstd::arithmetic::power2::pow2((2 * (16 - i)) as nat),
    decreases 16 - i,
{
    vstd::arithmetic::power2::lemma2_to64();
    if i < 16 {
        lemma_table_range(idx, i + 1);
        let e = (2 * (15 - i)) as nat;
        vstd::arithmetic::power2::lemma_pow2_adds(e, 2);
    }
}

/// A scored block of the four-colour kind is well formed and its fields are
/// what it was made of.
pub proof fn lemma_four_colour(px: Seq<Seq<u8>>, hi: int, lo: int)
    requires
        is_block(px),
        0 <= lo < 65536,
        0 <= hi < 65536,
    ensures
        four_colour(px, hi, lo).0.len() == 8,
        le16(four_colour(px, hi, lo).0, 0) == hi,
        le16(four_colour(px, hi, lo).0, 2) == lo,
        digits_of(le32(four_colour(px, hi, lo).0, 4), 4, 16) == fit_indices(rgb_costs(px, palette_four(hi, lo))),
        0 <= four_colour(px, hi, lo).1 <= 3121200,
{
    reveal(four_colour);
    let costs = rgb_costs(px, palette_four(hi, lo));
    lemma_rgb_fit(px, palette_four(hi, lo));
    lemma_table_range(fit_indices(costs), 0);
    vstd::arithmetic::power2::lemma2_to64();
    lemma_block_fields(hi, lo, number_of(fit_indices(costs), 4, 0));
    lemma_digits_round_trip(fit_indices(costs), 4);
}

/// The same of the three-colour kind.
pub proof fn lemma_three_colour(px: Seq<Seq<u8>>, c: int)
    requires
        is_block(px),
        0 <= c < 65536,
    ensures
        three_colour(px, c).0.len() == 8,
        le16(three_colour(px, c).0, 0) == c,
        le16(three_colour(px, c).0, 2) == c,
        digits_of(le32(three_colour(px, c).0, 4), 4, 16) == punch_indices(px, palette_three(c, c)),
        0 <= three_colour(px, c).1 <= 3121200,
        forall|i: int| 0 <= i < 16 ==> #[trigger] punch_indices(px, palette_three(c, c))[i] < 4,
        forall|i: int| 0 <= i < 16 ==> 0 <= #[trigger] punch_costs(px, palette_three(c, c))[i] <= 195075,
{
    reveal(three_colour);
    let pal = palette_three(c, c);
    let costs = rgb_costs(px, pal);
    assert forall|i: int| 0 <= i < 16 implies #[trigger] punch_indices(px, pal)[i] < 4 by {
        lemma_first_min_in(costs[i], 4);
    }
    assert forall|i: int| 0 <= i < 16 implies 0 <= #[trigger] punch_costs(px, pal)[i] <= 195075 by {
        lemma_rgb_distance(px[i], pal[punch_indices(px, pal)[i] as int]);
    }
    lemma_total_bound(punch_costs(px, pal), 16, 195075);
    lemma_table_range(punch_indices(px, pal), 0);
    vstd::arithmetic::power2::lemma2_to64();
    lemma_block_fields(c, c, number_of(punch_indices(px, pal), 4, 0));
    lemma_digits_round_trip(punch_indices(px, pal), 4);
}

/// The squared error, over red, green and blue, of the palette colours that a
/// block's words and indices pick, mixtures rounded down. Decoders may round a
/// mixture up, by one at most.
#[verifier::opaque]
pub open spec fn block_error(px: Seq<Seq<u8>>, block: Seq<u8>) -> int {
    total(block_costs(px, block), 16)
}

/// Each texel's squared error against the palette colour its index picks.
pub open spec fn block_costs(px: Seq<Seq<u8>>, block: Seq<u8>) -> Seq<int> {
    let pal = block_palette(le16(block, 0), le16(block, 2));
    Seq::new(16, |i: int| rgb_distance(px[i], pal[digits_of(le32(block, 4), 4, 16)[i] as int]))
}

/// The error that a candidate is scored by is the error of the colours that its
/// bytes pick.
pub proof fn law_score_is_block_error(px: Seq<Seq<u8>>, first: Seq<u8>, second: Seq<u8>)
    requires
        is_block(px),
    ensures
        endpoint_block(px, first, second).1 == block_error(px, endpoint_block(px, first, second).0),
{
    reveal(block_error);
    reveal(three_colour);
    let b = word565(second);
    let a = if word565(first) != b {
        word565(first)
    } else if b < 65535 {
        b + 1
    } else {
        b
    };
    if a == b {
        lemma_three_colour(px, a);
        let pal = palette_three(a, a);
        assert(block_costs(px, three_colour(px, a).0) =~= punch_costs(px, pal));
    } else {
        law_four_colour_score(px, max_int(a, b), min_int(a, b));
    }
}

/// The error of a four-colour block is the error of the colours that its bytes
/// pick.
pub proof fn law_four_colour_score(px: Seq<Seq<u8>>, hi: int, lo: int)
    requires
        is_block(px),
        0 <= lo < hi < 65536,
    ensures
        four_colour(px, hi, lo).1 == block_error(px, four_colour(px, hi, lo).0),
{
    reveal(block_error);
    reveal(four_colour);
    lemma_four_colour(px, hi, lo);
    let costs = rgb_costs(px, palette_four(hi, lo));
    lemma_rgb_fit(px, palette_four(hi, lo));
    assert forall|i: int| 0 <= i < 16 implies #[trigger] block_costs(px, four_colour(px, hi, lo).0)[i] == fit_costs(
        costs,
    )[i] by {
        lemma_first_min_in(costs[i], 4);
        assert(fit_indices(costs)[i] == best_of(costs[i]));
    }
    assert(block_costs(px, four_colour(px, hi, lo).0) =~= fit_costs(costs));
}

/// The best four-colour block with palette `pal`, the palette of `hi` and
/// `lo`; none where its error reaches the limit.
pub fn pack_bc1_scored_with(
    px: &[[u8; 4]; 16],
    hi: u16,
    lo: u16,
    pal: &[[u8; 3]; 4],
    err_limit: i32,
) -> (r: Option<([u8; 8], i32)>)
    requires
        rows(*pal) == palette_four(hi as int, lo as int),
    ensures
        r is Some <==> four_colour(rows(*px), hi as int, lo as int).1 < err_limit,
        r matches Some((b, e)) ==> (b@, e as int) == four_colour(rows(*px), hi as int, lo as int) && 0 <= e <= 3121200,
{
    proof {
        reveal(four_colour);
    }
    match bc1_fit_4color(px, pal, err_limit) {
        None => None,
        Some((table, err)) => Some((make_block(hi, lo, table), err)),
    }
}

/// The best four-colour block of two different 5:6:5 words, in either order.
pub fn pack_bc1_scored_565(px: &[[u8; 4]; 16], a: u16, b: u16, err_limit: i32) -> (r: Option<([u8; 8], i32)>)
    requires
        a != b,
    ensures
        ({
            let best = four_colour(rows(*px), max_int(a as int, b as int), min_int(a as int, b as int));
            &&& r is Some <==> best.1 < err_limit
            &&& r matches Some((blk, e)) ==> (blk@, e as int) == best && 0 <= e <= 3121200
        }),
{
    let (hi, lo): (u16, u16) = if a > b {
        (a, b)
    } else {
        (b, a)
    };
    let pal: [[u8; 3]; 4] = bc1_palette_565(hi, lo);
    pack_bc1_scored_with(px, hi, lo, &pal, err_limit)
}

fn pack_punch(px: &[[u8; 4]; 16], c: u16, err_limit: i32) -> (r: Option<([u8; 8], i32)>)
    ensures
        r is Some <==> three_colour(rows(*px), c as int).1 < err_limit,
        r matches Some((b, e)) ==> (b@, e as int) == three_colour(rows(*px), c as int) && 0 <= e <= 3121200,
{
    proof {
        reveal(three_colour);
    }
    let pal: [[u8; 3]; 4] = bc1_palette_punch(c, c);
    let ghost costs = rgb_costs(rows(*px), rows(pal));
    let ghost want = punch_costs(rows(*px), rows(pal));
    let ghost chosen = punch_indices(rows(*px), rows(pal));
    proof {
        lemma_three_colour(rows(*px), c as int);
    }
    let mut idx: [u8; 16] = [0u8; 16];
    let mut err: i32 = 0;
    let mut i: usize = 0;
    while i < 16
        invariant
            i <= 16,
            costs == rgb_costs(rows(*px), rows(pal)),
            want == punch_costs(rows(*px), rows(pal)),
            chosen == punch_indices(rows(*px), rows(pal)),
            three_colour(rows(*px), c as int).1 == total(want, 16),
            forall|i: int| 0 <= i < 16 ==> 0 <= #[trigger] want[i] <= 195075,
            forall|k: int| 0 <= k < i ==> #[trigger] idx@[k] == chosen[k],
            err == total(want, i as nat),
            0 <= err <= i * 195075,
        decreases 16 - i,
    {
        let p: [u8; 4] = px[i];
        let (j, d): (u8, i32) = if p[3] < 128 {
            (3, sqr_rgb(p, pal[3]))
        } else {
            nearest_rgb(p, &pal)
        };
        proof {
            assert(costs[i as int] =~= Seq::new(4, |j: int| rgb_distance(px@[i as int]@, pal@[j]@)));
            assert(chosen[i as int] == j);
            assert(want[i as int] == d);
        }
        idx[i] = j;
        err = err + d;
        if err >= err_limit {
            proof {
                lemma_total_grows(want, (i + 1) as nat, 16);
            }
            return None;
        }
        i = i + 1;
    }
    if err >= err_limit {
        return None;
    }
    proof {
        assert(idx@ =~= chosen);
    }
    Some((make_block(c, c, pack_indices_2bit(&idx)), err))
}

/// The block that a pair of colour endpoints leads to, and its error; none
/// where the error reaches the limit.
pub fn pack_bc1_scored(px: &[[u8; 4]; 16], max_c: [u8; 3], min_c: [u8; 3], err_limit: i32) -> (r: Option<([u8; 8], i32)>)
    ensures
        r is Some <==> endpoint_block(rows(*px), max_c@, min_c@).1 < err_limit,
        r matches Some((b, e)) ==> (b@, e as int) == endpoint_block(rows(*px), max_c@, min_c@) && 0 <= e <= 3121200,
{
    let mut a: u16 = to_565(max_c);
    let b: u16 = to_565(min_c);
    if a == b {
        if a < 0xFFFF {
            a = a + 1;
        } else {
            return pack_punch(px, a, err_limit);
        }
    }
    pack_bc1_scored_565(px, a, b, err_limit)
}

/// The least value of channel `c` over the first `n` texels.
pub open spec fn channel_low(px: Seq<Seq<u8>>, c: int, n: nat) -> int
    decreases n,
{
    if n == 0 {
        255
    } else {
        min_int(channel_low(px, c, (n - 1) as nat), px[n - 1][c] as int)
    }
}

/// The greatest value of channel `c` over the first `n` texels.
pub open spec fn channel_high(px: Seq<Seq<u8>>, c: int, n: nat) -> int
    decreases n,
{
    if n == 0 {
        0
    } else {
        max_int(channel_high(px, c, (n - 1) as nat), px[n - 1][c] as int)
    }
}

/// The greatest value of each of `k` channels.
pub open spec fn channel_highs(px: Seq<Seq<u8>>, k: nat) -> Seq<u8> {
    Seq::new(k, |c: int| channel_high(px, c, px.len()) as u8)
}

/// The least value of each of `k` channels.
pub open spec fn channel_lows(px: Seq<Seq<u8>>, k: nat) -> Seq<u8> {
    Seq::new(k, |c: int| channel_low(px, c, px.len()) as u8)
}

/// The greatest and the least value of one channel.
pub fn channel_minmax(px: &[[u8; 4]; 16], c: usize) -> (r: (u8, u8))
    requires
        c < 4,
    ensures
        r.0 == channel_high(rows(*px), c as int, 16),
        r.1 == channel_low(rows(*px), c as int, 16),
        r.1 <= r.0,
{
    let mut mn: u8 = 255;
    let mut mx: u8 = 0;
    let mut i: usize = 0;
    while i < 16
        invariant
            i <= 16,
            c < 4,
            mx == channel_high(rows(*px), c as int, i as nat),
            mn == channel_low(rows(*px), c as int, i as nat),
            i > 0 ==> mn <= mx,
        decreases 16 - i,
    {
        let v: u8 = px[i][c];
        proof {
            assert(rows(*px)[i as int][c as int] == v);
        }
        if v < mn {
            mn = v;
        }
        if v > mx {
            mx = v;
        }
        i = i + 1;
    }
    (mx, mn)
}

/// The greatest and the least value of each colour channel.
pub fn channel_minmax_rgb(px: &[[u8; 4]; 16]) -> (r: ([u8; 3], [u8; 3]))
    ensures
        r.0@ == channel_highs(rows(*px), 3),
        r.1@ == channel_lows(rows(*px), 3),
        forall|c: int| 0 <= c < 3 ==> #[trigger] r.1@[c] <= r.0@[c],
{
    let (h0, l0) = channel_minmax(px, 0);
    let (h1, l1) = channel_minmax(px, 1);
    let (h2, l2) = channel_minmax(px, 2);
    let mx: [u8; 3] = [h0, h1, h2];
    let mn: [u8; 3] = [l0, l1, l2];
    proof {
        assert(mx@ =~= channel_highs(rows(*px), 3));
        assert(mn@ =~= channel_lows(rows(*px), 3));
    }
    (mx, mn)
}

/// The sum, in single precision, of the first `n` patterns.
pub open spec fn float_sum(xs: Seq<u32>, n: nat) -> u32
    decreases n,
{
    if n == 0 {
        of_int(0)
    } else {
        sum(float_sum(xs, (n - 1) as nat), xs[n - 1])
    }
}

/// The mean of channel `c`.
pub open spec fn channel_mean(px: Seq<Seq<u8>>, c: int) -> u32 {
    quotient(float_sum(channel_values(px, c), 16), of_int(16))
}

/// Each texel's deviation from the mean of channel `c`.
pub open spec fn deviations(px: Seq<Seq<u8>>, c: int) -> Seq<u32> {
    Seq::new(16, |i: int| difference(of_int(px[i][c] as int), channel_mean(px, c)))
}

/// The scatter of channels `a` and `b`.
pub open spec fn scatter(px: Seq<Seq<u8>>, a: int, b: int) -> u32 {
    dot(deviations(px, a), deviations(px, b), 16)
}

/// Three patterns added from the left.
pub open spec fn sum3(a: u32, b: u32, c: u32) -> u32 {
    sum(sum(a, b), c)
}

/// The inner product of two triples, added from the left.
pub open spec fn inner3(a: (u32, u32, u32), b: (u32, u32, u32)) -> u32 {
    sum3(product(a.0, b.0), product(a.1, b.1), product(a.2, b.2))
}

/// Row `a` of the scatter matrix.
pub open spec fn scatter_row(px: Seq<Seq<u8>>, a: int) -> (u32, u32, u32) {
    if a == 0 {
        (scatter(px, 0, 0), scatter(px, 0, 1), scatter(px, 0, 2))
    } else if a == 1 {
        (scatter(px, 0, 1), scatter(px, 1, 1), scatter(px, 1, 2))
    } else {
        (scatter(px, 0, 2), scatter(px, 1, 2), scatter(px, 2, 2))
    }
}

/// The principal axis after `n` power iterations; none where an iterate
/// vanishes.
pub open spec fn principal_axis(px: Seq<Seq<u8>>, n: nat) -> Option<(u32, u32, u32)>
    decreases n,
{
    let r0 = scatter_row(px, 0);
    let r1 = scatter_row(px, 1);
    let r2 = scatter_row(px, 2);
    if n == 0 {
        Some((sum3(r0.0, r0.1, r0.2), sum3(r1.0, r1.1, r1.2), sum3(r2.0, r2.1, r2.2)))
    } else {
        match principal_axis(px, (n - 1) as nat) {
            None => None,
            Some(axis) => {
                let v = (inner3(r0, axis), inner3(r1, axis), inner3(r2, axis));
                let len = root(inner3(v, v));
                if less(len, one_over(1000000)) {
                    None
                } else {
                    Some((quotient(v.0, len), quotient(v.1, len), quotient(v.2, len)))
                }
            },
        }
    }
}

/// A texel's position along an axis.
pub open spec fn projection(px: Seq<Seq<u8>>, axis: (u32, u32, u32), i: int) -> u32 {
    sum3(
        product(deviations(px, 0)[i], axis.0),
        product(deviations(px, 1)[i], axis.1),
        product(deviations(px, 2)[i], axis.2),
    )
}

/// The least position of the first `n` texels below the largest finite number,
/// and the colour there; black where there is none.
pub open spec fn lowest_along(px: Seq<Seq<u8>>, axis: (u32, u32, u32), n: nat) -> (u32, Seq<u8>)
    decreases n,
{
    if n == 0 {
        (0x7F7F_FFFF, seq![0u8, 0u8, 0u8])
    } else {
        let (t, c) = lowest_along(px, axis, (n - 1) as nat);
        let u = projection(px, axis, n - 1);
        if less(u, t) {
            (u, seq![px[n - 1][0], px[n - 1][1], px[n - 1][2]])
        } else {
            (t, c)
        }
    }
}

/// The greatest position of the first `n` texels above the least finite number,
/// and the colour there; black where there is none.
pub open spec fn highest_along(px: Seq<Seq<u8>>, axis: (u32, u32, u32), n: nat) -> (u32, Seq<u8>)
    decreases n,
{
    if n == 0 {
        (0xFF7F_FFFF, seq![0u8, 0u8, 0u8])
    } else {
        let (t, c) = highest_along(px, axis, (n - 1) as nat);
        let u = projection(px, axis, n - 1);
        if less(t, u) {
            (u, seq![px[n - 1][0], px[n - 1][1], px[n - 1][2]])
        } else {
            (t, c)
        }
    }
}

/// The two colours farthest apart along the principal axis; none where there
/// is no axis or the two are one colour.
pub open spec fn axis_extremes(px: Seq<Seq<u8>>) -> Option<(Seq<u8>, Seq<u8>)> {
    match principal_axis(px, 3) {
        None => None,
        Some(axis) => {
            let lo = lowest_along(px, axis, 16).1;
            let hi = highest_along(px, axis, 16).1;
            if lo == hi {
                None
            } else {
                Some((hi, lo))
            }
        },
    }
}

fn mean_of(px: &[[u8; 4]; 16], c: usize) -> (m: u32)
    requires
        c < 4,
    ensures
        m == channel_mean(rows(*px), c as int),
{
    let ghost xs = channel_values(rows(*px), c as int);
    let mut s: u32 = from_int32(0);
    let mut i: usize = 0;
    while i < 16
        invariant
            i <= 16,
            c < 4,
            xs == channel_values(rows(*px), c as int),
            s == float_sum(xs, i as nat),
        decreases 16 - i,
    {
        let x: u32 = from_int32(px[i][c] as i64);
        proof {
            assert(xs[i as int] == x);
        }
        s = add32(s, x);
        i = i + 1;
    }
    div32(s, from_int32(16))
}

fn deviations_of(px: &[[u8; 4]; 16], c: usize) -> (d: [u32; 16])
    requires
        c < 4,
    ensures
        d@ == deviations(rows(*px), c as int),
{
    let m: u32 = mean_of(px, c);
    let mut d: [u32; 16] = [0u32; 16];
    let mut i: usize = 0;
    while i < 16
        invariant
            i <= 16,
            c < 4,
            m == channel_mean(rows(*px), c as int),
            forall|k: int| 0 <= k < i ==> #[trigger] d@[k] == deviations(rows(*px), c as int)[k],
        decreases 16 - i,
    {
        d[i] = sub32(from_int32(px[i][c] as i64), m);
        proof {
            assert(rows(*px)[i as int][c as int] == px@[i as int]@[c as int]);
        }
        i = i + 1;
    }
    proof {
        assert(d@ =~= deviations(rows(*px), c as int));
    }
    d
}

fn dot16(a: &[u32; 16], b: &[u32; 16]) -> (s: u32)
    ensures
        s == dot(a@, b@, 16),
{
    let mut s: u32 = from_int32(0);
    let mut i: usize = 0;
    while i < 16
        invariant
            i <= 16,
            s == dot(a@, b@, i as nat),
        decreases 16 - i,
    {
        s = add32(s, mul32(a[i], b[i]));
        i = i + 1;
    }
    s
}

fn inner_product(a: (u32, u32, u32), b: (u32, u32, u32)) -> (s: u32)
    ensures
        s == inner3(a, b),
{
    add32(add32(mul32(a.0, b.0), mul32(a.1, b.1)), mul32(a.2, b.2))
}

/// The two colours farthest apart along the block's principal axis.
pub fn pca_extremes_rgb(px: &[[u8; 4]; 16]) -> (r: Option<([u8; 3], [u8; 3])>)
    ensures
        r matches Some((hi, lo)) ==> axis_extremes(rows(*px)) == Some((hi@, lo@)),
        r is None ==> axis_extremes(rows(*px)) is None,
{
    let ghost p = rows(*px);
    let d0: [u32; 16] = deviations_of(px, 0);
    let d1: [u32; 16] = deviations_of(px, 1);
    let d2: [u32; 16] = deviations_of(px, 2);
    let c01: u32 = dot16(&d0, &d1);
    let c02: u32 = dot16(&d0, &d2);
    let c12: u32 = dot16(&d1, &d2);
    let r0: (u32, u32, u32) = (dot16(&d0, &d0), c01, c02);
    let r1: (u32, u32, u32) = (c01, dot16(&d1, &d1), c12);
    let r2: (u32, u32, u32) = (c02, c12, dot16(&d2, &d2));
    let mut axis: (u32, u32, u32) = (
        add32(add32(r0.0, r0.1), r0.2),
        add32(add32(r1.0, r1.1), r1.2),
        add32(add32(r2.0, r2.1), r2.2),
    );
    let tiny: u32 = div32(from_int32(1), from_int32(1000000));
    let mut k: usize = 0;
    while k < 3
        invariant
            k <= 3,
            p == rows(*px),
            r0 == scatter_row(p, 0),
            r1 == scatter_row(p, 1),
            r2 == scatter_row(p, 2),
            tiny == one_over(1000000),
            principal_axis(p, k as nat) == Some(axis),
        decreases 3 - k,
    {
        let v: (u32, u32, u32) = (inner_product(r0, axis), inner_product(r1, axis), inner_product(r2, axis));
        let len: u32 = sqrt32(inner_product(v, v));
        if less32(len, tiny) {
            proof {
                assert(principal_axis(p, (k + 1) as nat) is None);
                lemma_axis_stays_none(p, (k + 1) as nat, 3);
            }
            return None;
        }
        axis = (div32(v.0, len), div32(v.1, len), div32(v.2, len));
        k = k + 1;
    }
    let mut lo_t: u32 = 0x7F7F_FFFF;
    let mut hi_t: u32 = 0xFF7F_FFFF;
    let mut lo_c: [u8; 3] = [0u8; 3];
    let mut hi_c: [u8; 3] = [0u8; 3];
    proof {
        assert(lo_c@ =~= seq![0u8, 0u8, 0u8]);
    }
    let mut i: usize = 0;
    while i < 16
        invariant
            i <= 16,
            p == rows(*px),
            d0@ == deviations(p, 0),
            d1@ == deviations(p, 1),
            d2@ == deviations(p, 2),
            lowest_along(p, axis, i as nat) == (lo_t, lo_c@),
            highest_along(p, axis, i as nat) == (hi_t, hi_c@),
        decreases 16 - i,
    {
        let t: u32 = add32(add32(mul32(d0[i], axis.0), mul32(d1[i], axis.1)), mul32(d2[i], axis.2));
        let c: [u8; 3] = [px[i][0], px[i][1], px[i][2]];
        proof {
            assert(c@ =~= seq![p[i as int][0], p[i as int][1], p[i as int][2]]);
            assert(t == projection(p, axis, i as int));
        }
        if less32(t, lo_t) {
            lo_t = t;
            lo_c = c;
        }
        if less32(hi_t, t) {
            hi_t = t;
            hi_c = c;
        }
        i = i + 1;
    }
    if lo_c[0] == hi_c[0] && lo_c[1] == hi_c[1] && lo_c[2] == hi_c[2] {
        proof {
            assert(lo_c@ =~= hi_c@);
        }
        return None;
    }
    Some((hi_c, lo_c))
}

proof fn lemma_axis_stays_none(px: Seq<Seq<u8>>, m: nat, n: nat)
    requires
        m <= n,
        principal_axis(px, m) is None,
    ensures
        principal_axis(px, n) is None,
    decreases n,
{
    if m < n {
        lemma_axis_stays_none(px, m, (n - 1) as nat);
    }
}

/// The weight, towards the second colour, of a four-colour index.
pub open spec fn bc1_weight(i: u8) -> u32 {
    if i == 0 {
        of_int(0)
    } else if i == 1 {
        of_int(1)
    } else if i == 2 {
        quotient(of_int(1), of_int(3))
    } else {
        quotient(of_int(2), of_int(3))
    }
}

/// The weights of a string of four-colour indices.
pub open spec fn bc1_weights(idx: Seq<u8>) -> Seq<u32> {
    Seq::new(idx.len(), |i: int| bc1_weight(idx[i]))
}

/// The weights of sixteen four-colour indices.
pub fn weights_of_indices(idx: &[u8; 16]) -> (ws: [u32; 16])
    ensures
        ws@ == bc1_weights(idx@),
{
    let one: u32 = from_int32(1);
    let three: u32 = from_int32(3);
    let zero: u32 = from_int32(0);
    let third: u32 = div32(one, three);
    let two_thirds: u32 = div32(from_int32(2), three);
    let mut ws: [u32; 16] = [0u32; 16];
    let mut i: usize = 0;
    while i < 16
        invariant
            i <= 16,
            zero == of_int(0),
            one == of_int(1),
            third == quotient(of_int(1), of_int(3)),
            two_thirds == quotient(of_int(2), of_int(3)),
            forall|k: int| 0 <= k < i ==> #[trigger] ws@[k] == bc1_weight(idx@[k]),
        decreases 16 - i,
    {
        let v: u8 = idx[i];
        ws[i] = if v == 0 {
            zero
        } else if v == 1 {
            one
        } else if v == 2 {
            third
        } else {
            two_thirds
        };
        i = i + 1;
    }
    proof {
        assert(ws@ =~= bc1_weights(idx@));
    }
    ws
}

/// The least-squares endpoints of a four-colour block's indices.
pub open spec fn block_ls(px: Seq<Seq<u8>>, block: Seq<u8>) -> Option<(Seq<u8>, Seq<u8>)> {
    if le16(block, 0) <= le16(block, 2) {
        None
    } else {
        ls_endpoints(px, bc1_weights(digits_of(le32(block, 4), 4, 16)), 3)
    }
}

/// The least-squares endpoints of a four-colour block's indices; none for a
/// three-colour block or where the indices do not determine them.
pub fn ls_endpoints_bc1(px: &[[u8; 4]; 16], block: &[u8; 8]) -> (r: Option<([u8; 3], [u8; 3])>)
    ensures
        r matches Some((a, b)) ==> block_ls(rows(*px), block@) == Some((a@, b@)),
        r is None ==> block_ls(rows(*px), block@) is None,
{
    if first_word(block) <= second_word(block) {
        return None;
    }
    let idx: [u8; 16] = unpack_indices_2bit(index_word(block));
    let ws: [u32; 16] = weights_of_indices(&idx);
    proof {
        assert(ws@.take(16) =~= ws@);
    }
    solve_endpoints_rgb(px, &ws, 16)
}

/// Takes the endpoints' block where it errs less than the block in hand.
pub fn consider_bc1(px: &[[u8; 4]; 16], e0: [u8; 3], e1: [u8; 3], best: &mut [u8; 8], best_err: &mut i32)
    requires
        0 <= *old(best_err) <= 3121200,
    ensures
        (final(best)@, *final(best_err) as int) == better(
            (old(best)@, *old(best_err) as int),
            endpoint_block(rows(*px), e0@, e1@),
        ),
        0 <= *final(best_err) <= *old(best_err),
{
    if let Some((cand, err)) = pack_bc1_scored(px, e0, e1, *best_err) {
        *best = cand;
        *best_err = err;
    }
}

/// Least-squares refine, at most `n` rounds, while the error falls.
pub open spec fn ls_rounds(px: Seq<Seq<u8>>, st: Scored, n: nat) -> Scored
    decreases n,
{
    if n == 0 || st.1 == 0 {
        st
    } else {
        match block_ls(px, st.0) {
            None => st,
            Some((a, b)) => {
                let next = better(st, endpoint_block(px, a, b));
                if next.1 >= st.1 {
                    next
                } else {
                    ls_rounds(px, next, (n - 1) as nat)
                }
            },
        }
    }
}

/// One lattice move: the field of `base` at place `s`, of `top + 1` levels,
/// moves by `d`.
pub open spec fn lattice_move(px: Seq<Seq<u8>>, st: Scored, base: int, other: int, d: int, s: int, top: int) -> Scored {
    let level = base / s % (top + 1) + d;
    let moved = base + d * s;
    if level < 0 || level > top || moved == other {
        st
    } else {
        better(st, four_colour(px, max_int(moved, other), min_int(moved, other)))
    }
}

/// The three channel moves of one endpoint.
pub open spec fn endpoint_moves(px: Seq<Seq<u8>>, st: Scored, base: int, other: int, d: int) -> Scored {
    let s1 = lattice_move(px, st, base, other, d, 2048, 31);
    let s2 = lattice_move(px, s1, base, other, d, 32, 63);
    lattice_move(px, s2, base, other, d, 1, 31)
}

/// Hill climb on the 5:6:5 lattice, at most `n` rounds: each round tries the
/// moves that bring the two words' channels together.
pub open spec fn lattice_rounds(px: Seq<Seq<u8>>, st: Scored, n: nat) -> Scored
    decreases n,
{
    let c0 = le16(st.0, 0);
    let c1 = le16(st.0, 2);
    if n == 0 || c0 <= c1 {
        st
    } else {
        let next = endpoint_moves(px, endpoint_moves(px, st, c0, c1, -1), c1, c0, 1);
        if next.1 >= st.1 {
            next
        } else {
            lattice_rounds(px, next, (n - 1) as nat)
        }
    }
}

fn try_move(
    px: &[[u8; 4]; 16],
    base: u16,
    other: u16,
    d: i32,
    s: i32,
    top: i32,
    best: &mut [u8; 8],
    best_err: &mut i32,
)
    requires
        0 <= *old(best_err) <= 3121200,
        d == 1 || d == -1,
        (s == 2048 && top == 31) || (s == 32 && top == 63) || (s == 1 && top == 31),
    ensures
        (final(best)@, *final(best_err) as int) == lattice_move(
            rows(*px),
            (old(best)@, *old(best_err) as int),
            base as int,
            other as int,
            d as int,
            s as int,
            top as int,
        ),
        0 <= *final(best_err) <= *old(best_err),
{
    let field: i32 = if s == 2048 {
        base as i32 / 2048 % 32
    } else if s == 32 {
        base as i32 / 32 % 64
    } else {
        base as i32 % 32
    };
    let step: i32 = if d == 1 {
        s
    } else {
        -s
    };
    let level: i32 = field + d;
    proof {
        assert(d * s == step) by (nonlinear_arith)
            requires
                (d == 1 && step == s) || (d == -1 && step == -s),
        ;
        assert(field == base as int / s as int % (top + 1)) by {
            if s == 2048 {
                assert(base as int / s as int == base as int / 2048);
            } else if s == 32 {
                assert(base as int / s as int == base as int / 32);
            } else {
                assert(base as int / s as int == base as int);
            }
        }
    }
    if level < 0 || level > top {
        return;
    }
    let moved: i32 = base as i32 + step;
    if moved == other as i32 {
        return;
    }
    if let Some((blk, e)) = pack_bc1_scored_565(px, moved as u16, other, *best_err) {
        *best = blk;
        *best_err = e;
    }
}

fn try_moves(px: &[[u8; 4]; 16], base: u16, other: u16, d: i32, best: &mut [u8; 8], best_err: &mut i32)
    requires
        0 <= *old(best_err) <= 3121200,
        d == 1 || d == -1,
    ensures
        (final(best)@, *final(best_err) as int) == endpoint_moves(
            rows(*px),
            (old(best)@, *old(best_err) as int),
            base as int,
            other as int,
            d as int,
        ),
        0 <= *final(best_err) <= *old(best_err),
{
    try_move(px, base, other, d, 2048, 31, best, best_err);
    try_move(px, base, other, d, 32, 63, best, best_err);
    try_move(px, base, other, d, 1, 31, best, best_err);
}

/// Rounds of the lattice climb.
pub const BC1_LATTICE_ROUNDS: u32 = 3;

/// Hill climb on the 5:6:5 lattice around the block in hand.
pub fn lattice_refine_bc1(px: &[[u8; 4]; 16], best: &mut [u8; 8], best_err: &mut i32)
    requires
        0 <= *old(best_err) <= 3121200,
    ensures
        (final(best)@, *final(best_err) as int) == lattice_rounds(
            rows(*px),
            (old(best)@, *old(best_err) as int),
            BC1_LATTICE_ROUNDS as nat,
        ),
        0 <= *final(best_err) <= *old(best_err),
{
    let ghost start = (best@, *best_err as int);
    let mut left: u32 = BC1_LATTICE_ROUNDS;
    while left > 0
        invariant
            0 <= *best_err <= *old(best_err) <= 3121200,
            lattice_rounds(rows(*px), start, BC1_LATTICE_ROUNDS as nat) == lattice_rounds(
                rows(*px),
                (best@, *best_err as int),
                left as nat,
            ),
        ensures
            (best@, *best_err as int) == lattice_rounds(rows(*px), start, BC1_LATTICE_ROUNDS as nat),
            0 <= *best_err <= *old(best_err),
        decreases left,
    {
        let c0: u16 = first_word(best);
        let c1: u16 = second_word(best);
        if c0 <= c1 {
            break;
        }
        let prev: i32 = *best_err;
        try_moves(px, c0, c1, -1, best, best_err);
        try_moves(px, c1, c0, 1, best, best_err);
        left = left - 1;
        if *best_err >= prev {
            break;
        }
    }
}

/// The best block found from the two cheap seeds.
pub open spec fn seeded(px: Seq<Seq<u8>>) -> Scored {
    better(
        endpoint_block(px, brightest(px), darkest(px)),
        endpoint_block(px, channel_highs(px, 3), channel_lows(px, 3)),
    )
}

/// The sum of the three channel spans.
pub open spec fn span_sum(px: Seq<Seq<u8>>) -> int {
    let hi = channel_highs(px, 3);
    let lo = channel_lows(px, 3);
    hi[0] - lo[0] + (hi[1] - lo[1]) + (hi[2] - lo[2])
}

/// The block that BC1 encoding gives, and its error.
///
/// A nearly flat block keeps the luminance seed. Otherwise the channel-range
/// seed is tried, and where more than a slight error is left and the effort is
/// not `Fast`, the principal-axis seed, least squares and the lattice climb.
pub open spec fn bc1_encoded(px: Seq<Seq<u8>>, q: EncodeQuality) -> Scored {
    if span_sum(px) < 24 {
        endpoint_block(px, brightest(px), darkest(px))
    } else if q == EncodeQuality::Fast || seeded(px).1 <= 16 {
        seeded(px)
    } else {
        let with_axis = match axis_extremes(px) {
            Some((a, b)) => better(seeded(px), endpoint_block(px, a, b)),
            None => seeded(px),
        };
        lattice_rounds(px, ls_rounds(px, with_axis, 4), BC1_LATTICE_ROUNDS as nat)
    }
}

/// Encodes one block of texels as BC1; alpha is ignored but where all four
/// words of the block would be white.
pub fn encode_bc1_bytes(px: &[[u8; 4]; 16], q: EncodeQuality) -> (best: [u8; 8])
    ensures
        best@ == bc1_encoded(rows(*px), q).0,
{
    encode_bc1_scored(px, q).0
}

/// [`encode_bc1_bytes`] with the block's error.
pub fn encode_bc1_scored(px: &[[u8; 4]; 16], q: EncodeQuality) -> (r: ([u8; 8], i32))
    ensures
        (r.0@, r.1 as int) == bc1_encoded(rows(*px), q),
        0 <= r.1 <= 3121200,
{
    let ghost p = rows(*px);
    let (max_c, min_c) = extrema_opaque(px);
    proof {
        lemma_endpoint_block(p, max_c@, min_c@);
    }
    let mut best: [u8; 8] = [0u8; 8];
    let mut best_err: i32 = 0;
    if let Some((a, e)) = pack_bc1_scored(px, max_c, min_c, i32::MAX) {
        best = a;
        best_err = e;
    }
    let (mx, mn) = channel_minmax_rgb(px);
    let span: i32 = (mx[0] - mn[0]) as i32 + (mx[1] - mn[1]) as i32 + (mx[2] - mn[2]) as i32;
    if span < 24 {
        return (best, best_err);
    }
    consider_bc1(px, mx, mn, &mut best, &mut best_err);
    if q == EncodeQuality::Fast || best_err <= 16 {
        return (best, best_err);
    }
    if let Some((a, b)) = pca_extremes_rgb(px) {
        consider_bc1(px, a, b, &mut best, &mut best_err);
    }
    let ghost start = (best@, best_err as int);
    let mut left: u32 = 4;
    while left > 0
        invariant
            0 <= best_err <= 3121200,
            p == rows(*px),
            ls_rounds(p, start, 4) == ls_rounds(p, (best@, best_err as int), left as nat),
        ensures
            0 <= best_err <= 3121200,
            (best@, best_err as int) == ls_rounds(p, start, 4),
        decreases left,
    {
        if best_err == 0 {
            break;
        }
        match ls_endpoints_bc1(px, &best) {
            None => {
                break;
            },
            Some((e0, e1)) => {
                let prev: i32 = best_err;
                consider_bc1(px, e0, e1, &mut best, &mut best_err);
                left = left - 1;
                if best_err >= prev {
                    break;
                }
            },
        }
    }
    lattice_refine_bc1(px, &mut best, &mut best_err);
    (best, best_err)
}

/// Encodes one block as BC1 into the first eight bytes of `out`.
pub fn encode_bc1(px: &[[u8; 4]; 16], q: EncodeQuality, out: &mut [u8])
    requires
        old(out)@.len() >= 8,
    ensures
        final(out)@ == splice(old(out)@, 0, bc1_encoded(rows(*px), q).0),
        bc1_encoded(rows(*px), q).0.len() == 8,
{
    let b: [u8; 8] = encode_bc1_bytes(px, q);
    store(out, 0, &b);
}

/// The explicit alpha half of a BC2 block: sixteen 4-bit levels, two a byte.
pub open spec fn bc2_alpha(px: Seq<Seq<u8>>) -> Seq<u8> {
    Seq::new(8, |i: int| (px[2 * i][3] / 16 + 16 * (px[2 * i + 1][3] / 16)) as u8)
}

/// Encodes one block as BC2 into the first sixteen bytes of `out`.
pub fn encode_bc2(px: &[[u8; 4]; 16], q: EncodeQuality, out: &mut [u8])
    requires
        old(out)@.len() >= 16,
    ensures
        final(out)@ == splice(old(out)@, 0, bc2_alpha(rows(*px)) + bc1_encoded(rows(*px), q).0),
        bc1_encoded(rows(*px), q).0.len() == 8,
{
    let mut a: [u8; 8] = [0u8; 8];
    let mut i: usize = 0;
    while i < 8
        invariant
            i <= 8,
            forall|k: int| 0 <= k < i ==> #[trigger] a@[k] == bc2_alpha(rows(*px))[k],
        decreases 8 - i,
    {
        let lo: u8 = px[2 * i][3] / 16;
        let hi: u8 = px[2 * i + 1][3] / 16;
        a[i] = lo + 16 * hi;
        i = i + 1;
    }
    let b: [u8; 8] = encode_bc1_bytes(px, q);
    store(out, 0, &a);
    store(out, 8, &b);
    proof {
        lemma_bc1_encoded(rows(*px), q);
        assert(a@ =~= bc2_alpha(rows(*px)));
        assert(out@ =~= splice(old(out)@, 0, bc2_alpha(rows(*px)) + bc1_encoded(rows(*px), q).0));
    }
}

/// What every candidate block is: eight bytes, scored by the error of the
/// colours that they pick, and of four colours unless both words are white.
pub open spec fn sound(px: Seq<Seq<u8>>, st: Scored) -> bool {
    &&& st.0.len() == 8
    &&& le16(st.0, 0) > le16(st.0, 2) || st.0 == three_colour(px, 65535).0
    &&& st.1 == block_error(px, st.0)
    &&& 0 <= st.1 <= 3121200
}

pub proof fn lemma_endpoint_block(px: Seq<Seq<u8>>, first: Seq<u8>, second: Seq<u8>)
    requires
        is_block(px),
    ensures
        sound(px, endpoint_block(px, first, second)),
{
    law_score_is_block_error(px, first, second);
    let b = word565(second);
    let a = if word565(first) != b {
        word565(first)
    } else if b < 65535 {
        b + 1
    } else {
        b
    };
    if a == b {
        lemma_three_colour(px, a);
    } else {
        lemma_four_colour(px, max_int(a, b), min_int(a, b));
    }
}

pub proof fn lemma_ls_rounds(px: Seq<Seq<u8>>, st: Scored, n: nat)
    requires
        is_block(px),
        sound(px, st),
    ensures
        sound(px, ls_rounds(px, st, n)),
        ls_rounds(px, st, n).1 <= st.1,
    decreases n,
{
    if n > 0 && st.1 != 0 {
        if let Some((a, b)) = block_ls(px, st.0) {
            lemma_endpoint_block(px, a, b);
            lemma_ls_rounds(px, better(st, endpoint_block(px, a, b)), (n - 1) as nat);
        }
    }
}

proof fn lemma_moved_word(base: int, d: int, s: int, top: int)
    requires
        0 <= base < 65536,
        d == 1 || d == -1,
        (s == 2048 && top == 31) || (s == 32 && top == 63) || (s == 1 && top == 31),
        0 <= base / s % (top + 1) + d <= top,
    ensures
        0 <= base + d * s < 65536,
{
    if s == 2048 {
        assert(0 <= base / 2048 % 32 + d <= 31);
    } else if s == 32 {
        assert(0 <= base / 32 % 64 + d <= 63);
    } else {
        assert(0 <= base / 1 % 32 + d <= 31);
    }
    if d == 1 {
        assert(d * s == s);
    } else {
        assert(d * s == -s);
    }
}

proof fn lemma_lattice_move(px: Seq<Seq<u8>>, st: Scored, base: int, other: int, d: int, s: int, top: int)
    requires
        is_block(px),
        sound(px, st),
        0 <= base < 65536,
        0 <= other < 65536,
        d == 1 || d == -1,
        (s == 2048 && top == 31) || (s == 32 && top == 63) || (s == 1 && top == 31),
    ensures
        sound(px, lattice_move(px, st, base, other, d, s, top)),
        lattice_move(px, st, base, other, d, s, top).1 <= st.1,
{
    let level = base / s % (top + 1) + d;
    let moved = base + d * s;
    if !(level < 0 || level > top || moved == other) {
        lemma_moved_word(base, d, s, top);
        law_four_colour_score(px, max_int(moved, other), min_int(moved, other));
        lemma_four_colour(px, max_int(moved, other), min_int(moved, other));
    }
}

proof fn lemma_endpoint_moves(px: Seq<Seq<u8>>, st: Scored, base: int, other: int, d: int)
    requires
        is_block(px),
        sound(px, st),
        0 <= base < 65536,
        0 <= other < 65536,
        d == 1 || d == -1,
    ensures
        sound(px, endpoint_moves(px, st, base, other, d)),
        endpoint_moves(px, st, base, other, d).1 <= st.1,
{
    lemma_lattice_move(px, st, base, other, d, 2048, 31);
    let s1 = lattice_move(px, st, base, other, d, 2048, 31);
    lemma_lattice_move(px, s1, base, other, d, 32, 63);
    let s2 = lattice_move(px, s1, base, other, d, 32, 63);
    lemma_lattice_move(px, s2, base, other, d, 1, 31);
}

pub proof fn lemma_lattice_rounds(px: Seq<Seq<u8>>, st: Scored, n: nat)
    requires
        is_block(px),
        sound(px, st),
    ensures
        sound(px, lattice_rounds(px, st, n)),
        lattice_rounds(px, st, n).1 <= st.1,
    decreases n,
{
    let c0 = le16(st.0, 0);
    let c1 = le16(st.0, 2);
    if n > 0 && c0 > c1 {
        lemma_endpoint_moves(px, st, c0, c1, -1);
        let half = endpoint_moves(px, st, c0, c1, -1);
        lemma_endpoint_moves(px, half, c1, c0, 1);
        lemma_lattice_rounds(px, endpoint_moves(px, half, c1, c0, 1), (n - 1) as nat);
    }
}

pub proof fn lemma_bc1_encoded(px: Seq<Seq<u8>>, q: EncodeQuality)
    requires
        is_block(px),
    ensures
        sound(px, bc1_encoded(px, q)),
        bc1_encoded(px, q).1 <= endpoint_block(px, brightest(px), darkest(px)).1,
        span_sum(px) >= 24 ==> bc1_encoded(px, q).1 <= endpoint_block(px, channel_highs(px, 3), channel_lows(px, 3)).1,
{
    lemma_endpoint_block(px, brightest(px), darkest(px));
    lemma_endpoint_block(px, channel_highs(px, 3), channel_lows(px, 3));
    if span_sum(px) >= 24 {
        let with_axis = match axis_extremes(px) {
            Some((a, b)) => better(seeded(px), endpoint_block(px, a, b)),
            None => seeded(px),
        };
        if let Some((a, b)) = axis_extremes(px) {
            lemma_endpoint_block(px, a, b);
        }
        lemma_ls_rounds(px, with_axis, 4);
        lemma_lattice_rounds(px, ls_rounds(px, with_axis, 4), BC1_LATTICE_ROUNDS as nat);
    }
}

/// The block that encoding gives is scored by the error of the colours that its
/// bytes pick.
pub proof fn law_bc1_score_is_block_error(px: Seq<Seq<u8>>, q: EncodeQuality)
    requires
        is_block(px),
    ensures
        bc1_encoded(px, q).1 == block_error(px, bc1_encoded(px, q).0),
{
    lemma_bc1_encoded(px, q);
}

/// The search never ends with more error than the luminance seed has.
pub proof fn law_bc1_never_worse_than_seed(px: Seq<Seq<u8>>, q: EncodeQuality)
    requires
        is_block(px),
    ensures
        block_error(px, bc1_encoded(px, q).0) <= block_error(
            px,
            endpoint_block(px, brightest(px), darkest(px)).0,
        ),
{
    lemma_bc1_encoded(px, q);
    law_score_is_block_error(px, brightest(px), darkest(px));
}

/// More effort never costs quality: the full search errs at most as much as
/// the fast one.
pub proof fn law_bc1_quality_beats_fast(px: Seq<Seq<u8>>)
    requires
        is_block(px),
    ensures
        block_error(px, bc1_encoded(px, EncodeQuality::Quality).0) <= block_error(
            px,
            bc1_encoded(px, EncodeQuality::Fast).0,
        ),
{
    lemma_bc1_encoded(px, EncodeQuality::Quality);
    lemma_bc1_encoded(px, EncodeQuality::Fast);
}

} // verus!
