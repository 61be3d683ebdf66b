//! Rate-distortion-optimised BC1 and BC7.
//!
//! A payload ships inside an archive that finds repeated bytes, so the real
//! rate of a block is how well its bytes match earlier ones. This pass chooses
//! each block anew among candidates that repeat bytes already emitted, by
//!
//! ```text
//! J = squared error - lambda * estimated bytes saved
//! ```
//!
//! Blocks are chosen in row order, one after another. A block that its plain
//! encoding represents without error is never touched.

use std::collections::HashMap;
use vstd::prelude::*;

use crate::binary32::{add32, ceil_i32, ceiling_i32, difference, div32, from_int32, less, less32, mul32, of_int, product, quotient, sub32, sum};
use crate::encode::blocks::bc1::{bc1_encoded, bc1_palette_565, bc1_palette_punch, bc1_weights, block_bytes, block_palette, block_costs, block_error, encode_bc1_bytes, first_word, four_colour, index_word, make_block, pack_bc1_scored_with, palette_four, second_word, weights_of_indices};
use crate::encode::blocks::lsq::{ls_endpoints, ls_first, ls_second, ls_degenerate, LsTerms};
use crate::encode::blocks::{block_count, block_texels, blocks_across, gather_block, min_int, sqr_rgb, to_565, unpack_indices_2bit, word565, EncodeQuality};
use crate::content::product3;
use crate::error::Error;
use crate::model::{digits_of, le16, le32, lemma_le16, lemma_le32, rows, splice, sq, sq_diff, store, total};

verus! {

/// How many recent blocks are candidates.
pub const WINDOW: usize = 16;

/// The squared error of the colours that a block's bytes pick.
pub fn bc1_block_sse(px: &[[u8; 4]; 16], block: &[u8; 8]) -> (err: i32)
    ensures
        err == block_error(rows(*px), block@),
        0 <= err <= 3121200,
{
    proof {
        reveal(block_error);
    }
    let c0: u16 = first_word(block);
    let c1: u16 = second_word(block);
    let pal: [[u8; 3]; 4] = if c0 > c1 {
        bc1_palette_565(c0, c1)
    } else {
        bc1_palette_punch(c0, c1)
    };
    let idx: [u8; 16] = unpack_indices_2bit(index_word(block));
    let ghost want = block_costs(rows(*px), block@);
    let mut err: i32 = 0;
    let mut i: usize = 0;
    while i < 16
        invariant
            i <= 16,
            rows(pal) == block_palette(le16(block@, 0), le16(block@, 2)),
            idx@ == digits_of(le32(block@, 4), 4, 16),
            forall|i: int| 0 <= i < 16 ==> #[trigger] idx@[i] < 4,
            want == block_costs(rows(*px), block@),
            err == total(want, i as nat),
            0 <= err <= i * 195075,
        decreases 16 - i,
    {
        let d: i32 = sqr_rgb(px[i], pal[idx[i] as usize]);
        proof {
            assert(want[i as int] == d);
        }
        err = err + d;
        i = i + 1;
    }
    err
}

/// The same, none where the error reaches the limit.
pub fn bc1_block_sse_limited(px: &[[u8; 4]; 16], block: &[u8; 8], limit: i32) -> (r: Option<i32>)
    ensures
        r is Some <==> block_error(rows(*px), block@) < limit,
        r matches Some(e) ==> e == block_error(rows(*px), block@) && 0 <= e <= 3121200,
{
    let e: i32 = bc1_block_sse(px, block);
    if e < limit {
        Some(e)
    } else {
        None
    }
}

/// The block with a given index word and the least-squares endpoints for it;
/// none where the word does not determine them or they would reorder.
#[verifier::opaque]
pub open spec fn refitted(px: Seq<Seq<u8>>, table: int) -> Option<Seq<u8>> {
    match ls_endpoints(px, bc1_weights(digits_of(table, 4, 16)), 3) {
        None => None,
        Some((a, b)) => if word565(a) <= word565(b) {
            None
        } else {
            Some(block_bytes(word565(a), word565(b), table))
        },
    }
}

/// The terms belong to an index word: none where the word does not determine
/// endpoints.
pub open spec fn terms_of(t: Option<LsTerms>, table: int) -> bool {
    let ws = bc1_weights(digits_of(table, 4, 16));
    match t {
        None => ls_degenerate(ws),
        Some(t) => t.wf() && t@ == ws && !ls_degenerate(ws),
    }
}

/// The part of the least-squares problem that an index word fixes.
pub fn table_ls(table: u32) -> (t: Option<LsTerms>)
    ensures
        terms_of(t, table as int),
{
    let idx: [u8; 16] = unpack_indices_2bit(table);
    let ws: [u32; 16] = weights_of_indices(&idx);
    proof {
        assert(ws@.take(16) =~= ws@);
    }
    LsTerms::new(&ws, 16)
}

/// The block with a given index word and the least-squares endpoints for it.
pub fn refit_with_ls(px: &[[u8; 4]; 16], ls: &Option<LsTerms>, table: u32) -> (r: Option<[u8; 8]>)
    requires
        terms_of(*ls, table as int),
    ensures
        r matches Some(b) ==> refitted(rows(*px), table as int) == Some(b@),
        r is None ==> refitted(rows(*px), table as int) is None,
{
    proof {
        reveal(refitted);
    }
    match ls {
        None => None,
        Some(t) => {
            let (f0, f1) = t.solve(px);
            let e0: [u8; 3] = [f0[0], f0[1], f0[2]];
            let e1: [u8; 3] = [f1[0], f1[1], f1[2]];
            proof {
                let ws = bc1_weights(digits_of(table as int, 4, 16));
                assert(e0@ =~= Seq::new(3, |c: int| ls_first(rows(*px), ws, c)));
                assert(e1@ =~= Seq::new(3, |c: int| ls_second(rows(*px), ws, c)));
            }
            let q0: u16 = to_565(e0);
            let q1: u16 = to_565(e1);
            if q0 <= q1 {
                return None;
            }
            Some(make_block(q0, q1, table))
        },
    }
}

/// How a candidate block repeats earlier bytes.
#[derive(Debug, Clone, Copy, PartialEq, Eq, Structural)]
pub enum Class {
    Base,
    Whole,
    Table,
    Endpoints,
}

/// What a repeated block saves.
pub open spec fn save_whole() -> u32 {
    of_int(7)
}

/// What a repeated half saves.
pub open spec fn save_part() -> u32 {
    quotient(of_int(5), of_int(2))
}

/// The block chosen so far, its J and how it repeats earlier bytes.
pub type Choice = (Seq<u8>, u32, Class);

/// The choice so far, or the candidate where its error stays under what could
/// still win and its J is smaller. `weight` is the strength that J uses.
pub open spec fn tried(
    st: Choice,
    cand: Option<(Seq<u8>, int)>,
    lam: u32,
    weight: u32,
    save: u32,
    class: Class,
) -> Choice {
    match cand {
        None => st,
        Some((b, e)) => {
            let j = difference(of_int(e), product(weight, save));
            if e < ceiling_i32(sum(st.1, product(lam, save))) && less(j, st.1) {
                (b, j, class)
            } else {
                st
            }
        },
    }
}

/// A block with its error.
pub open spec fn with_error(px: Seq<Seq<u8>>, b: Option<Seq<u8>>) -> Option<(Seq<u8>, int)> {
    match b {
        None => None,
        Some(b) => Some((b, block_error(px, b))),
    }
}

/// The best block that keeps a donor's endpoint bytes; none for a three-colour
/// donor.
pub open spec fn same_endpoints(px: Seq<Seq<u8>>, donor: Seq<u8>) -> Option<(Seq<u8>, int)> {
    if le16(donor, 0) > le16(donor, 2) {
        Some(four_colour(px, le16(donor, 0), le16(donor, 2)))
    } else {
        None
    }
}

/// Slot `k` of the window over the blocks emitted so far: the latest block
/// whose number leaves the remainder `k`.
pub open spec fn slot(emitted: Seq<Seq<u8>>, k: int) -> Seq<u8> {
    let last = emitted.len() - 1;
    emitted[last - (last - k) % (WINDOW as int)]
}

/// How many slots of the window are filled.
pub open spec fn filled(emitted: Seq<Seq<u8>>) -> int {
    min_int(emitted.len() as int, WINDOW as int)
}

/// The first `k` slots as donors: each donor's index word, then its endpoints.
pub open spec fn donors_tried(px: Seq<Seq<u8>>, st: Choice, emitted: Seq<Seq<u8>>, lam: u32, k: nat) -> Choice
    decreases k,
{
    if k == 0 {
        st
    } else {
        let before = donors_tried(px, st, emitted, lam, (k - 1) as nat);
        let donor = slot(emitted, k - 1);
        let mid = tried(
            before,
            with_error(px, refitted(px, le32(donor, 4))),
            lam,
            lam,
            save_part(),
            Class::Table,
        );
        tried(mid, same_endpoints(px, donor), lam, lam, save_part(), Class::Endpoints)
    }
}

/// Whether an index word stands in the window.
pub open spec fn in_window(emitted: Seq<Seq<u8>>, table: int) -> bool {
    exists|k: int| 0 <= k < filled(emitted) && le32(#[trigger] slot(emitted, k), 4) == table
}

/// The first `k` words of the dictionary that do not stand in the window.
pub open spec fn dictionary_tried(
    px: Seq<Seq<u8>>,
    st: Choice,
    emitted: Seq<Seq<u8>>,
    dict: Seq<u32>,
    lam: u32,
    k: nat,
) -> Choice
    decreases k,
{
    if k == 0 {
        st
    } else {
        let before = dictionary_tried(px, st, emitted, dict, lam, (k - 1) as nat);
        if in_window(emitted, dict[k - 1] as int) {
            before
        } else {
            tried(
                before,
                with_error(px, refitted(px, dict[k - 1] as int)),
                lam,
                lam,
                save_part(),
                Class::Table,
            )
        }
    }
}

/// Whether two blocks share their endpoint bytes or their index bytes.
pub open spec fn shares_half(a: Seq<u8>, b: Seq<u8>) -> bool {
    a.subrange(0, 4) == b.subrange(0, 4) || a.subrange(4, 8) == b.subrange(4, 8)
}

/// What the block already saves by repeating earlier bytes.
pub open spec fn natural_saving(block: Seq<u8>, emitted: Seq<Seq<u8>>, row: int) -> u32 {
    let whole = exists|k: int| 0 <= k < filled(emitted) && #[trigger] slot(emitted, k) == block;
    let part = exists|k: int| 0 <= k < filled(emitted) && shares_half(#[trigger] slot(emitted, k), block);
    let has_above = emitted.len() >= row;
    let above = emitted[emitted.len() - row];
    if whole || (has_above && above == block) {
        save_whole()
    } else if part || (has_above && shares_half(above, block)) {
        save_part()
    } else {
        of_int(0)
    }
}

/// The strength for a block: it scales with the error that the block already
/// carries, up to `limit`.
pub open spec fn masked(lambda: u32, err: int, limit: int) -> u32 {
    let a = quotient(of_int(err), of_int(limit));
    product(
        lambda,
        if less(of_int(1), a) {
            of_int(1)
        } else {
            a
        },
    )
}

/// One channel of the four colours of a pair of words.
pub open spec fn channel_column(c0: int, c1: int, ch: int) -> Seq<int> {
    Seq::new(4, |j: int| palette_four(c0, c1)[j][ch] as int)
}

/// Each texel's squared error in one channel.
pub open spec fn channel_costs(px: Seq<Seq<u8>>, ch: int, c0: int, c1: int, table: int) -> Seq<int> {
    Seq::new(16, |i: int| sq(channel_column(c0, c1, ch)[digits_of(table, 4, 16)[i] as int] - px[i][ch]))
}

/// The squared error of one channel of a four-colour block.
pub open spec fn channel_error(px: Seq<Seq<u8>>, ch: int, c0: int, c1: int, table: int) -> int {
    total(channel_costs(px, ch, c0, c1, table), 16)
}

/// One polish move: a field of the first or of the second word moves by one
/// towards the other word's, where the words keep their order and the field's
/// channel errs less.
pub open spec fn polish_move(px: Seq<Seq<u8>>, w: (int, int), table: int, first: bool, s: int, top: int, ch: int) -> (
    int,
    int,
) {
    let base = if first {
        w.0
    } else {
        w.1
    };
    let d = if first {
        -1int
    } else {
        1int
    };
    let level = base / s % (top + 1) + d;
    let n = if first {
        (w.0 - s, w.1)
    } else {
        (w.0, w.1 + s)
    };
    if level < 0 || level > top || n.0 <= n.1 {
        w
    } else if channel_error(px, ch, n.0, n.1, table) < channel_error(px, ch, w.0, w.1, table) {
        n
    } else {
        w
    }
}

/// The three channel moves of one word.
pub open spec fn polish_moves(px: Seq<Seq<u8>>, w: (int, int), table: int, first: bool) -> (int, int) {
    let a = polish_move(px, w, table, first, 2048, 31, 0);
    let b = polish_move(px, a, table, first, 32, 63, 1);
    polish_move(px, b, table, first, 1, 31, 2)
}

/// Polish rounds, at most `n`, while something moves.
pub open spec fn polished(px: Seq<Seq<u8>>, w: (int, int), table: int, n: nat) -> (int, int)
    decreases n,
{
    if n == 0 || w.0 <= w.1 {
        w
    } else {
        let next = polish_moves(px, polish_moves(px, w, table, true), table, false);
        if next == w {
            w
        } else {
            polished(px, next, table, (n - 1) as nat)
        }
    }
}

/// A block with its endpoint words polished and its index word kept.
pub open spec fn polished_block(px: Seq<Seq<u8>>, block: Seq<u8>) -> Seq<u8> {
    let w = polished(px, (le16(block, 0), le16(block, 2)), le32(block, 4), 2);
    block_bytes(w.0, w.1, le32(block, 4))
}

/// The block emitted for some texels, after the blocks `emitted`, `row` blocks
/// to a row.
#[verifier::opaque]
pub open spec fn rdo_block(
    px: Seq<Seq<u8>>,
    base: Seq<u8>,
    emitted: Seq<Seq<u8>>,
    row: int,
    dict: Seq<u32>,
    lambda: u32,
) -> Seq<u8> {
    let err = block_error(px, base);
    if err == 0 {
        base
    } else {
        let lam = masked(lambda, err, 192);
        let st0: Choice = (
            base,
            difference(of_int(err), product(lam, natural_saving(base, emitted, row))),
            Class::Base,
        );
        let st = if emitted.len() == 0 {
            st0
        } else {
            let prev = emitted[emitted.len() - 1];
            let st1 = tried(
                st0,
                Some((prev, block_error(px, prev))),
                lam,
                lambda,
                save_whole(),
                Class::Whole,
            );
            let st2 = donors_tried(px, st1, emitted, lam, filled(emitted) as nat);
            dictionary_tried(px, st2, emitted, dict, lam, dict.len())
        };
        if st.2 == Class::Table {
            polished_block(px, st.0)
        } else {
            st.0
        }
    }
}

/// One channel of the four colours of a pair of words.
fn channel_column_of(c0: u16, c1: u16, ch: usize) -> (r: [u8; 4])
    requires
        ch < 3,
    ensures
        forall|j: int| 0 <= j < 4 ==> #[trigger] r@[j] == channel_column(c0 as int, c1 as int, ch as int)[j],
{
    let pal: [[u8; 3]; 4] = bc1_palette_565(c0, c1);
    proof {
        assert(forall|j: int| 0 <= j < 4 ==> #[trigger] rows(pal)[j] == pal@[j]@);
    }
    [pal[0][ch], pal[1][ch], pal[2][ch], pal[3][ch]]
}

/// The squared error of one channel of a four-colour block.
fn bc1_chan_sse(px: &[[u8; 4]; 16], ch: usize, c0: u16, c1: u16, idx: &[u8; 16], Ghost(table): Ghost<int>) -> (e: i32)
    requires
        ch < 3,
        idx@ == digits_of(table, 4, 16),
        forall|i: int| 0 <= i < 16 ==> #[trigger] idx@[i] < 4,
    ensures
        e == channel_error(rows(*px), ch as int, c0 as int, c1 as int, table),
        0 <= e <= 1040400,
{
    let cols: [u8; 4] = channel_column_of(c0, c1, ch);
    let ghost want = channel_costs(rows(*px), ch as int, c0 as int, c1 as int, table);
    let mut e: i32 = 0;
    let mut i: usize = 0;
    while i < 16
        invariant
            i <= 16,
            ch < 3,
            idx@ == digits_of(table, 4, 16),
            forall|i: int| 0 <= i < 16 ==> #[trigger] idx@[i] < 4,
            forall|j: int| 0 <= j < 4 ==> #[trigger] cols@[j] == channel_column(c0 as int, c1 as int, ch as int)[j],
            want == channel_costs(rows(*px), ch as int, c0 as int, c1 as int, table),
            e == total(want, i as nat),
            0 <= e <= i * 65025,
        decreases 16 - i,
    {
        let d: i32 = sq_diff(cols[idx[i] as usize], px[i][ch]);
        proof {
            assert(want[i as int] == d);
        }
        e = e + d;
        i = i + 1;
    }
    e
}

proof fn lemma_word_field(base: int, s: int, top: int, field: int)
    requires
        0 <= base < 65536,
        (s == 2048 && top == 31) || (s == 32 && top == 63) || (s == 1 && top == 31),
        s == 2048 ==> field == base / 2048 % 32,
        s == 32 ==> field == base / 32 % 64,
        s == 1 ==> field == base % 32,
    ensures
        base / s % (top + 1) == field,
        0 <= field <= top,
        field > 0 ==> base >= s,
        field < top ==> base + s < 65536,
{
    if s == 2048 {
        assert(base / s == base / 2048);
        assert(field == base / 2048 % 32);
    } else if s == 32 {
        assert(base / s == base / 32);
    } else {
        assert(base / s == base);
    }
}

fn try_polish(
    px: &[[u8; 4]; 16],
    w: (u16, u16),
    idx: &[u8; 16],
    Ghost(table): Ghost<int>,
    first: bool,
    s: u16,
    top: u16,
    ch: usize,
) -> (r: (u16, u16))
    requires
        idx@ == digits_of(table, 4, 16),
        forall|i: int| 0 <= i < 16 ==> #[trigger] idx@[i] < 4,
        (s == 2048 && top == 31 && ch == 0) || (s == 32 && top == 63 && ch == 1) || (s == 1 && top == 31 && ch == 2),
    ensures
        (r.0 as int, r.1 as int) == polish_move(
            rows(*px),
            (w.0 as int, w.1 as int),
            table,
            first,
            s as int,
            top as int,
            ch as int,
        ),
{
    let base: u16 = if first {
        w.0
    } else {
        w.1
    };
    let field: u16 = if s == 2048 {
        base / 2048 % 32
    } else if s == 32 {
        base / 32 % 64
    } else {
        base % 32
    };
    proof {
        lemma_word_field(base as int, s as int, top as int, field as int);
    }
    if (first && field == 0) || (!first && field >= top) {
        return w;
    }
    let n: (u16, u16) = if first {
        (w.0 - s, w.1)
    } else {
        (w.0, w.1 + s)
    };
    if n.0 <= n.1 {
        return w;
    }
    let now: i32 = bc1_chan_sse(px, ch, w.0, w.1, idx, Ghost(table));
    let then_e: i32 = bc1_chan_sse(px, ch, n.0, n.1, idx, Ghost(table));
    if then_e < now {
        n
    } else {
        w
    }
}

fn polish_word(px: &[[u8; 4]; 16], w: (u16, u16), idx: &[u8; 16], Ghost(table): Ghost<int>, first: bool) -> (r: (u16, u16))
    requires
        idx@ == digits_of(table, 4, 16),
        forall|i: int| 0 <= i < 16 ==> #[trigger] idx@[i] < 4,
    ensures
        (r.0 as int, r.1 as int) == polish_moves(rows(*px), (w.0 as int, w.1 as int), table, first),
{
    let a: (u16, u16) = try_polish(px, w, idx, Ghost(table), first, 2048, 31, 0);
    let b: (u16, u16) = try_polish(px, a, idx, Ghost(table), first, 32, 63, 1);
    try_polish(px, b, idx, Ghost(table), first, 1, 31, 2)
}

/// Moves the endpoint words of a block, keeping its index word, while a channel
/// errs less.
pub fn polish_endpoints_fixed_table(px: &[[u8; 4]; 16], block: &[u8; 8]) -> (r: [u8; 8])
    ensures
        r@ == polished_block(rows(*px), block@),
{
    let table: u32 = index_word(block);
    let idx: [u8; 16] = unpack_indices_2bit(table);
    let mut w: (u16, u16) = (first_word(block), second_word(block));
    let ghost start = (w.0 as int, w.1 as int);
    let mut left: u32 = 2;
    while left > 0
        invariant_except_break
            polished(rows(*px), start, table as int, 2) == polished(
                rows(*px),
                (w.0 as int, w.1 as int),
                table as int,
                left as nat,
            ),
        invariant
            idx@ == digits_of(table as int, 4, 16),
            forall|i: int| 0 <= i < 16 ==> #[trigger] idx@[i] < 4,
        ensures
            polished(rows(*px), start, table as int, 2) == (w.0 as int, w.1 as int),
        decreases left,
    {
        if w.0 <= w.1 {
            break;
        }
        let a: (u16, u16) = polish_word(px, w, &idx, Ghost(table as int), true);
        let b: (u16, u16) = polish_word(px, a, &idx, Ghost(table as int), false);
        if b.0 == w.0 && b.1 == w.1 {
            break;
        }
        w = b;
        left = left - 1;
    }
    make_block(w.0, w.1, table)
}

/// The block chosen so far.
#[derive(Clone, Copy)]
struct Pick {
    block: [u8; 8],
    j: u32,
    class: Class,
}

impl Pick {
    spec fn view(&self) -> Choice {
        (self.block@, self.j, self.class)
    }
}

fn offer(st: Pick, block: [u8; 8], err: i32, lam: u32, weight: u32, save: u32, class: Class) -> (r: Pick)
    ensures
        r@ == tried(st@, Some((block@, err as int)), lam, weight, save, class),
{
    let limit: i32 = ceil_i32(add32(st.j, mul32(lam, save)));
    let j: u32 = sub32(from_int32(err as i64), mul32(weight, save));
    if err < limit && less32(j, st.j) {
        Pick { block, j, class }
    } else {
        st
    }
}

fn offer_refit(px: &[[u8; 4]; 16], st: Pick, ls: &Option<LsTerms>, table: u32, lam: u32, save: u32) -> (r: Pick)
    requires
        terms_of(*ls, table as int),
    ensures
        r@ == tried(
            st@,
            with_error(rows(*px), refitted(rows(*px), table as int)),
            lam,
            lam,
            save,
            Class::Table,
        ),
{
    match refit_with_ls(px, ls, table) {
        None => st,
        Some(b) => {
            let e: i32 = bc1_block_sse(px, &b);
            offer(st, b, e, lam, lam, save, Class::Table)
        },
    }
}

fn offer_endpoints(px: &[[u8; 4]; 16], st: Pick, donor: &[u8; 8], lam: u32, save: u32) -> (r: Pick)
    ensures
        r@ == tried(st@, same_endpoints(rows(*px), donor@), lam, lam, save, Class::Endpoints),
{
    let c0: u16 = first_word(donor);
    let c1: u16 = second_word(donor);
    if c0 <= c1 {
        return st;
    }
    let pal: [[u8; 3]; 4] = bc1_palette_565(c0, c1);
    let limit: i32 = ceil_i32(add32(st.j, mul32(lam, save)));
    match pack_bc1_scored_with(px, c0, c1, &pal, limit) {
        None => st,
        Some((b, e)) => offer(st, b, e, lam, lam, save, Class::Endpoints),
    }
}

fn same_block(a: &[u8; 8], b: &[u8; 8]) -> (r: bool)
    ensures
        r == (a@ == b@),
{
    let r: bool = first_word(a) == first_word(b) && second_word(a) == second_word(b) && index_word(a) == index_word(b);
    proof {
        lemma_word_eq(a@, b@);
        if r {
            assert(a@ =~= b@);
        }
    }
    r
}

#[verifier::rlimit(40)]
proof fn lemma_word_eq(a: Seq<u8>, b: Seq<u8>)
    requires
        a.len() == 8,
        b.len() == 8,
    ensures
        le16(a, 0) == le16(b, 0) && le16(a, 2) == le16(b, 2) <==> a.subrange(0, 4) == b.subrange(0, 4),
        le32(a, 4) == le32(b, 4) <==> a.subrange(4, 8) == b.subrange(4, 8),
        a.subrange(0, 4) == b.subrange(0, 4) && a.subrange(4, 8) == b.subrange(4, 8) ==> a == b,
{
    lemma_le16(a, 0);
    lemma_le16(b, 0);
    lemma_le16(a, 2);
    lemma_le16(b, 2);
    lemma_le32(a, 4);
    lemma_le32(b, 4);
    if le16(a, 0) == le16(b, 0) && le16(a, 2) == le16(b, 2) {
        assert(a[0] == b[0] && a[1] == b[1] && a[2] == b[2] && a[3] == b[3]);
        assert(a.subrange(0, 4) =~= b.subrange(0, 4));
    }
    if a.subrange(0, 4) == b.subrange(0, 4) {
        assert(a.subrange(0, 4)[0] == b.subrange(0, 4)[0]);
        assert(a.subrange(0, 4)[1] == b.subrange(0, 4)[1]);
        assert(a.subrange(0, 4)[2] == b.subrange(0, 4)[2]);
        assert(a.subrange(0, 4)[3] == b.subrange(0, 4)[3]);
    }
    if le32(a, 4) == le32(b, 4) {
        assert(a[4] == b[4] && a[5] == b[5] && a[6] == b[6] && a[7] == b[7]);
        assert(a.subrange(4, 8) =~= b.subrange(4, 8));
    }
    if a.subrange(4, 8) == b.subrange(4, 8) {
        assert(a.subrange(4, 8)[0] == b.subrange(4, 8)[0]);
        assert(a.subrange(4, 8)[1] == b.subrange(4, 8)[1]);
        assert(a.subrange(4, 8)[2] == b.subrange(4, 8)[2]);
        assert(a.subrange(4, 8)[3] == b.subrange(4, 8)[3]);
    }
    if a.subrange(0, 4) == b.subrange(0, 4) && a.subrange(4, 8) == b.subrange(4, 8) {
        assert(a =~= b);
    }
}

fn share_half(a: &[u8; 8], b: &[u8; 8]) -> (r: bool)
    ensures
        r == shares_half(a@, b@),
{
    proof {
        lemma_word_eq(a@, b@);
    }
    (first_word(a) == first_word(b) && second_word(a) == second_word(b)) || index_word(a) == index_word(b)
}

pub proof fn lemma_slot_push(emitted: Seq<Seq<u8>>, b: Seq<u8>, k: int)
    requires
        0 <= k < filled(emitted.push(b)),
    ensures
        slot(emitted.push(b), k) == (if k == emitted.len() % 16 {
            b
        } else {
            slot(emitted, k)
        }),
        k != emitted.len() % 16 ==> k < filled(emitted),
{
    let n = emitted.len() as int;
    if k == n % 16 {
        assert((n - k) % 16 == 0);
    } else {
        assert((n - k) % 16 == (n - 1 - k) % 16 + 1);
    }
}

/// The recent blocks, by the remainder of their number, with the least-squares
/// terms of their index words.
struct Recent {
    blocks: [[u8; 8]; 16],
    ls: [Option<LsTerms>; 16],
    count: usize,
}

impl Recent {
    spec fn holds(&self, emitted: Seq<Seq<u8>>) -> bool {
        &&& self.count == filled(emitted)
        &&& forall|k: int| 0 <= k < self.count ==> (#[trigger] self.blocks@[k])@ == slot(emitted, k)
        &&& forall|k: int| 0 <= k < self.count ==> terms_of(#[trigger] self.ls@[k], le32(slot(emitted, k), 4))
    }

    fn new() -> (r: Recent)
        ensures
            r.holds(Seq::empty()),
    {
        Recent { blocks: [[0u8; 8]; 16], ls: [None; 16], count: 0 }
    }

    fn push(&mut self, block: [u8; 8], at: usize, Ghost(emitted): Ghost<Seq<Seq<u8>>>)
        requires
            old(self).holds(emitted),
            at == emitted.len() % 16,
        ensures
            final(self).holds(emitted.push(block@)),
    {
        let ls: Option<LsTerms> = table_ls(index_word(&block));
        let ghost next = emitted.push(block@);
        proof {
            assert forall|k: int| 0 <= k < filled(next) implies #[trigger] slot(next, k) == (if k == at {
                block@
            } else {
                slot(emitted, k)
            }) by {
                lemma_slot_push(emitted, block@, k);
            }
        }
        let ghost blocks0 = self.blocks@;
        let ghost ls0 = self.ls@;
        self.blocks[at] = block;
        self.ls[at] = ls;
        if self.count < 16 {
            self.count = self.count + 1;
        }
        proof {
            assert forall|k: int| 0 <= k < self.count implies (#[trigger] self.blocks@[k])@ == slot(next, k) by {
                if k != at {
                    assert(blocks0[k]@ == slot(emitted, k));
                }
                assert(slot(next, k) == (if k == at {
                    block@
                } else {
                    slot(emitted, k)
                }));
            }
            assert forall|k: int| 0 <= k < self.count implies terms_of(
                #[trigger] self.ls@[k],
                le32(slot(next, k), 4),
            ) by {
                if k != at {
                    assert(terms_of(ls0[k], le32(slot(emitted, k), 4)));
                }
                assert(slot(next, k) == (if k == at {
                    block@
                } else {
                    slot(emitted, k)
                }));
            }
        }
    }
}

/// How often `t` stands in `ts`.
pub open spec fn times(ts: Seq<u32>, t: u32) -> int
    decreases ts.len(),
{
    if ts.len() == 0 {
        0
    } else {
        times(ts.drop_last(), t) + (if ts.last() == t {
            1int
        } else {
            0
        })
    }
}

/// Whether `a` ranks before `b`: it is more frequent, or as frequent and
/// smaller.
pub open spec fn ranks_before(ts: Seq<u32>, a: u32, b: u32) -> bool {
    times(ts, a) > times(ts, b) || (times(ts, a) == times(ts, b) && a < b)
}

/// Whether `t` is the next word of the dictionary after `picked`: it occurs
/// more than once and ranks before every other word that is left.
pub open spec fn is_next(ts: Seq<u32>, picked: Seq<u32>, t: u32) -> bool {
    &&& times(ts, t) >= 2
    &&& !picked.contains(t)
    &&& forall|u: u32| times(ts, u) >= 1 && !picked.contains(u) && u != t ==> #[trigger] ranks_before(ts, t, u)
}

/// The `n` highest-ranking words that occur more than once.
pub open spec fn dictionary(ts: Seq<u32>, n: nat) -> Seq<u32>
    decreases n,
{
    if n == 0 {
        Seq::empty()
    } else {
        let picked = dictionary(ts, (n - 1) as nat);
        if exists|t: u32| is_next(ts, picked, t) {
            picked.push(choose|t: u32| is_next(ts, picked, t))
        } else {
            picked
        }
    }
}

/// How many words the dictionary holds at most.
pub const DICT_N: usize = 24;

proof fn lemma_next_unique(ts: Seq<u32>, picked: Seq<u32>, a: u32, b: u32)
    requires
        is_next(ts, picked, a),
        is_next(ts, picked, b),
    ensures
        a == b,
{
    if a != b {
        assert(ranks_before(ts, a, b));
        assert(ranks_before(ts, b, a));
    }
}

proof fn lemma_times_push(ts: Seq<u32>, t: u32, u: u32)
    ensures
        times(ts.push(t), u) == times(ts, u) + (if t == u {
            1int
        } else {
            0
        }),
{
    assert(ts.push(t).drop_last() =~= ts);
}

proof fn lemma_times_bound(ts: Seq<u32>, t: u32)
    ensures
        0 <= times(ts, t) <= ts.len(),
    decreases ts.len(),
{
    if ts.len() > 0 {
        lemma_times_bound(ts.drop_last(), t);
    }
}

/// The different words and how often each occurs.
struct Histogram {
    entries: Vec<(u32, usize)>,
    place: HashMap<u32, usize>,
}

impl Histogram {
    spec fn counts(&self, ts: Seq<u32>) -> bool {
        &&& self.entries@.len() <= ts.len()
        &&& forall|i: int|
            0 <= i < self.entries@.len() ==> (#[trigger] self.entries@[i]).1 == times(ts, self.entries@[i].0)
        &&& forall|i: int| 0 <= i < self.entries@.len() ==> times(ts, (#[trigger] self.entries@[i]).0) >= 1
        &&& forall|i: int|
            0 <= i < self.entries@.len() ==> self.place@.dom().contains((#[trigger] self.entries@[i]).0)
                && self.place@[self.entries@[i].0] == i
        &&& forall|t: u32|
            #[trigger] self.place@.dom().contains(t) ==> self.place@[t] < self.entries@.len()
                && self.entries@[self.place@[t] as int].0 == t
        &&& forall|t: u32| times(ts, t) >= 1 ==> #[trigger] self.place@.dom().contains(t)
    }

    fn new() -> (h: Histogram)
        ensures
            h.counts(Seq::empty()),
    {
        broadcast use vstd::std_specs::hash::group_hash_axioms;

        Histogram { entries: Vec::new(), place: HashMap::new() }
    }

    fn note(&mut self, t: u32, Ghost(ts): Ghost<Seq<u32>>)
        requires
            old(self).counts(ts),
            ts.len() < usize::MAX,
        ensures
            final(self).counts(ts.push(t)),
    {
        broadcast use vstd::std_specs::hash::group_hash_axioms;

        proof {
            assert forall|u: u32| #[trigger] times(ts.push(t), u) == times(ts, u) + (if t == u {
                1int
            } else {
                0
            }) by {
                lemma_times_push(ts, t, u);
            }
            lemma_times_bound(ts, t);
        }
        let found: Option<usize> = match self.place.get(&t) {
            Some(i) => Some(*i),
            None => None,
        };
        match found {
            Some(i) => {
                let n: usize = self.entries[i].1;
                self.entries[i] = (t, n + 1);
            },
            None => {
                let i: usize = self.entries.len();
                self.entries.push((t, 1));
                self.place.insert(t, i);
            },
        }
    }

    /// The dictionary of the counted words.
    fn top(&self, Ghost(ts): Ghost<Seq<u32>>) -> (d: Vec<u32>)
        requires
            self.counts(ts),
        ensures
            d@ == dictionary(ts, DICT_N as nat),
            d@.len() <= DICT_N,
    {
        let mut d: Vec<u32> = Vec::new();
        let mut n: usize = 0;
        while n < DICT_N
            invariant
                n <= DICT_N,
                self.counts(ts),
                d@ == dictionary(ts, n as nat),
                d@.len() <= n,
            decreases DICT_N - n,
        {
            match self.next_word(&d, Ghost(ts)) {
                Some(t) => {
                    proof {
                        let u = choose|u: u32| is_next(ts, d@, u);
                        lemma_next_unique(ts, d@, t, u);
                    }
                    d.push(t);
                },
                None => {},
            }
            n = n + 1;
        }
        d
    }

    fn next_word(&self, picked: &Vec<u32>, Ghost(ts): Ghost<Seq<u32>>) -> (r: Option<u32>)
        requires
            self.counts(ts),
        ensures
            r matches Some(t) ==> is_next(ts, picked@, t),
            r is None ==> forall|t: u32| !is_next(ts, picked@, t),
    {
        let mut best: Option<usize> = None;
        let mut i: usize = 0;
        while i < self.entries.len()
            invariant
                i <= self.entries@.len(),
                self.counts(ts),
                best matches Some(b) ==> b < i && !picked@.contains(self.entries@[b as int].0) && forall|k: int|
                    0 <= k < i && k != b && !picked@.contains((#[trigger] self.entries@[k]).0) ==> ranks_before(
                        ts,
                        self.entries@[b as int].0,
                        self.entries@[k].0,
                    ),
                best is None ==> forall|k: int| 0 <= k < i ==> picked@.contains((#[trigger] self.entries@[k]).0),
            decreases self.entries@.len() - i,
        {
            let (t, c) = self.entries[i];
            if !has_word(picked, t) {
                match best {
                    None => {
                        best = Some(i);
                    },
                    Some(b) => {
                        let (u, m) = self.entries[b];
                        proof {
                            assert(u != t) by {
                                assert(self.place@[self.entries@[b as int].0] == b);
                                assert(self.place@[self.entries@[i as int].0] == i);
                            }
                        }
                        if c > m || (c == m && t < u) {
                            best = Some(i);
                        }
                    },
                }
            }
            i = i + 1;
        }
        proof {
            assert forall|u: u32| times(ts, u) >= 1 implies exists|k: int|
                0 <= k < self.entries@.len() && (#[trigger] self.entries@[k]).0 == u by {
                assert(self.place@.dom().contains(u));
                assert(self.entries@[self.place@[u] as int].0 == u);
            }
        }
        match best {
            None => None,
            Some(b) => {
                let (t, c) = self.entries[b];
                if c >= 2 {
                    Some(t)
                } else {
                    proof {
                        assert forall|u: u32| !is_next(ts, picked@, u) by {
                            if is_next(ts, picked@, u) {
                                let k = choose|k: int|
                                    0 <= k < self.entries@.len() && (#[trigger] self.entries@[k]).0 == u;
                                assert(self.entries@[k].0 == u);
                                if k != b {
                                    assert(ranks_before(ts, t, u));
                                }
                            }
                        }
                    }
                    None
                }
            },
        }
    }
}

fn has_word(v: &Vec<u32>, t: u32) -> (r: bool)
    ensures
        r == v@.contains(t),
{
    let mut i: usize = 0;
    while i < v.len()
        invariant
            i <= v@.len(),
            forall|k: int| 0 <= k < i ==> #[trigger] v@[k] != t,
        decreases v@.len() - i,
    {
        if v[i] == t {
            return true;
        }
        i = i + 1;
    }
    false
}

/// Block number `i` of an image, `row` blocks to a row.
pub open spec fn block_at(rgba: Seq<u8>, w: int, h: int, i: int) -> Seq<Seq<u8>> {
    block_texels(rgba, w, h, i % block_count(w), i / block_count(w))
}

/// The plain encoding of the first `n` blocks of an image.
pub open spec fn plain_blocks(rgba: Seq<u8>, w: int, h: int, q: EncodeQuality, n: nat) -> Seq<Seq<u8>> {
    Seq::new(n, |i: int| bc1_encoded(block_at(rgba, w, h, i), q).0)
}

/// The index words of the four-colour blocks among the first `n`.
pub open spec fn four_colour_words(blocks: Seq<Seq<u8>>, n: nat) -> Seq<u32>
    decreases n,
{
    if n == 0 {
        Seq::empty()
    } else {
        let before = four_colour_words(blocks, (n - 1) as nat);
        let b = blocks[n - 1];
        if le16(b, 0) > le16(b, 2) {
            before.push(le32(b, 4) as u32)
        } else {
            before
        }
    }
}

/// The dictionary of an image: its most frequent index words.
pub open spec fn image_dictionary(rgba: Seq<u8>, w: int, h: int, q: EncodeQuality) -> Seq<u32> {
    let n = (block_count(w) * block_count(h)) as nat;
    dictionary(four_colour_words(plain_blocks(rgba, w, h, q, n), n), DICT_N as nat)
}

/// The first `n` blocks of an image as the optimised pass emits them.
pub open spec fn rdo_blocks(
    rgba: Seq<u8>,
    w: int,
    h: int,
    q: EncodeQuality,
    dict: Seq<u32>,
    lambda: u32,
    n: nat,
) -> Seq<Seq<u8>>
    decreases n,
{
    if n == 0 {
        Seq::empty()
    } else {
        let emitted = rdo_blocks(rgba, w, h, q, dict, lambda, (n - 1) as nat);
        let px = block_at(rgba, w, h, n - 1);
        emitted.push(rdo_block(px, bc1_encoded(px, q).0, emitted, block_count(w), dict, lambda))
    }
}

/// One block is emitted for each block of the image.
pub proof fn lemma_rdo_blocks_len(rgba: Seq<u8>, w: int, h: int, q: EncodeQuality, dict: Seq<u32>, lambda: u32, n: nat)
    ensures
        rdo_blocks(rgba, w, h, q, dict, lambda, n).len() == n,
    decreases n,
{
    if n > 0 {
        lemma_rdo_blocks_len(rgba, w, h, q, dict, lambda, (n - 1) as nat);
    }
}

pub proof fn lemma_block_position(bx_n: int, bx: int, by: int)
    requires
        0 <= bx < bx_n,
        0 <= by,
    ensures
        (by * bx_n + bx) % bx_n == bx,
        (by * bx_n + bx) / bx_n == by,
{
    vstd::arithmetic::div_mod::lemma_fundamental_div_mod_converse(by * bx_n + bx, bx_n, by, bx);
}

proof fn lemma_words_bound(blocks: Seq<Seq<u8>>, n: nat)
    ensures
        four_colour_words(blocks, n).len() <= n,
    decreases n,
{
    if n > 0 {
        lemma_words_bound(blocks, (n - 1) as nat);
    }
}

proof fn lemma_words_prefix(a: Seq<Seq<u8>>, b: Seq<Seq<u8>>, n: nat)
    requires
        n <= a.len(),
        n <= b.len(),
        forall|i: int| 0 <= i < n ==> a[i] == b[i],
    ensures
        four_colour_words(a, n) == four_colour_words(b, n),
    decreases n,
{
    if n > 0 {
        lemma_words_prefix(a, b, (n - 1) as nat);
    }
}

/// The plain blocks of an image, and the dictionary of their index words.
pub fn build_table_dict(rgba: &[u8], w: usize, h: usize, q: EncodeQuality) -> (r: (Vec<u32>, Vec<[u8; 8]>))
    requires
        rgba@.len() >= w * h * 4,
        block_count(w as int) * block_count(h as int) <= usize::MAX,
    ensures
        r.0@ == image_dictionary(rgba@, w as int, h as int, q),
        r.0@.len() <= DICT_N,
        r.1@.len() == block_count(w as int) * block_count(h as int),
        forall|i: int|
            0 <= i < r.1@.len() ==> (#[trigger] r.1@[i])@ == bc1_encoded(block_at(rgba@, w as int, h as int, i), q).0,
{
    let bx_n: usize = blocks_across(w);
    let by_n: usize = blocks_across(h);
    let ghost n = (bx_n * by_n) as nat;
    let ghost all = plain_blocks(rgba@, w as int, h as int, q, n);
    let mut blocks: Vec<[u8; 8]> = Vec::new();
    let mut hist: Histogram = Histogram::new();
    let mut by: usize = 0;
    proof {
        assert(0 * bx_n == 0);
    }
    while by < by_n
        invariant
            by <= by_n,
            bx_n == block_count(w as int),
            by_n == block_count(h as int),
            n == bx_n * by_n,
            n <= usize::MAX,
            rgba@.len() >= w * h * 4,
            all == plain_blocks(rgba@, w as int, h as int, q, n),
            blocks@.len() == by * bx_n,
            forall|i: int| 0 <= i < blocks@.len() ==> (#[trigger] blocks@[i])@ == all[i],
            hist.counts(four_colour_words(all, (by * bx_n) as nat)),
        decreases by_n - by,
    {
        let mut bx: usize = 0;
        while bx < bx_n
            invariant
                by < by_n,
                bx <= bx_n,
                bx_n == block_count(w as int),
                by_n == block_count(h as int),
                n == bx_n * by_n,
                n <= usize::MAX,
                rgba@.len() >= w * h * 4,
                all == plain_blocks(rgba@, w as int, h as int, q, n),
                blocks@.len() == by * bx_n + bx,
                forall|i: int| 0 <= i < blocks@.len() ==> (#[trigger] blocks@[i])@ == all[i],
                hist.counts(four_colour_words(all, (by * bx_n + bx) as nat)),
            decreases bx_n - bx,
        {
            let ghost i = by * bx_n + bx;
            proof {
                assert(0 <= i < bx_n * by_n) by (nonlinear_arith)
                    requires
                        i == by * bx_n + bx,
                        0 <= bx < bx_n,
                        0 <= by < by_n,
                ;
                lemma_block_position(bx_n as int, bx as int, by as int);
                lemma_words_bound(all, i as nat);
            }
            let px: [[u8; 4]; 16] = gather_block(rgba, w, h, bx, by);
            let b: [u8; 8] = encode_bc1_bytes(&px, q);
            proof {
                assert(b@ == all[i]);
            }
            if first_word(&b) > second_word(&b) {
                hist.note(index_word(&b), Ghost(four_colour_words(all, i as nat)));
            }
            blocks.push(b);
            bx = bx + 1;
        }
        proof {
            assert((by + 1) * bx_n == by * bx_n + bx_n) by (nonlinear_arith);
        }
        by = by + 1;
    }
    proof {
        assert(by_n * bx_n == bx_n * by_n) by (nonlinear_arith);
    }
    let dict: Vec<u32> = hist.top(Ghost(four_colour_words(all, n)));
    (dict, blocks)
}

/// The bytes of emitted blocks.
pub open spec fn views<const N: usize>(v: Seq<[u8; N]>) -> Seq<Seq<u8>> {
    Seq::new(v.len(), |i: int| v[i]@)
}

fn natural_saving_of(base: &[u8; 8], emitted: &Vec<[u8; 8]>, recent: &Recent, row: usize) -> (s: u32)
    requires
        recent.holds(views(emitted@)),
        row > 0,
    ensures
        s == natural_saving(base@, views(emitted@), row as int),
{
    let ghost e = views(emitted@);
    let mut whole: bool = false;
    let mut part: bool = false;
    let mut k: usize = 0;
    while k < recent.count
        invariant
            e == views(emitted@),
            recent.holds(e),
            k <= recent.count <= 16,
            whole <==> exists|j: int| 0 <= j < k && #[trigger] slot(e, j) == base@,
            part <==> exists|j: int| 0 <= j < k && shares_half(#[trigger] slot(e, j), base@),
        decreases recent.count - k,
    {
        let b: [u8; 8] = recent.blocks[k];
        proof {
            assert(b@ == slot(e, k as int));
        }
        if same_block(&b, base) {
            whole = true;
        }
        if share_half(&b, base) {
            part = true;
        }
        k = k + 1;
    }
    let n: usize = emitted.len();
    if n >= row {
        let above: [u8; 8] = emitted[n - row];
        proof {
            assert(above@ == e[e.len() - row]);
        }
        if same_block(&above, base) {
            whole = true;
        }
        if share_half(&above, base) {
            part = true;
        }
    }
    if whole {
        from_int32(7)
    } else if part {
        div32(from_int32(5), from_int32(2))
    } else {
        from_int32(0)
    }
}

/// The strength for a block.
pub fn masked_lambda(lambda: u32, err: i64, limit: i64) -> (r: u32)
    ensures
        r == masked(lambda, err as int, limit as int),
{
    let a: u32 = div32(from_int32(err), from_int32(limit));
    let one: u32 = from_int32(1);
    if less32(one, a) {
        mul32(lambda, one)
    } else {
        mul32(lambda, a)
    }
}

fn window_has(recent: &Recent, table: u32, Ghost(e): Ghost<Seq<Seq<u8>>>) -> (r: bool)
    requires
        recent.holds(e),
    ensures
        r == in_window(e, table as int),
{
    let mut k: usize = 0;
    while k < recent.count
        invariant
            recent.holds(e),
            k <= recent.count <= 16,
            forall|j: int| 0 <= j < k ==> le32(#[trigger] slot(e, j), 4) != table,
        decreases recent.count - k,
    {
        let b: [u8; 8] = recent.blocks[k];
        proof {
            assert(b@ == slot(e, k as int));
        }
        if index_word(&b) == table {
            return true;
        }
        k = k + 1;
    }
    false
}

fn try_donors(px: &[[u8; 4]; 16], start: Pick, recent: &Recent, lam: u32, part: u32, Ghost(e): Ghost<Seq<Seq<u8>>>) -> (r:
    Pick)
    requires
        recent.holds(e),
        part == save_part(),
    ensures
        r@ == donors_tried(rows(*px), start@, e, lam, filled(e) as nat),
{
    let mut st: Pick = start;
    let mut k: usize = 0;
    while k < recent.count
        invariant
            recent.holds(e),
            part == save_part(),
            k <= recent.count <= 16,
            st@ == donors_tried(rows(*px), start@, e, lam, k as nat),
        decreases recent.count - k,
    {
        let donor: [u8; 8] = recent.blocks[k];
        proof {
            assert(donor@ == slot(e, k as int));
            assert(terms_of(recent.ls@[k as int], le32(slot(e, k as int), 4)));
        }
        st = offer_refit(px, st, &recent.ls[k], index_word(&donor), lam, part);
        st = offer_endpoints(px, st, &donor, lam, part);
        k = k + 1;
    }
    st
}

fn try_dictionary(
    px: &[[u8; 4]; 16],
    start: Pick,
    recent: &Recent,
    dict: &Vec<u32>,
    dict_ls: &Vec<Option<LsTerms>>,
    lam: u32,
    part: u32,
    Ghost(e): Ghost<Seq<Seq<u8>>>,
) -> (r: Pick)
    requires
        recent.holds(e),
        part == save_part(),
        dict@.len() == dict_ls@.len(),
        forall|k: int| 0 <= k < dict@.len() ==> terms_of(#[trigger] dict_ls@[k], dict@[k] as int),
    ensures
        r@ == dictionary_tried(rows(*px), start@, e, dict@, lam, dict@.len()),
{
    let mut st: Pick = start;
    let mut k: usize = 0;
    while k < dict.len()
        invariant
            recent.holds(e),
            part == save_part(),
            k <= dict@.len(),
            dict@.len() == dict_ls@.len(),
            forall|k: int| 0 <= k < dict@.len() ==> terms_of(#[trigger] dict_ls@[k], dict@[k] as int),
            st@ == dictionary_tried(rows(*px), start@, e, dict@, lam, k as nat),
        decreases dict@.len() - k,
    {
        let table: u32 = dict[k];
        if !window_has(recent, table, Ghost(e)) {
            st = offer_refit(px, st, &dict_ls[k], table, lam, part);
        }
        k = k + 1;
    }
    st
}

fn choose_block(
    px: &[[u8; 4]; 16],
    base: &[u8; 8],
    emitted: &Vec<[u8; 8]>,
    recent: &Recent,
    row: usize,
    dict: &Vec<u32>,
    dict_ls: &Vec<Option<LsTerms>>,
    lambda: u32,
) -> (r: [u8; 8])
    requires
        recent.holds(views(emitted@)),
        row > 0,
        dict@.len() == dict_ls@.len(),
        forall|k: int| 0 <= k < dict@.len() ==> terms_of(#[trigger] dict_ls@[k], dict@[k] as int),
    ensures
        r@ == rdo_block(rows(*px), base@, views(emitted@), row as int, dict@, lambda),
{
    proof {
        reveal(rdo_block);
    }
    let ghost e = views(emitted@);
    let err: i32 = bc1_block_sse(px, base);
    if err == 0 {
        return *base;
    }
    let lam: u32 = masked_lambda(lambda, err as i64, 192);
    let saved: u32 = natural_saving_of(base, emitted, recent, row);
    let mut st: Pick = Pick {
        block: *base,
        j: sub32(from_int32(err as i64), mul32(lam, saved)),
        class: Class::Base,
    };
    let n: usize = emitted.len();
    if n > 0 {
        let prev: [u8; 8] = emitted[n - 1];
        proof {
            assert(prev@ == e[e.len() - 1]);
        }
        let e_prev: i32 = bc1_block_sse(px, &prev);
        st = offer(st, prev, e_prev, lam, lambda, from_int32(7), Class::Whole);
        let part: u32 = div32(from_int32(5), from_int32(2));
        st = try_donors(px, st, recent, lam, part, Ghost(e));
        st = try_dictionary(px, st, recent, dict, dict_ls, lam, part, Ghost(e));
    }
    match st.class {
        Class::Table => polish_endpoints_fixed_table(px, &st.block),
        _ => st.block,
    }
}

/// The bytes of blocks one after another.
pub open spec fn joined(blocks: Seq<Seq<u8>>, size: int) -> Seq<u8> {
    Seq::new((blocks.len() * size) as nat, |k: int| blocks[k / size][k % size])
}

/// Whether the encode of an image of blocks of `size` bytes succeeds, and if
/// not, why.
pub open spec fn rdo_outcome(len: int, w: int, h: int, size: int, out_len: int) -> Result<(), Error> {
    let need = block_count(w) * block_count(h) * size;
    if len < w * h * 4 {
        Err(Error::TruncatedData)
    } else if need > usize::MAX {
        Err(Error::OutOfBounds)
    } else if out_len < need {
        Err(Error::TruncatedData)
    } else {
        Ok(())
    }
}

/// What an image encodes to under the strength `lambda`.
pub open spec fn bc1_rdo_payload(rgba: Seq<u8>, w: int, h: int, q: EncodeQuality, lambda: u32) -> Seq<u8> {
    let n = (block_count(w) * block_count(h)) as nat;
    joined(rdo_blocks(rgba, w, h, q, image_dictionary(rgba, w, h, q), lambda, n), 8)
}

/// Checks the lengths that an encode needs, and gives the block grid.
pub fn check_lengths(len: usize, width: u32, height: u32, size: usize, out_len: usize) -> (r: Result<(usize, usize), Error>)
    requires
        size > 0,
    ensures
        r matches Ok(g) ==> rdo_outcome(len as int, width as int, height as int, size as int, out_len as int) is Ok && g.0
            == block_count(width as int) && g.1 == block_count(height as int),
        r matches Err(e) ==> rdo_outcome(len as int, width as int, height as int, size as int, out_len as int)
            == Err::<(), Error>(e),
{
    match product3(width as usize, height as usize, 4) {
        Err(_) => {
            return Err(Error::TruncatedData);
        },
        Ok(n) => {
            if len < n {
                return Err(Error::TruncatedData);
            }
        },
    }
    let bx: usize = blocks_across(width as usize);
    let by: usize = blocks_across(height as usize);
    match product3(bx, by, size) {
        Err(e) => Err(e),
        Ok(need) => if out_len < need {
            Err(Error::TruncatedData)
        } else {
            Ok((bx, by))
        },
    }
}

/// Encodes an image as BC1, choosing blocks by rate and distortion.
pub fn encode_image_bc1_rdo(rgba: &[u8], width: u32, height: u32, q: EncodeQuality, lambda: u32, out: &mut [u8]) -> (r: Result<
    (),
    Error,
>)
    ensures
        r == rdo_outcome(rgba@.len() as int, width as int, height as int, 8, old(out)@.len() as int),
        r is Ok ==> final(out)@ == splice(
            old(out)@,
            0,
            bc1_rdo_payload(rgba@, width as int, height as int, q, lambda),
        ),
        r is Err ==> final(out)@ == old(out)@,
{
    let (bx_n, by_n) = match check_lengths(rgba.len(), width, height, 8, out.len()) {
        Ok(g) => g,
        Err(e) => {
            return Err(e);
        },
    };
    let w: usize = width as usize;
    let h: usize = height as usize;
    let ghost n = (bx_n * by_n) as nat;
    proof {
        assert(n <= n * 8);
    }
    let (dict, base) = build_table_dict(rgba, w, h, q);
    let mut dict_ls: Vec<Option<LsTerms>> = Vec::new();
    let mut k: usize = 0;
    while k < dict.len()
        invariant
            k <= dict@.len(),
            dict_ls@.len() == k,
            forall|j: int| 0 <= j < k ==> terms_of(#[trigger] dict_ls@[j], dict@[j] as int),
        decreases dict@.len() - k,
    {
        dict_ls.push(table_ls(dict[k]));
        k = k + 1;
    }
    let ghost d = dict@;
    let mut emitted: Vec<[u8; 8]> = Vec::new();
    let mut recent: Recent = Recent::new();
    proof {
        assert(views(emitted@) =~= Seq::<Seq<u8>>::empty());
        assert(0 * bx_n == 0);
    }
    let mut by: usize = 0;
    while by < by_n
        invariant
            by <= by_n,
            w == width,
            h == height,
            bx_n == block_count(w as int),
            by_n == block_count(h as int),
            n == bx_n * by_n,
            n * 8 <= usize::MAX,
            rgba@.len() >= w * h * 4,
            base@.len() == n,
            forall|i: int|
                0 <= i < base@.len() ==> (#[trigger] base@[i])@ == bc1_encoded(
                    block_at(rgba@, w as int, h as int, i),
                    q,
                ).0,
            d == dict@,
            dict@.len() == dict_ls@.len(),
            forall|k: int| 0 <= k < dict@.len() ==> terms_of(#[trigger] dict_ls@[k], dict@[k] as int),
            emitted@.len() == by * bx_n,
            recent.holds(views(emitted@)),
            views(emitted@) == rdo_blocks(rgba@, w as int, h as int, q, d, lambda, (by * bx_n) as nat),
        decreases by_n - by,
    {
        let mut bx: usize = 0;
        while bx < bx_n
            invariant
                by < by_n,
                bx <= bx_n,
                w == width,
                h == height,
                bx_n == block_count(w as int),
                by_n == block_count(h as int),
                n == bx_n * by_n,
                n * 8 <= usize::MAX,
                rgba@.len() >= w * h * 4,
                base@.len() == n,
                forall|i: int|
                    0 <= i < base@.len() ==> (#[trigger] base@[i])@ == bc1_encoded(
                        block_at(rgba@, w as int, h as int, i),
                        q,
                    ).0,
                d == dict@,
                dict@.len() == dict_ls@.len(),
                forall|k: int| 0 <= k < dict@.len() ==> terms_of(#[trigger] dict_ls@[k], dict@[k] as int),
                emitted@.len() == by * bx_n + bx,
                recent.holds(views(emitted@)),
                views(emitted@) == rdo_blocks(rgba@, w as int, h as int, q, d, lambda, (by * bx_n + bx) as nat),
            decreases bx_n - bx,
        {
            let ghost i = by * bx_n + bx;
            proof {
                assert(0 <= i < bx_n * by_n) by (nonlinear_arith)
                    requires
                        i == by * bx_n + bx,
                        0 <= bx < bx_n,
                        0 <= by < by_n,
                ;
                lemma_block_position(bx_n as int, bx as int, by as int);
            }
            let px: [[u8; 4]; 16] = gather_block(rgba, w, h, bx, by);
            let at: usize = emitted.len();
            let plain: [u8; 8] = base[at];
            let b: [u8; 8] = choose_block(&px, &plain, &emitted, &recent, bx_n, &dict, &dict_ls, lambda);
            let ghost before = views(emitted@);
            recent.push(b, at % 16, Ghost(before));
            emitted.push(b);
            proof {
                assert(views(emitted@) =~= before.push(b@));
            }
            bx = bx + 1;
        }
        proof {
            assert((by + 1) * bx_n == by * bx_n + bx_n) by (nonlinear_arith);
        }
        by = by + 1;
    }
    proof {
        assert(by_n * bx_n == bx_n * by_n) by (nonlinear_arith);
    }
    store_blocks8(&emitted, out);
    Ok(())
}

fn store_blocks8(blocks: &Vec<[u8; 8]>, out: &mut [u8])
    requires
        blocks@.len() * 8 <= old(out)@.len(),
    ensures
        final(out)@ == splice(old(out)@, 0, joined(views(blocks@), 8)),
{
    let ghost want = joined(views(blocks@), 8);
    let len: usize = out.len();
    let mut i: usize = 0;
    while i < blocks.len()
        invariant
            i <= blocks@.len(),
            len == out@.len(),
            out@.len() == old(out)@.len(),
            blocks@.len() * 8 <= out@.len(),
            want == joined(views(blocks@), 8),
            forall|k: int| 0 <= k < 8 * i ==> #[trigger] out@[k] == want[k],
            forall|k: int| 8 * i <= k < out@.len() ==> #[trigger] out@[k] == old(out)@[k],
        decreases blocks@.len() - i,
    {
        let b: [u8; 8] = blocks[i];
        let ghost before = out@;
        store(out, 8 * i, &b);
        proof {
            assert forall|k: int| 0 <= k < 8 * (i + 1) implies #[trigger] out@[k] == want[k] by {
                if k < 8 * i {
                    assert(before[k] == want[k]);
                } else {
                    assert(k / 8 == i && k % 8 == k - 8 * i);
                }
            }
        }
        i = i + 1;
    }
    proof {
        assert(out@ =~= splice(old(out)@, 0, want));
    }
}

} // verus!
