//! Rate-distortion-optimised BC7.
//!
//! A mode 6 block splits into a head, its mode, endpoints and first low bit,
//! and a tail, its second low bit and indices, eight bytes each. A donor's tail
//! is reused with endpoints refitted to its indices, a donor's head with indices
//! refitted to its endpoints, and any block as a whole.

use vstd::prelude::*;

use crate::binary32::{difference, from_int32, less, less32, mul32, of_int, product, sub32};
use crate::decode::bcn::{bc7_block, bc7_rgba, block_number, mode6_index, read_bits, read_block};
use crate::encode::blocks::bc7::{bc7_encoded, best_low_bit, bytes7, encode_bc7_scored, fit_indices_mode6, float_weights4, interp64, interp_rows, interpolate, levels7, low_bit_choice, ls_endpoints_mode6, mode6_bytes, pack_bc7_mode6, palette_mode6, quantize_7p_fixed, rgba_costs, rgba_distance, unquantize_7p, unquantize_7p_chan, weight4, weights4};
use crate::encode::blocks::lsq::ls_endpoints;
use crate::encode::blocks::rdo::{block_at, check_lengths, filled, joined, masked, masked_lambda, rdo_outcome, slot, views, lemma_block_position, lemma_slot_push};
use crate::encode::blocks::{block_count, gather_block};
use crate::error::Error;
use crate::model::{bit_field, fit_error, fit_indices, rows, splice, sq, sq_diff, store, total};

verus! {

/// What a repeated block saves.
pub open spec fn save_block() -> u32 {
    of_int(14)
}

/// What a repeated half saves.
pub open spec fn save_half() -> u32 {
    of_int(6)
}

/// Each texel's squared RGBA error in a decoded block.
pub open spec fn decoded_costs7(px: Seq<Seq<u8>>, block: Seq<u8>) -> Seq<int> {
    Seq::new(16, |i: int| rgba_distance(px[i], bc7_rgba(block).subrange(4 * i, 4 * i + 4)))
}

/// The squared RGBA error of the texels that a block decodes to.
#[verifier::opaque]
pub open spec fn decoded_error7(px: Seq<Seq<u8>>, block: Seq<u8>) -> int {
    total(decoded_costs7(px, block), 16)
}

/// The squared RGBA error of the texels that a block decodes to.
pub fn bc7_block_sse(px: &[[u8; 4]; 16], block: &[u8; 16]) -> (err: i64)
    ensures
        err == decoded_error7(rows(*px), block@),
        0 <= err <= 4161600,
{
    proof {
        reveal(decoded_error7);
    }
    let dec: [u8; 64] = bc7_block(block);
    let ghost want = decoded_costs7(rows(*px), block@);
    let mut err: i64 = 0;
    let mut i: usize = 0;
    while i < 16
        invariant
            i <= 16,
            dec@ == bc7_rgba(block@),
            want == decoded_costs7(rows(*px), block@),
            err == total(want, i as nat),
            0 <= err <= i * 260100,
        decreases 16 - i,
    {
        let d: i32 = sq_diff(dec[4 * i], px[i][0]) + sq_diff(dec[4 * i + 1], px[i][1]) + sq_diff(
            dec[4 * i + 2],
            px[i][2],
        ) + sq_diff(dec[4 * i + 3], px[i][3]);
        proof {
            let t = bc7_rgba(block@).subrange(4 * (i as int), 4 * (i as int) + 4);
            assert(t[0] == dec@[4 * (i as int)]);
            assert(t[1] == dec@[4 * (i as int) + 1]);
            assert(t[2] == dec@[4 * (i as int) + 2]);
            assert(t[3] == dec@[4 * (i as int) + 3]);
            assert(want[i as int] == d);
        }
        err = err + d as i64;
        i = i + 1;
    }
    err
}

/// Levels and low bit of both endpoints, and the indices.
pub type Parts = (Seq<u8>, int, Seq<u8>, int, Seq<u8>);

/// The parts of a mode 6 block; none for any other block.
pub open spec fn parts6(block: Seq<u8>) -> Option<Parts> {
    let v = block_number(block, 0);
    if block[0] % 128 == 64 {
        Some((
            Seq::new(4, |c: int| bit_field(v, (7 + 14 * c) as nat, 7) as u8),
            bit_field(v, 63, 1),
            Seq::new(4, |c: int| bit_field(v, (14 + 14 * c) as nat, 7) as u8),
            bit_field(v, 64, 1),
            Seq::new(16, |p: int| mode6_index(v, p) as u8),
        ))
    } else {
        None
    }
}

/// The parts of a mode 6 block.
#[derive(Clone, Copy)]
pub struct Mode6Parts {
    pub q0: [u8; 4],
    pub p0: u8,
    pub q1: [u8; 4],
    pub p1: u8,
    pub idx: [u8; 16],
}

impl Mode6Parts {
    /// The parts that are held.
    pub open spec fn view(&self) -> Parts {
        (self.q0@, self.p0 as int, self.q1@, self.p1 as int, self.idx@)
    }

    /// The parts are in range.
    pub open spec fn wf(&self) -> bool {
        &&& forall|i: int| 0 <= i < 4 ==> #[trigger] self.q0@[i] < 128
        &&& forall|i: int| 0 <= i < 4 ==> #[trigger] self.q1@[i] < 128
        &&& self.p0 < 2
        &&& self.p1 < 2
        &&& forall|i: int| 0 <= i < 16 ==> #[trigger] self.idx@[i] < 16
    }
}

/// The parts of a mode 6 block; none for any other block.
pub fn parse_mode6(block: &[u8; 16]) -> (r: Option<Mode6Parts>)
    ensures
        r matches Some(p) ==> p.wf() && parts6(block@) == Some(p@),
        r is None ==> parts6(block@) is None,
{
    if block[0] % 128 != 64 {
        return None;
    }
    let v: u128 = read_block(block);
    proof {
        vstd::arithmetic::power2::lemma2_to64();
    }
    let q0: [u8; 4] = [
        read_bits(v, 7, 7) as u8,
        read_bits(v, 21, 7) as u8,
        read_bits(v, 35, 7) as u8,
        read_bits(v, 49, 7) as u8,
    ];
    let q1: [u8; 4] = [
        read_bits(v, 14, 7) as u8,
        read_bits(v, 28, 7) as u8,
        read_bits(v, 42, 7) as u8,
        read_bits(v, 56, 7) as u8,
    ];
    let p0: u8 = read_bits(v, 63, 1) as u8;
    let p1: u8 = read_bits(v, 64, 1) as u8;
    let mut idx: [u8; 16] = [0u8; 16];
    idx[0] = read_bits(v, 65, 3) as u8;
    let mut p: usize = 1;
    while p < 16
        invariant
            1 <= p <= 16,
            forall|k: int| 0 <= k < p ==> #[trigger] idx@[k] == mode6_index(v as int, k),
            forall|k: int| 0 <= k < p ==> #[trigger] idx@[k] < 16,
        decreases 16 - p,
    {
        proof {
            vstd::arithmetic::power2::lemma2_to64();
        }
        idx[p] = read_bits(v, 64 + 4 * (p as u32), 4) as u8;
        p = p + 1;
    }
    proof {
        let n = v as int;
        assert(q0@ =~= Seq::new(4, |c: int| bit_field(n, (7 + 14 * c) as nat, 7) as u8));
        assert(q1@ =~= Seq::new(4, |c: int| bit_field(n, (14 + 14 * c) as nat, 7) as u8));
        assert(idx@ =~= Seq::new(16, |p: int| mode6_index(n, p) as u8));
    }
    Some(Mode6Parts { q0, p0, q1, p1, idx })
}

/// Each texel's squared error in channel `c` between the bytes `v0` and `v1`.
pub open spec fn channel_costs6(px: Seq<Seq<u8>>, c: int, v0: int, v1: int, idx: Seq<u8>) -> Seq<int> {
    Seq::new(16, |i: int| sq(interp64(weights4()[idx[i] as int], v0, v1) - px[i][c]))
}

/// The squared error of channel `c` of a mode 6 block.
pub open spec fn channel_error6(px: Seq<Seq<u8>>, c: int, v0: int, v1: int, idx: Seq<u8>) -> int {
    total(channel_costs6(px, c, v0, v1, idx), 16)
}

/// The squared error of channel `c` for the levels `q` under the low bits.
pub open spec fn level_error(px: Seq<Seq<u8>>, c: int, q: (Seq<u8>, Seq<u8>), p0: int, p1: int, idx: Seq<u8>) -> int {
    channel_error6(px, c, 2 * q.0[c] + p0, 2 * q.1[c] + p1, idx)
}

/// The squared error of a mode 6 block: the sum over its channels.
pub open spec fn error6(px: Seq<Seq<u8>>, q: (Seq<u8>, Seq<u8>), p0: int, p1: int, idx: Seq<u8>) -> int {
    level_error(px, 0, q, p0, p1, idx) + level_error(px, 1, q, p0, p1, idx) + level_error(px, 2, q, p0, p1, idx)
        + level_error(px, 3, q, p0, p1, idx)
}

fn mode6_chan_sse(px: &[[u8; 4]; 16], c: usize, v0: u8, v1: u8, idx: &[u8; 16]) -> (e: i64)
    requires
        c < 4,
        forall|i: int| 0 <= i < 16 ==> #[trigger] idx@[i] < 16,
    ensures
        e == channel_error6(rows(*px), c as int, v0 as int, v1 as int, idx@),
        0 <= e <= 1040400,
{
    let ghost want = channel_costs6(rows(*px), c as int, v0 as int, v1 as int, idx@);
    let mut e: i64 = 0;
    let mut i: usize = 0;
    while i < 16
        invariant
            i <= 16,
            c < 4,
            forall|i: int| 0 <= i < 16 ==> #[trigger] idx@[i] < 16,
            want == channel_costs6(rows(*px), c as int, v0 as int, v1 as int, idx@),
            e == total(want, i as nat),
            0 <= e <= i * 65025,
        decreases 16 - i,
    {
        let d: i32 = sq_diff(interpolate(weight4(idx[i] as usize), v0, v1), px[i][c]);
        proof {
            assert(want[i as int] == d);
        }
        e = e + d as i64;
        i = i + 1;
    }
    e
}

/// One polish move: channel `c` of the first or second endpoint moves by `d`,
/// where that channel errs less.
pub open spec fn nudge(
    px: Seq<Seq<u8>>,
    q: (Seq<u8>, Seq<u8>),
    p0: int,
    p1: int,
    idx: Seq<u8>,
    first: bool,
    c: int,
    d: int,
) -> (Seq<u8>, Seq<u8>) {
    let v = if first {
        q.0[c] + d
    } else {
        q.1[c] + d
    };
    let n = if first {
        (q.0.update(c, v as u8), q.1)
    } else {
        (q.0, q.1.update(c, v as u8))
    };
    if 0 <= v <= 127 && level_error(px, c, n, p0, p1, idx) < level_error(px, c, q, p0, p1, idx) {
        n
    } else {
        q
    }
}

/// The first `k` of the sixteen moves of a round: both endpoints, four
/// channels, down then up.
pub open spec fn nudges(px: Seq<Seq<u8>>, q: (Seq<u8>, Seq<u8>), p0: int, p1: int, idx: Seq<u8>, k: nat) -> (
    Seq<u8>,
    Seq<u8>,
)
    decreases k,
{
    if k == 0 {
        q
    } else {
        let m = k - 1;
        nudge(
            px,
            nudges(px, q, p0, p1, idx, m as nat),
            p0,
            p1,
            idx,
            m < 8,
            m / 2 % 4,
            if m % 2 == 0 {
                -1
            } else {
                1
            },
        )
    }
}

/// Polish rounds, at most `n`, while the error falls.
pub open spec fn polished6(px: Seq<Seq<u8>>, q: (Seq<u8>, Seq<u8>), p0: int, p1: int, idx: Seq<u8>, n: nat) -> (
    Seq<u8>,
    Seq<u8>,
)
    decreases n,
{
    if n == 0 {
        q
    } else {
        let next = nudges(px, q, p0, p1, idx, 16);
        if error6(px, next, p0, p1, idx) >= error6(px, q, p0, p1, idx) {
            next
        } else {
            polished6(px, next, p0, p1, idx, (n - 1) as nat)
        }
    }
}

/// The levels of two endpoints.
#[derive(Clone, Copy)]
struct Levels {
    q0: [u8; 4],
    q1: [u8; 4],
}

impl Levels {
    spec fn view(&self) -> (Seq<u8>, Seq<u8>) {
        (self.q0@, self.q1@)
    }

    spec fn wf(&self) -> bool {
        &&& forall|i: int| 0 <= i < 4 ==> #[trigger] self.q0@[i] < 128
        &&& forall|i: int| 0 <= i < 4 ==> #[trigger] self.q1@[i] < 128
    }
}

fn level_sse(px: &[[u8; 4]; 16], c: usize, q: Levels, p0: u8, p1: u8, idx: &[u8; 16]) -> (e: i64)
    requires
        c < 4,
        q.wf(),
        p0 < 2,
        p1 < 2,
        forall|i: int| 0 <= i < 16 ==> #[trigger] idx@[i] < 16,
    ensures
        e == level_error(rows(*px), c as int, q@, p0 as int, p1 as int, idx@),
        0 <= e <= 1040400,
{
    mode6_chan_sse(px, c, unquantize_7p_chan(q.q0[c], p0), unquantize_7p_chan(q.q1[c], p1), idx)
}

/// The squared error of a mode 6 block with given levels and indices.
fn mode6_sse(px: &[[u8; 4]; 16], q: Levels, p0: u8, p1: u8, idx: &[u8; 16]) -> (e: i64)
    requires
        q.wf(),
        p0 < 2,
        p1 < 2,
        forall|i: int| 0 <= i < 16 ==> #[trigger] idx@[i] < 16,
    ensures
        e == error6(rows(*px), q@, p0 as int, p1 as int, idx@),
        0 <= e <= 4161600,
{
    level_sse(px, 0, q, p0, p1, idx) + level_sse(px, 1, q, p0, p1, idx) + level_sse(px, 2, q, p0, p1, idx) + level_sse(
        px,
        3,
        q,
        p0,
        p1,
        idx,
    )
}

fn try_nudge(px: &[[u8; 4]; 16], q: Levels, p0: u8, p1: u8, idx: &[u8; 16], first: bool, c: usize, d: i32) -> (r: Levels)
    requires
        c < 4,
        d == 1 || d == -1,
        q.wf(),
        p0 < 2,
        p1 < 2,
        forall|i: int| 0 <= i < 16 ==> #[trigger] idx@[i] < 16,
    ensures
        r@ == nudge(rows(*px), q@, p0 as int, p1 as int, idx@, first, c as int, d as int),
        r.wf(),
{
    let cur: u8 = if first {
        q.q0[c]
    } else {
        q.q1[c]
    };
    let v: i32 = cur as i32 + d;
    if v < 0 || v > 127 {
        return q;
    }
    let mut n: Levels = q;
    if first {
        n.q0[c] = v as u8;
    } else {
        n.q1[c] = v as u8;
    }
    proof {
        assert(n@.0 =~= (if first {
            q@.0.update(c as int, v as u8)
        } else {
            q@.0
        }));
        assert(n@.1 =~= (if first {
            q@.1
        } else {
            q@.1.update(c as int, v as u8)
        }));
    }
    let now: i64 = level_sse(px, c, q, p0, p1, idx);
    let moved: i64 = level_sse(px, c, n, p0, p1, idx);
    if moved < now {
        n
    } else {
        q
    }
}

/// Moves the endpoint levels by one, low bits and indices kept, while the block
/// errs less.
fn polish_mode6_endpoints(px: &[[u8; 4]; 16], start: Levels, p0: u8, p1: u8, idx: &[u8; 16]) -> (r: Levels)
    requires
        start.wf(),
        p0 < 2,
        p1 < 2,
        forall|i: int| 0 <= i < 16 ==> #[trigger] idx@[i] < 16,
    ensures
        r@ == polished6(rows(*px), start@, p0 as int, p1 as int, idx@, 2),
        r.wf(),
{
    let mut q: Levels = start;
    let mut left: u32 = 2;
    while left > 0
        invariant_except_break
            polished6(rows(*px), start@, p0 as int, p1 as int, idx@, 2) == polished6(
                rows(*px),
                q@,
                p0 as int,
                p1 as int,
                idx@,
                left as nat,
            ),
        invariant
            q.wf(),
            p0 < 2,
            p1 < 2,
            forall|i: int| 0 <= i < 16 ==> #[trigger] idx@[i] < 16,
        ensures
            q@ == polished6(rows(*px), start@, p0 as int, p1 as int, idx@, 2),
        decreases left,
    {
        let ghost round = q@;
        let prev: i64 = mode6_sse(px, q, p0, p1, idx);
        let mut k: usize = 0;
        while k < 16
            invariant
                k <= 16,
                q.wf(),
                p0 < 2,
                p1 < 2,
                forall|i: int| 0 <= i < 16 ==> #[trigger] idx@[i] < 16,
                q@ == nudges(rows(*px), round, p0 as int, p1 as int, idx@, k as nat),
            decreases 16 - k,
        {
            let d: i32 = if k % 2 == 0 {
                -1
            } else {
                1
            };
            q = try_nudge(px, q, p0, p1, idx, k < 8, k / 2 % 4, d);
            k = k + 1;
        }
        let err: i64 = mode6_sse(px, q, p0, p1, idx);
        left = left - 1;
        if err >= prev {
            break;
        }
    }
    q
}

/// The block chosen so far and its J.
pub type Choice7 = (Seq<u8>, u32);

/// The choice so far, or the candidate where its J is smaller.
pub open spec fn tried7(st: Choice7, block: Seq<u8>, err: int, lam: u32, save: u32) -> Choice7 {
    let j = difference(of_int(err), product(lam, save));
    if less(j, st.1) {
        (block, j)
    } else {
        st
    }
}

/// A donor's tail with endpoints refitted to its indices and polished.
pub open spec fn tail_tried(px: Seq<Seq<u8>>, st: Choice7, d: Parts, lam: u32) -> Choice7 {
    match ls_endpoints(px, float_weights4(d.4), 4) {
        None => st,
        Some((a, b)) => {
            let p0 = best_low_bit(a);
            let q = polished6(px, (levels7(a, p0), levels7(b, d.3)), p0, d.3, d.4, 2);
            tried7(st, mode6_bytes(q.0, p0, q.1, d.3, d.4), error6(px, q, p0, d.3, d.4), lam, save_half())
        },
    }
}

/// A donor's head with the second low bit `p1` and indices refitted to its
/// endpoints; no candidate where the first index's high bit would be set.
pub open spec fn head_tried(px: Seq<Seq<u8>>, st: Choice7, d: Parts, p1: int, lam: u32) -> Choice7 {
    let costs = rgba_costs(px, interp_rows(bytes7(d.0, d.1), bytes7(d.2, p1), weights4()));
    let idx = fit_indices(costs);
    if idx[0] > 7 {
        st
    } else {
        tried7(st, mode6_bytes(d.0, d.1, d.2, p1, idx), fit_error(costs), lam, save_half())
    }
}

/// One donor: its tail, then its head with either low bit.
#[verifier::opaque]
pub open spec fn donor_tried(px: Seq<Seq<u8>>, st: Choice7, donor: Seq<u8>, lam: u32) -> Choice7 {
    match parts6(donor) {
        None => st,
        Some(d) => head_tried(px, head_tried(px, tail_tried(px, st, d, lam), d, 0, lam), d, 1, lam),
    }
}

/// The first `k` slots of the window as donors.
pub open spec fn donors_tried7(px: Seq<Seq<u8>>, st: Choice7, emitted: Seq<Seq<u8>>, lam: u32, k: nat) -> Choice7
    decreases k,
{
    if k == 0 {
        st
    } else {
        donor_tried(px, donors_tried7(px, st, emitted, lam, (k - 1) as nat), slot(emitted, k - 1), lam)
    }
}

/// Whether two blocks share their head or their tail.
pub open spec fn shares_half7(a: Seq<u8>, b: Seq<u8>) -> bool {
    a.subrange(0, 8) == b.subrange(0, 8) || a.subrange(8, 16) == b.subrange(8, 16)
}

/// What the block already saves by repeating earlier bytes.
pub open spec fn natural_saving7(block: Seq<u8>, emitted: Seq<Seq<u8>>, row: int) -> u32 {
    let whole = exists|k: int| 0 <= k < filled(emitted) && #[trigger] slot(emitted, k) == block;
    let part = exists|k: int| 0 <= k < filled(emitted) && shares_half7(#[trigger] slot(emitted, k), block);
    let has_above = emitted.len() >= row;
    let above = emitted[emitted.len() - row];
    if whole || (has_above && above == block) {
        save_block()
    } else if part || (has_above && shares_half7(above, block)) {
        save_half()
    } else {
        of_int(0)
    }
}

/// The block emitted for some texels, after the blocks `emitted`, `row` blocks
/// to a row.
#[verifier::opaque]
pub open spec fn rdo_block7(px: Seq<Seq<u8>>, base: Seq<u8>, emitted: Seq<Seq<u8>>, row: int, lambda: u32) -> Seq<u8> {
    let err = decoded_error7(px, base);
    if err == 0 {
        base
    } else {
        let lam = masked(lambda, err, 256);
        let st0: Choice7 = (
            base,
            difference(of_int(err), product(lam, natural_saving7(base, emitted, row))),
        );
        if emitted.len() == 0 {
            st0.0
        } else {
            let prev = emitted[emitted.len() - 1];
            let st1 = tried7(st0, prev, decoded_error7(px, prev), lam, save_block());
            let st2 = if emitted.len() >= row {
                let above = emitted[emitted.len() - row];
                tried7(st1, above, decoded_error7(px, above), lam, save_block())
            } else {
                st1
            };
            donors_tried7(px, st2, emitted, lam, filled(emitted) as nat).0
        }
    }
}

#[derive(Clone, Copy)]
struct Pick7 {
    block: [u8; 16],
    j: u32,
}

impl Pick7 {
    spec fn view(&self) -> Choice7 {
        (self.block@, self.j)
    }
}

fn offer_block(px: &[[u8; 4]; 16], st: Pick7, block: &[u8; 16], lam: u32, save: u32) -> (r: Pick7)
    ensures
        r@ == tried7(st@, block@, decoded_error7(rows(*px), block@), lam, save),
{
    let e: i64 = bc7_block_sse(px, block);
    let j: u32 = sub32(from_int32(e), mul32(lam, save));
    if less32(j, st.j) {
        Pick7 { block: *block, j }
    } else {
        st
    }
}

fn offer_tail(px: &[[u8; 4]; 16], st: Pick7, d: &Mode6Parts, lam: u32, save: u32) -> (r: Pick7)
    requires
        d.wf(),
        save == save_half(),
    ensures
        r@ == tail_tried(rows(*px), st@, d@, lam),
{
    match ls_endpoints_mode6(px, &d.idx) {
        None => st,
        Some((a, b)) => {
            let p0: u8 = low_bit_choice(a);
            let start: Levels = Levels { q0: quantize_7p_fixed(a, p0), q1: quantize_7p_fixed(b, d.p1) };
            let q: Levels = polish_mode6_endpoints(px, start, p0, d.p1, &d.idx);
            let e: i64 = mode6_sse(px, q, p0, d.p1, &d.idx);
            let j: u32 = sub32(from_int32(e), mul32(lam, save));
            if less32(j, st.j) {
                Pick7 { block: pack_bc7_mode6(q.q0, p0, q.q1, d.p1, &d.idx), j }
            } else {
                st
            }
        },
    }
}

fn offer_head(px: &[[u8; 4]; 16], st: Pick7, d: &Mode6Parts, p1: u8, lam: u32, save: u32) -> (r: Pick7)
    requires
        d.wf(),
        p1 < 2,
        save == save_half(),
    ensures
        r@ == head_tried(rows(*px), st@, d@, p1 as int, lam),
{
    let pal: [[u8; 4]; 16] = palette_mode6(unquantize_7p(d.q0, d.p0), unquantize_7p(d.q1, p1));
    let (idx, e) = fit_indices_mode6(px, &pal);
    if idx[0] > 7 {
        return st;
    }
    let j: u32 = sub32(from_int32(e), mul32(lam, save));
    if less32(j, st.j) {
        Pick7 { block: pack_bc7_mode6(d.q0, d.p0, d.q1, p1, &idx), j }
    } else {
        st
    }
}

fn block_eq(a: &[u8; 16], b: &[u8; 16], from: usize, to: usize) -> (r: bool)
    requires
        from <= to <= 16,
    ensures
        r == (a@.subrange(from as int, to as int) == b@.subrange(from as int, to as int)),
{
    let mut i: usize = from;
    while i < to
        invariant
            from <= i <= to <= 16,
            forall|k: int| from <= k < i ==> #[trigger] a@[k] == b@[k],
        decreases to - i,
    {
        if a[i] != b[i] {
            proof {
                let x = a@.subrange(from as int, to as int);
                let y = b@.subrange(from as int, to as int);
                assert(x[i - from] != y[i - from]);
            }
            return false;
        }
        i = i + 1;
    }
    proof {
        assert(a@.subrange(from as int, to as int) =~= b@.subrange(from as int, to as int));
    }
    true
}

fn same_block7(a: &[u8; 16], b: &[u8; 16]) -> (r: bool)
    ensures
        r == (a@ == b@),
{
    proof {
        assert(a@.subrange(0, 16) =~= a@);
        assert(b@.subrange(0, 16) =~= b@);
    }
    block_eq(a, b, 0, 16)
}

/// The recent blocks, by the remainder of their number, with the parts of
/// those in mode 6.
struct Recent7 {
    blocks: [[u8; 16]; 16],
    parts: [Option<Mode6Parts>; 16],
    count: usize,
}

spec fn parts_match(p: Option<Mode6Parts>, block: Seq<u8>) -> bool {
    match p {
        Some(p) => p.wf() && parts6(block) == Some(p@),
        None => parts6(block) is None,
    }
}

impl Recent7 {
    spec fn holds(&self, emitted: Seq<Seq<u8>>) -> bool {
        &&& self.count == filled(emitted)
        &&& forall|k: int| 0 <= k < self.count ==> (#[trigger] self.blocks@[k])@ == slot(emitted, k)
        &&& forall|k: int| 0 <= k < self.count ==> parts_match(#[trigger] self.parts@[k], slot(emitted, k))
    }

    fn new() -> (r: Recent7)
        ensures
            r.holds(Seq::empty()),
    {
        Recent7 { blocks: [[0u8; 16]; 16], parts: [None; 16], count: 0 }
    }

    fn push(&mut self, block: [u8; 16], at: usize, Ghost(emitted): Ghost<Seq<Seq<u8>>>)
        requires
            old(self).holds(emitted),
            at == emitted.len() % 16,
        ensures
            final(self).holds(emitted.push(block@)),
    {
        let parts: Option<Mode6Parts> = parse_mode6(&block);
        let ghost next = emitted.push(block@);
        proof {
            assert forall|k: int| 0 <= k < filled(next) implies #[trigger] slot(next, k) == (if k == at {
                block@
            } else {
                slot(emitted, k)
            }) by {
                lemma_slot_push(emitted, block@, k);
            }
        }
        let ghost blocks0 = self.blocks@;
        let ghost parts0 = self.parts@;
        self.blocks[at] = block;
        self.parts[at] = parts;
        if self.count < 16 {
            self.count = self.count + 1;
        }
        proof {
            assert forall|k: int| 0 <= k < self.count implies (#[trigger] self.blocks@[k])@ == slot(next, k) by {
                if k != at {
                    assert(blocks0[k]@ == slot(emitted, k));
                }
                assert(slot(next, k) == (if k == at {
                    block@
                } else {
                    slot(emitted, k)
                }));
            }
            assert forall|k: int| 0 <= k < self.count implies parts_match(
                #[trigger] self.parts@[k],
                slot(next, k),
            ) by {
                if k != at {
                    assert(parts_match(parts0[k], slot(emitted, k)));
                }
                assert(slot(next, k) == (if k == at {
                    block@
                } else {
                    slot(emitted, k)
                }));
            }
        }
    }
}

fn natural_saving7_of(base: &[u8; 16], emitted: &Vec<[u8; 16]>, recent: &Recent7, row: usize) -> (s: u32)
    requires
        recent.holds(views(emitted@)),
        row > 0,
    ensures
        s == natural_saving7(base@, views(emitted@), row as int),
{
    let ghost e = views(emitted@);
    let mut whole: bool = false;
    let mut part: bool = false;
    let mut k: usize = 0;
    while k < recent.count
        invariant
            e == views(emitted@),
            recent.holds(e),
            k <= recent.count <= 16,
            whole <==> exists|j: int| 0 <= j < k && #[trigger] slot(e, j) == base@,
            part <==> exists|j: int| 0 <= j < k && shares_half7(#[trigger] slot(e, j), base@),
        decreases recent.count - k,
    {
        let b: [u8; 16] = recent.blocks[k];
        proof {
            assert(b@ == slot(e, k as int));
        }
        if same_block7(&b, base) {
            whole = true;
        }
        if block_eq(&b, base, 0, 8) || block_eq(&b, base, 8, 16) {
            part = true;
        }
        k = k + 1;
    }
    let n: usize = emitted.len();
    if n >= row {
        let above: [u8; 16] = emitted[n - row];
        proof {
            assert(above@ == e[e.len() - row]);
        }
        if same_block7(&above, base) {
            whole = true;
        }
        if block_eq(&above, base, 0, 8) || block_eq(&above, base, 8, 16) {
            part = true;
        }
    }
    if whole {
        from_int32(14)
    } else if part {
        from_int32(6)
    } else {
        from_int32(0)
    }
}

fn try_donors7(px: &[[u8; 4]; 16], start: Pick7, recent: &Recent7, lam: u32, Ghost(e): Ghost<Seq<Seq<u8>>>) -> (r: Pick7)
    requires
        recent.holds(e),
    ensures
        r@ == donors_tried7(rows(*px), start@, e, lam, filled(e) as nat),
{
    let half: u32 = from_int32(6);
    let mut st: Pick7 = start;
    let mut k: usize = 0;
    while k < recent.count
        invariant
            recent.holds(e),
            half == save_half(),
            k <= recent.count <= 16,
            st@ == donors_tried7(rows(*px), start@, e, lam, k as nat),
        decreases recent.count - k,
    {
        proof {
            reveal(donor_tried);
            assert(parts_match(recent.parts@[k as int], slot(e, k as int)));
        }
        if let Some(d) = recent.parts[k] {
            st = offer_tail(px, st, &d, lam, half);
            st = offer_head(px, st, &d, 0, lam, half);
            st = offer_head(px, st, &d, 1, lam, half);
        }
        k = k + 1;
    }
    st
}

fn choose_block7(
    px: &[[u8; 4]; 16],
    base: &[u8; 16],
    emitted: &Vec<[u8; 16]>,
    recent: &Recent7,
    row: usize,
    lambda: u32,
) -> (r: [u8; 16])
    requires
        recent.holds(views(emitted@)),
        row > 0,
    ensures
        r@ == rdo_block7(rows(*px), base@, views(emitted@), row as int, lambda),
{
    proof {
        reveal(rdo_block7);
    }
    let ghost e = views(emitted@);
    let err: i64 = bc7_block_sse(px, base);
    if err == 0 {
        return *base;
    }
    let lam: u32 = masked_lambda(lambda, err, 256);
    let saved: u32 = natural_saving7_of(base, emitted, recent, row);
    let mut st: Pick7 = Pick7 { block: *base, j: sub32(from_int32(err), mul32(lam, saved)) };
    let n: usize = emitted.len();
    if n > 0 {
        let whole: u32 = from_int32(14);
        let prev: [u8; 16] = emitted[n - 1];
        proof {
            assert(prev@ == e[e.len() - 1]);
        }
        st = offer_block(px, st, &prev, lam, whole);
        if n >= row {
            let above: [u8; 16] = emitted[n - row];
            proof {
                assert(above@ == e[e.len() - row]);
            }
            st = offer_block(px, st, &above, lam, whole);
        }
        st = try_donors7(px, st, recent, lam, Ghost(e));
    }
    st.block
}

/// The first `n` blocks of an image as the optimised pass emits them.
pub open spec fn rdo_blocks7(rgba: Seq<u8>, w: int, h: int, lambda: u32, n: nat) -> Seq<Seq<u8>>
    decreases n,
{
    if n == 0 {
        Seq::empty()
    } else {
        let emitted = rdo_blocks7(rgba, w, h, lambda, (n - 1) as nat);
        let px = block_at(rgba, w, h, n - 1);
        emitted.push(rdo_block7(px, bc7_encoded(px).0, emitted, block_count(w), lambda))
    }
}

/// One block is emitted for each block of the image.
pub proof fn lemma_rdo_blocks7_len(rgba: Seq<u8>, w: int, h: int, lambda: u32, n: nat)
    ensures
        rdo_blocks7(rgba, w, h, lambda, n).len() == n,
    decreases n,
{
    if n > 0 {
        lemma_rdo_blocks7_len(rgba, w, h, lambda, (n - 1) as nat);
    }
}

/// What an image encodes to under the strength `lambda`.
pub open spec fn bc7_rdo_payload(rgba: Seq<u8>, w: int, h: int, lambda: u32) -> Seq<u8> {
    let n = (block_count(w) * block_count(h)) as nat;
    joined(rdo_blocks7(rgba, w, h, lambda, n), 16)
}

/// Encodes an image as BC7, choosing blocks by rate and distortion.
pub fn encode_image_bc7_rdo(rgba: &[u8], width: u32, height: u32, lambda: u32, out: &mut [u8]) -> (r: Result<(), Error>)
    ensures
        r == rdo_outcome(rgba@.len() as int, width as int, height as int, 16, old(out)@.len() as int),
        r is Ok ==> final(out)@ == splice(old(out)@, 0, bc7_rdo_payload(rgba@, width as int, height as int, lambda)),
        r is Err ==> final(out)@ == old(out)@,
{
    let (bx_n, by_n) = match check_lengths(rgba.len(), width, height, 16, out.len()) {
        Ok(g) => g,
        Err(e) => {
            return Err(e);
        },
    };
    let w: usize = width as usize;
    let h: usize = height as usize;
    let ghost n = (bx_n * by_n) as nat;
    let mut emitted: Vec<[u8; 16]> = Vec::new();
    let mut recent: Recent7 = Recent7::new();
    proof {
        assert(views(emitted@) =~= Seq::<Seq<u8>>::empty());
        assert(0 * bx_n == 0);
        assert(n <= n * 16);
    }
    let mut by: usize = 0;
    while by < by_n
        invariant
            by <= by_n,
            w == width,
            h == height,
            bx_n == block_count(w as int),
            by_n == block_count(h as int),
            n == bx_n * by_n,
            n <= usize::MAX,
            rgba@.len() >= w * h * 4,
            emitted@.len() == by * bx_n,
            recent.holds(views(emitted@)),
            views(emitted@) == rdo_blocks7(rgba@, w as int, h as int, lambda, (by * bx_n) as nat),
        decreases by_n - by,
    {
        let mut bx: usize = 0;
        while bx < bx_n
            invariant
                by < by_n,
                bx <= bx_n,
                w == width,
                h == height,
                bx_n == block_count(w as int),
                by_n == block_count(h as int),
                n == bx_n * by_n,
                n <= usize::MAX,
                rgba@.len() >= w * h * 4,
                emitted@.len() == by * bx_n + bx,
                recent.holds(views(emitted@)),
                views(emitted@) == rdo_blocks7(rgba@, w as int, h as int, lambda, (by * bx_n + bx) as nat),
            decreases bx_n - bx,
        {
            let ghost i = by * bx_n + bx;
            proof {
                assert(0 <= i < bx_n * by_n) by (nonlinear_arith)
                    requires
                        i == by * bx_n + bx,
                        0 <= bx < bx_n,
                        0 <= by < by_n,
                ;
                lemma_block_position(bx_n as int, bx as int, by as int);
            }
            let px: [[u8; 4]; 16] = gather_block(rgba, w, h, bx, by);
            let (plain, _) = encode_bc7_scored(&px);
            let b: [u8; 16] = choose_block7(&px, &plain, &emitted, &recent, bx_n, lambda);
            let ghost before = views(emitted@);
            let at: usize = emitted.len();
            recent.push(b, at % 16, Ghost(before));
            emitted.push(b);
            proof {
                assert(views(emitted@) =~= before.push(b@));
            }
            bx = bx + 1;
        }
        proof {
            assert((by + 1) * bx_n == by * bx_n + bx_n) by (nonlinear_arith);
        }
        by = by + 1;
    }
    proof {
        assert(by_n * bx_n == bx_n * by_n) by (nonlinear_arith);
    }
    store_blocks16(&emitted, out);
    Ok(())
}

fn store_blocks16(blocks: &Vec<[u8; 16]>, out: &mut [u8])
    requires
        blocks@.len() * 16 <= old(out)@.len(),
    ensures
        final(out)@ == splice(old(out)@, 0, joined(views(blocks@), 16)),
{
    let ghost want = joined(views(blocks@), 16);
    let len: usize = out.len();
    let mut i: usize = 0;
    while i < blocks.len()
        invariant
            i <= blocks@.len(),
            len == out@.len(),
            out@.len() == old(out)@.len(),
            blocks@.len() * 16 <= out@.len(),
            want == joined(views(blocks@), 16),
            forall|k: int| 0 <= k < 16 * i ==> #[trigger] out@[k] == want[k],
            forall|k: int| 16 * i <= k < out@.len() ==> #[trigger] out@[k] == old(out)@[k],
        decreases blocks@.len() - i,
    {
        let b: [u8; 16] = blocks[i];
        let ghost before = out@;
        store(out, 16 * i, &b);
        proof {
            assert forall|k: int| 0 <= k < 16 * (i + 1) implies #[trigger] out@[k] == want[k] by {
                if k < 16 * i {
                    assert(before[k] == want[k]);
                } else {
                    assert(k / 16 == i && k % 16 == k - 16 * i);
                }
            }
        }
        i = i + 1;
    }
    proof {
        assert(out@ =~= splice(old(out)@, 0, want));
    }
}

} // verus!
