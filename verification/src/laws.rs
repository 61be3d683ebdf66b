//! What holds of a container's subresources and of the plans for them.

use vstd::arithmetic::power2::pow2;
use vstd::prelude::*;

use crate::content::slice_bytes;
use crate::dds::{chain_offset, chain_size, lemma_chain, units_across, Dds, DdsBase, NewDxgiParams, Payload};
use crate::decode::{block_row_count, row_bytes, rows_per_block};
use crate::error::Error;
use crate::format::DxgiFormat;
use crate::surface::{law_side_is_divided, law_side_is_halved, mip_side, SubresourceId};
use crate::upload::{blocks_over, GpuFormat, UploadPath, UploadPlan};

verus! {

/// `n` divided by two to the `m`, rounded down, but at least one.
pub open spec fn divided(n: u32, m: u32) -> int {
    if (n as int) < pow2(m as nat) {
        1
    } else {
        n as int / pow2(m as nat) as int
    }
}

/// `q` sides of `b` cover `n`, and one fewer do not.
pub open spec fn just_covers(q: int, b: int, n: int) -> bool {
    (q - 1) * b < n <= q * b
}

/// The rows of a plan are all its bytes.
pub open spec fn rows_are_all(p: UploadPlan) -> bool {
    p.data_len == p.bytes_per_row * p.rows_per_image * p.depth
}

proof fn lemma_divided(n: u32, m: u32)
    ensures
        mip_side(n, m) == divided(n, m),
        mip_side(n, m) >= 1,
{
    law_side_is_divided(n, m);
    let p = pow2(m as nat) as int;
    vstd::arithmetic::power2::lemma_pow2_pos(m as nat);
    if n < p {
        vstd::arithmetic::div_mod::lemma_basic_div(n as int, p);
    } else {
        assert(n as int / p >= 1) by (nonlinear_arith)
            requires
                n >= p,
                p > 0,
        ;
    }
}

proof fn lemma_just_covers(n: int, b: int)
    requires
        n > 0,
        b == 1 || b == 4,
    ensures
        just_covers(blocks_over(n, b), b, n),
        blocks_over(n, b) >= 1,
        blocks_over(n, b) == units_across(n, b),
{
    if b == 1 {
        assert(blocks_over(n, 1) == n / 1);
        assert(n / 1 == n);
    } else {
        assert(blocks_over(n, 4) == (n + 3) / 4);
    }
}

proof fn lemma_row(q: int, b: int)
    requires
        b > 0,
    ensures
        q * b / b == q,
        (q * b) % b == 0,
{
    vstd::arithmetic::div_mod::lemma_fundamental_div_mod_converse(q * b, b, q, 0);
}

proof fn lemma_quarter_of_blocks(bytes: int, cols: int, rows: int, c: int, r: int, len: int, next: int)
    requires
        bytes > 0,
        1 <= c,
        1 <= r,
        len == cols * bytes * rows,
        next == (if len / 4 < bytes {
            bytes
        } else {
            len / 4
        }),
        (cols == 2 * c && rows == 2 * r) || (1 <= cols <= 2 && 1 <= rows <= 2 && c == 1 && r == 1),
    ensures
        next == c * bytes * r,
{
    if cols == 2 * c && rows == 2 * r {
        assert(len == 4 * (c * bytes * r) && c * bytes * r >= bytes) by (nonlinear_arith)
            requires
                len == cols * bytes * rows,
                cols == 2 * c,
                rows == 2 * r,
                bytes > 0,
                c >= 1,
                r >= 1,
        ;
    } else {
        assert(len <= 4 * bytes) by (nonlinear_arith)
            requires
                len == cols * bytes * rows,
                1 <= cols <= 2,
                1 <= rows <= 2,
                bytes > 0,
        ;
        assert(c * bytes * r == bytes);
    }
}

proof fn lemma_next_blocks(n: int, next: int, b: int)
    requires
        b == 1 || b == 4,
        n >= 1,
        next == (if n / 2 == 0 {
            1
        } else {
            n / 2
        }),
    ensures
        n % (2 * b) == 0 ==> blocks_over(n, b) == 2 * blocks_over(next, b),
        n <= 2 * b ==> 1 <= blocks_over(n, b) <= 2 && blocks_over(next, b) == 1,
{
    lemma_just_covers(n, b);
    lemma_just_covers(next, b);
    if b == 4 {
        assert(n % (2 * b) == 0 ==> n % 8 == 0);
        assert(blocks_over(n, b) == (n + 3) / 4);
        assert(blocks_over(next, b) == (next + 3) / 4);
    } else {
        assert(n % (2 * b) == 0 ==> n % 2 == 0);
    }
}

impl<D: Payload> DdsBase<D> {
    /// Every level's sides are the header's, divided by two to the level,
    /// rounded down, but at least one.
    pub proof fn law_sides_are_divided(&self, mip: u32)
        ensures
            self.sides(mip).0 == divided(self.header.width, mip),
            self.sides(mip).1 == divided(self.header.height, mip),
            self.sides(mip).2 == (match self.header.depth {
                Some(d) => divided(d, mip),
                None => 1,
            }),
    {
        lemma_divided(self.header.width, mip);
        lemma_divided(self.header.height, mip);
        lemma_divided(self.full_depth(), mip);
        vstd::arithmetic::power2::lemma_pow2_pos(mip as nat);
        let p = pow2(mip as nat) as int;
        if p == 1 {
            assert(1int / 1 == 1);
        }
    }

    /// A plan for the payload's own bytes, at every level: its sides are the
    /// level's, its rows are of whole blocks, and they just cover those sides.
    pub proof fn law_native_plan_covers_its_level(&self, id: SubresourceId)
        requires
            self.native_plan(id) is Ok,
        ensures
            ({
                let p = self.native_plan(id).unwrap();
                let f = p.format;
                &&& p.id == id
                &&& p.path == UploadPath::Compressed
                &&& p.width == divided(self.header.width, id.mip)
                &&& p.height == divided(self.header.height, id.mip)
                &&& p.depth == (match self.header.depth {
                    Some(d) => divided(d, id.mip),
                    None => 1,
                })
                &&& p.bytes_per_row % f.block_bytes == 0
                &&& just_covers(p.bytes_per_row as int / f.block_bytes as int, f.block_width as int, p.width as int)
                &&& just_covers(p.rows_per_image as int, f.block_height as int, p.height as int)
            }),
    {
        self.law_sides_are_divided(id.mip);
        let p = self.native_plan(id).unwrap();
        let f = p.format;
        self.law_plan_units_are_payload_units();
        lemma_divided(self.header.width, id.mip);
        lemma_divided(self.header.height, id.mip);
        lemma_just_covers(p.width as int, f.block_width as int);
        lemma_just_covers(p.height as int, f.block_height as int);
        lemma_row(blocks_over(p.width as int, f.block_width as int), f.block_bytes as int);
    }

    /// A plan for decoded pixels, at every level: its sides are the level's,
    /// and its rows are the level's rows of four bytes a texel.
    pub proof fn law_decoded_plan_covers_its_level(&self, id: SubresourceId)
        requires
            self.decoded_plan(id) is Ok,
        ensures
            ({
                let p = self.decoded_plan(id).unwrap();
                &&& p.id == id
                &&& p.path == UploadPath::DecodedRgba8
                &&& p.width == divided(self.header.width, id.mip)
                &&& p.height == divided(self.header.height, id.mip)
                &&& p.depth == (match self.header.depth {
                    Some(d) => divided(d, id.mip),
                    None => 1,
                })
                &&& p.data_offset == 0
                &&& p.bytes_per_row == 4 * p.width
                &&& p.rows_per_image == p.height
                &&& rows_are_all(p)
                &&& plain_after(p.format, 'R') && !named_srgb(p.format)
            }),
    {
        reveal_strlit("R8G8B8A8_UNorm");
        reveal_strlit("Rgba8Unorm");
        reveal_strlit("VK_FORMAT_R8G8B8A8_UNORM");
        self.law_sides_are_divided(id.mip);
        let s = self.sides(id.mip);
        assert(s.0 * s.1 * s.2 * 4 == s.0 * 4 * s.1 * s.2) by (nonlinear_arith);
    }

    /// The two plans for a subresource, where there are both, agree on its sides.
    pub proof fn law_plans_agree(&self, id: SubresourceId)
        requires
            self.native_plan(id) is Ok,
            self.decoded_plan(id) is Ok,
        ensures
            ({
                let (p, q) = (self.native_plan(id).unwrap(), self.decoded_plan(id).unwrap());
                (p.width, p.height, p.depth) == (q.width, q.height, q.depth)
            }),
    {
    }

    /// The first level's rows are all its bytes, whatever its sides.
    pub proof fn law_first_level_is_its_rows(&self, id: SubresourceId)
        requires
            self.native_plan(id) is Ok,
            id.mip == 0,
            self.header.width > 0,
            self.header.height > 0,
            self.full_depth() > 0,
        ensures
            rows_are_all(self.native_plan(id).unwrap()),
    {
        self.law_native_plan_rows_cover_the_main_surface(id);
    }

    /// Of a 2D image, a level whose sides halve into whole blocks, or that is
    /// itself at most two blocks wide and high, hands on to the next level that
    /// its rows are all its bytes.
    pub proof fn law_next_level_is_its_rows(&self, id: SubresourceId, next: SubresourceId)
        requires
            self.native_plan(id) is Ok,
            self.native_plan(next) is Ok,
            next.mip == id.mip + 1,
            next.layer == id.layer,
            next.face == id.face,
            ({
                let p = self.native_plan(id).unwrap();
                let (bw, bh) = (p.format.block_width as int, p.format.block_height as int);
                &&& p.depth == 1
                &&& rows_are_all(p)
                &&& (p.width as int % (2 * bw) == 0 && p.height as int % (2 * bh) == 0) || (p.width <= 2 * bw && p.height <= 2
                    * bh)
            }),
        ensures
            rows_are_all(self.native_plan(next).unwrap()),
    {
        self.law_plan_units_are_payload_units();
        self.law_subresources_are_disjoint(id, id);
        self.law_subresources_are_disjoint(next, next);
        let (p, q) = (self.native_plan(id).unwrap(), self.native_plan(next).unwrap());
        let b = p.format.block_width as int;
        law_side_is_halved(self.header.width, id.mip);
        law_side_is_halved(self.header.height, id.mip);
        law_side_is_halved(self.full_depth(), id.mip);
        lemma_next_blocks(p.width as int, q.width as int, b);
        lemma_next_blocks(p.height as int, q.height as int, b);
        lemma_just_covers(q.width as int, b);
        lemma_just_covers(q.height as int, b);
        let (main, least) = (self.main_size().unwrap(), self.least_size());
        assert(chain_size(main, least, next.mip as nat) == (if chain_size(main, least, id.mip as nat) / 4 < least {
            least
        } else {
            chain_size(main, least, id.mip as nat) / 4
        }));
        lemma_quarter_of_blocks(
            least,
            blocks_over(p.width as int, b),
            blocks_over(p.height as int, b),
            blocks_over(q.width as int, b),
            blocks_over(q.height as int, b),
            p.data_len as int,
            q.data_len as int,
        );
        let (c, r) = (blocks_over(q.width as int, b), blocks_over(q.height as int, b));
        assert(q.bytes_per_row == c * least && q.rows_per_image == r && q.depth == 1);
        assert(c * least * r * 1 == c * least * r);
    }

    /// Of a 2D image whose sides are whole blocks times two to the level, the
    /// level's rows are all its bytes.
    pub proof fn law_divisible_level_is_its_rows(&self, id: SubresourceId)
        requires
            self.native_plan(id) is Ok,
            self.full_depth() == 1,
            self.header.width > 0,
            self.header.height > 0,
            self.header.width as int % (self.gpu().unwrap().block_width * pow2(id.mip as nat)) == 0,
            self.header.height as int % (self.gpu().unwrap().block_height * pow2(id.mip as nat)) == 0,
        ensures
            rows_are_all(self.native_plan(id).unwrap()),
        decreases id.mip,
    {
        if id.mip == 0 {
            self.law_first_level_is_its_rows(id);
        } else {
            let up = SubresourceId { mip: (id.mip - 1) as u32, layer: id.layer, face: id.face };
            let f = self.gpu().unwrap();
            self.law_plan_units_are_payload_units();
            self.lemma_level_before(id, up);
            self.lemma_plan_before(id, up);
            let half = pow2((id.mip - 1) as nat) as int;
            vstd::arithmetic::power2::lemma_pow2_unfold(id.mip as nat);
            vstd::arithmetic::power2::lemma_pow2_pos((id.mip - 1) as nat);
            lemma_halves(self.header.width as int, f.block_width as int, half);
            lemma_halves(self.header.height as int, f.block_height as int, half);
            self.law_divisible_level_is_its_rows(up);
            self.law_sides_are_divided(up.mip);
            let p = self.native_plan(up).unwrap();
            assert(p.width == self.header.width as int / half && p.height == self.header.height as int / half);
            lemma_no_wider(1, up.mip);
            assert(p.depth == 1);
            self.law_next_level_is_its_rows(up, id);
        }
    }

    /// The level before a level that can be had can be had.
    proof fn lemma_level_before(&self, id: SubresourceId, up: SubresourceId)
        requires
            self.place(id) is Ok,
            id.mip == up.mip + 1,
            up.layer == id.layer,
            up.face == id.face,
        ensures
            self.place(up) is Ok,
            self.place(up).unwrap().1 == self.place(id).unwrap().0,
    {
        let (main, least) = (self.main_size().unwrap(), self.least_size());
        self.law_subresources_are_disjoint(id, id);
        self.lemma_main_is_nonnegative();
        lemma_chain(main, least, up.mip as nat, id.mip as nat);
        lemma_chain(main, least, id.mip as nat, id.mip as nat);
        assert(chain_offset(main, least, id.mip as nat) == chain_offset(main, least, up.mip as nat) + chain_size(
            main,
            least,
            up.mip as nat,
        ));
    }

    proof fn lemma_main_is_nonnegative(&self)
        requires
            self.main_size() is Some,
        ensures
            self.main_size().unwrap() >= 0,
            self.least_size() >= 1,
    {
        let (side, bytes) = self.unit().unwrap();
        let (a, b, d) = (
            units_across(self.header.width as int, side),
            units_across(self.header.height as int, side),
            self.full_depth() as int,
        );
        assert(0 <= a && 0 <= b);
        assert(0 <= a * bytes * b * d) by (nonlinear_arith)
            requires
                0 <= a,
                0 <= b,
                0 <= d,
                0 <= bytes,
        ;
    }

    /// A 2D image of whole blocks has plans for the levels before one that it
    /// has a plan for.
    proof fn lemma_plan_before(&self, id: SubresourceId, up: SubresourceId)
        requires
            self.native_plan(id) is Ok,
            self.place(up) is Ok,
            self.header.width > 0,
            self.header.height > 0,
            self.full_depth() == 1,
        ensures
            self.native_plan(up) is Ok,
    {
        let f = self.gpu().unwrap();
        self.law_plan_units_are_payload_units();
        let s = self.sides(up.mip);
        lemma_divided(self.header.width, up.mip);
        lemma_divided(self.header.height, up.mip);
        law_side_is_divided(self.header.width, up.mip);
        let (w, h) = (self.header.width as int, self.header.height as int);
        let (b, bytes) = (f.block_width as int, f.block_bytes as int);
        lemma_just_covers(s.0 as int, b);
        lemma_just_covers(w, b);
        lemma_just_covers(h, b);
        crate::surface::lemma_mip_side_step(self.header.width, 0);
        lemma_no_wider(self.header.width, up.mip);
        lemma_monotone_blocks(s.0 as int, w, b);
        let (x, cols, rows) = (blocks_over(s.0 as int, b), blocks_over(w, b), blocks_over(h, b));
        assert(x * bytes <= cols * bytes * rows * 1) by (nonlinear_arith)
            requires
                0 <= x <= cols,
                rows >= 1,
                bytes >= 0,
        ;
    }

    /// The subresources of a payload lie end to end: the first at its start, each
    /// level right after the level before, each face after the last level of the
    /// face before, each layer after the last face of the layer before.
    pub proof fn law_subresources_lie_end_to_end(&self, id: SubresourceId, next: SubresourceId)
        requires
            self.place(id) is Ok,
            self.place(next) is Ok,
        ensures
            id.mip == 0 && id.layer == 0 && id.face == 0 ==> self.place(id).unwrap().0 == 0,
            next == (SubresourceId { mip: (id.mip + 1) as u32, ..id }) && id.mip < u32::MAX ==> self.place(next).unwrap().0 == self.place(
                id,
            ).unwrap().1,
            next.mip == 0 && id.mip + 1 == self.levels() && next.layer == id.layer && next.face == id.face + 1
                ==> self.place(next).unwrap().0 == self.place(id).unwrap().1,
            next.mip == 0 && id.mip + 1 == self.levels() && next.layer == id.layer + 1 && next.face == 0 && id.face + 1
                == self.subresource_faces() ==> self.place(next).unwrap().0 == self.place(id).unwrap().1,
    {
        let (main, least) = (self.main_size().unwrap(), self.least_size());
        assert(chain_offset(main, least, (id.mip + 1) as nat) == chain_offset(main, least, id.mip as nat) + chain_size(
            main,
            least,
            id.mip as nat,
        ));
        assert(chain_offset(main, least, 0) == 0);
        let s = self.stride();
        let (c, f) = (self.chain_of(id), self.faces() as int);
        assert((c + 1) * s == c * s + s) by (nonlinear_arith);
        assert((id.layer + 1) * f == id.layer * f + f) by (nonlinear_arith);
        if id.mip == 0 && id.layer == 0 && id.face == 0 {
            assert(0 * f == 0 && 0 * s == 0);
        }
    }

    /// Six for a cubemap, else one: a cubemap is what the DX10 header says is
    /// one, or without that header the main header.
    pub open spec fn subresource_faces(&self) -> int {
        if (self.header10 matches Some(h) && h.texture_cube) || (self.header10 is None && self.header.cubemap) {
            6
        } else {
            1
        }
    }

    /// Each level of a chain has a quarter of the bytes of the level before, but
    /// at least one block's, or texel's; the first has its blocks' bytes.
    pub proof fn law_levels_quarter(&self, id: SubresourceId, next: SubresourceId)
        requires
            self.gpu() is Ok,
            self.place(id) is Ok,
            self.place(next) is Ok,
            next.mip == id.mip + 1,
        ensures
            ({
                let b = self.gpu().unwrap().block_bytes as int;
                let n = self.place(id).unwrap().1 - self.place(id).unwrap().0;
                let q = self.place(next).unwrap().1 - self.place(next).unwrap().0;
                if n < 4 * b {
                    q == b
                } else {
                    4 * q <= n < 4 * q + 4
                }
            }),
    {
        self.law_plan_units_are_payload_units();
        let (main, least) = (self.main_size().unwrap(), self.least_size());
        assert(chain_size(main, least, next.mip as nat) == (if chain_size(main, least, id.mip as nat) / 4 < least {
            least
        } else {
            chain_size(main, least, id.mip as nat) / 4
        }));
    }

    /// A subresource that the headers do not speak of is out of bounds; one that
    /// they speak of and that the payload holds can be had.
    pub proof fn law_what_can_be_had(&self, id: SubresourceId)
        ensures
            self.has(id) <==> id.mip < (match self.header.mip_map_count {
                Some(n) => n,
                None => 1,
            }) && id.face < self.subresource_faces() && id.layer < (match self.header10 {
                Some(h) => if h.array_size == 0 {
                    1
                } else {
                    h.array_size
                },
                None => 1,
            }),
            id.mip >= self.levels() || id.face >= self.subresource_faces() || (self.header10 is None && id.layer > 0) || (
            self.header10 matches Some(h) && id.layer > 0 && id.layer >= h.array_size) ==> self.place(id) == Err::<
                (int, int),
                Error,
            >(Error::OutOfBounds),
            self.place(id) is Ok ==> 0 <= self.place(id).unwrap().0 <= self.place(id).unwrap().1
                <= self.data.bytes().len(),
            self.place(id) == Err::<(int, int), Error>(Error::TruncatedData) ==> self.first_byte(id) + self.byte_count(id)
                > self.data.bytes().len(),
    {
        if self.place(id) is Ok {
            self.law_subresources_are_disjoint(id, id);
        }
    }
}

proof fn lemma_halves(n: int, b: int, half: int)
    requires
        n > 0,
        b == 1 || b == 4,
        half > 0,
        n % (b * (2 * half)) == 0,
    ensures
        n % (b * half) == 0,
        n / half >= 1,
        n >= half,
        (n / half) % (2 * b) == 0,
{
    let d = b * (2 * half);
    assert(d == half * (2 * b) && d == 2 * (b * half)) by (nonlinear_arith)
        requires
            d == b * (2 * half),
    ;
    assert(d > 0);
    let k = n / d;
    vstd::arithmetic::div_mod::lemma_fundamental_div_mod(n, d);
    assert(n == d * k);
    assert(k >= 1) by (nonlinear_arith)
        requires
            n == d * k,
            n > 0,
            d > 0,
    ;
    let e = b * half;
    assert(e > 0) by (nonlinear_arith)
        requires
            e == b * half,
            b >= 1,
            half > 0,
    ;
    assert(n == (2 * k) * e + 0) by (nonlinear_arith)
        requires
            n == d * k,
            d == 2 * e,
    ;
    vstd::arithmetic::div_mod::lemma_fundamental_div_mod_converse(n, e, 2 * k, 0);
    let q = (2 * b) * k;
    assert(n == q * half + 0) by (nonlinear_arith)
        requires
            n == d * k,
            d == half * (2 * b),
            q == (2 * b) * k,
    ;
    vstd::arithmetic::div_mod::lemma_fundamental_div_mod_converse(n, half, q, 0);
    assert(q >= 1) by (nonlinear_arith)
        requires
            q == (2 * b) * k,
            b >= 1,
            k >= 1,
    ;
    assert(n >= half) by (nonlinear_arith)
        requires
            n == q * half,
            q >= 1,
            half > 0,
    ;
    assert(q == k * (2 * b) + 0) by (nonlinear_arith)
        requires
            q == (2 * b) * k,
    ;
    vstd::arithmetic::div_mod::lemma_fundamental_div_mod_converse(q, 2 * b, k, 0);
}

proof fn lemma_no_wider(n: u32, m: u32)
    requires
        n > 0,
    ensures
        1 <= mip_side(n, m) <= n,
    decreases m,
{
    if m > 0 {
        lemma_no_wider(n, (m - 1) as u32);
        law_side_is_halved(n, (m - 1) as u32);
    }
}

proof fn lemma_monotone_blocks(a: int, n: int, b: int)
    requires
        1 <= a <= n,
        b == 1 || b == 4,
    ensures
        blocks_over(a, b) <= blocks_over(n, b),
{
    lemma_just_covers(a, b);
    lemma_just_covers(n, b);
    if b == 4 {
        assert(blocks_over(a, b) == (a + 3) / 4);
        assert(blocks_over(n, b) == (n + 3) / 4);
    }
}

/// The names of a format begin with the block compression of a number.
pub open spec fn named_after(f: GpuFormat, number: char) -> bool {
    &&& f.dxgi_name@[0] == 'B' && f.dxgi_name@[1] == 'C' && f.dxgi_name@[2] == number
    &&& f.wgpu_name@[0] == 'B' && f.wgpu_name@[1] == 'c' && f.wgpu_name@[2] == number
    &&& f.vulkan_name@[10] == 'B' && f.vulkan_name@[11] == 'C' && f.vulkan_name@[12] == number
    &&& f.compressed && f.block_width == 4 && f.block_height == 4
}

/// The names of a format begin with a channel of eight bits.
pub open spec fn plain_after(f: GpuFormat, channel: char) -> bool {
    &&& f.dxgi_name@[0] == channel && f.dxgi_name@[1] == '8'
    &&& f.wgpu_name@[0] == channel && f.wgpu_name@[4] == '8'
    &&& f.vulkan_name@[10] == channel && f.vulkan_name@[11] == '8'
    &&& !f.compressed && f.block_width == 1 && f.block_height == 1 && f.block_bytes == 4
}

/// The names of a format end as those of sRGB formats do.
pub open spec fn named_srgb(f: GpuFormat) -> bool {
    let (d, w) = (f.dxgi_name@, f.wgpu_name@);
    &&& d.len() > 5 && d[d.len() - 5] == '_' && d[d.len() - 4] == 's' && d.last() == 'B'
    &&& w.len() > 4 && w[w.len() - 4] == 'S' && w[w.len() - 3] == 'r' && w.last() == 'b'
}

impl<D: Payload> DdsBase<D> {
    /// The headers name an sRGB format.
    pub open spec fn names_srgb(&self) -> bool {
        self.names_dxgi(DxgiFormat::BC1_UNorm_sRGB) || self.names_dxgi(DxgiFormat::BC2_UNorm_sRGB) || self.names_dxgi(
            DxgiFormat::BC3_UNorm_sRGB,
        ) || self.names_dxgi(DxgiFormat::BC7_UNorm_sRGB) || self.names_dxgi(DxgiFormat::R8G8B8A8_UNorm_sRGB) || self.names_dxgi(
            DxgiFormat::B8G8R8A8_UNorm_sRGB,
        )
    }

    /// The native GPU format has the block compression, or the channel order, of
    /// the format that the headers name, its signedness, and its sRGB tag; there is
    /// none for any other format.
    pub proof fn law_native_format_follows_the_named_format(&self)
        ensures
            ({
                let f = self.gpu().unwrap();
                &&& self.names_bc1() ==> named_after(f, '1') && f.block_bytes == 8
                &&& self.names_bc2() ==> named_after(f, '2') && f.block_bytes == 16
                &&& self.names_bc3() ==> named_after(f, '3') && f.block_bytes == 16
                &&& self.names_bc4(false) || self.names_bc4(true) ==> named_after(f, '4') && f.block_bytes == 8
                &&& self.names_bc5(false) || self.names_bc5(true) ==> named_after(f, '5') && f.block_bytes == 16
                &&& self.names_bc6h(false) || self.names_bc6h(true) ==> named_after(f, '6') && f.block_bytes == 16
                &&& self.names_bc7() ==> named_after(f, '7') && f.block_bytes == 16
                &&& self.names_rgba8() ==> plain_after(f, 'R')
                &&& self.names_bgra8() ==> plain_after(f, 'B')
                &&& self.names_bc4(true) ==> f.dxgi_name@[4] == 'S' && f.wgpu_name@[4] == 'S' && f.vulkan_name@[14] == 'S'
                &&& self.names_bc4(false) ==> f.dxgi_name@[4] == 'U' && f.wgpu_name@[4] == 'U' && f.vulkan_name@[14] == 'U'
                &&& self.names_bc5(true) ==> f.dxgi_name@[4] == 'S' && f.wgpu_name@[5] == 'S' && f.vulkan_name@[14] == 'S'
                &&& self.names_bc5(false) ==> f.dxgi_name@[4] == 'U' && f.wgpu_name@[5] == 'U' && f.vulkan_name@[14] == 'U'
                &&& self.names_bc6h(true) ==> f.dxgi_name@[5] == 'S' && f.wgpu_name@[7] == 'F' && f.vulkan_name@[15] == 'S'
                &&& self.names_bc6h(false) ==> f.dxgi_name@[5] == 'U' && f.wgpu_name@[7] == 'U' && f.vulkan_name@[15] == 'U'
                &&& self.gpu() is Ok ==> (named_srgb(f) <==> self.names_srgb())
                &&& self.gpu() is Ok ==> ({
                    let p: int = if self.names_bc1() || !f.compressed {
                        19
                    } else {
                        14
                    };
                    self.names_srgb() <==> f.vulkan_name@[p] == 'S' && f.vulkan_name@[p + 1] == 'R'
                })
            }),
            self.gpu() is Ok <==> self.names_bc1() || self.names_bc2() || self.names_bc3() || self.names_bc4(false)
                || self.names_bc4(true) || self.names_bc5(false) || self.names_bc5(true) || self.names_bc6h(false)
                || self.names_bc6h(true) || self.names_bc7() || self.names_rgba8() || self.names_bgra8(),
    {
        reveal_strlit("BC1_UNorm");
        reveal_strlit("Bc1RgbaUnorm");
        reveal_strlit("VK_FORMAT_BC1_RGBA_UNORM_BLOCK");
        reveal_strlit("BC1_UNorm_sRGB");
        reveal_strlit("Bc1RgbaUnormSrgb");
        reveal_strlit("VK_FORMAT_BC1_RGBA_SRGB_BLOCK");
        reveal_strlit("BC2_UNorm");
        reveal_strlit("Bc2RgbaUnorm");
        reveal_strlit("VK_FORMAT_BC2_UNORM_BLOCK");
        reveal_strlit("BC2_UNorm_sRGB");
        reveal_strlit("Bc2RgbaUnormSrgb");
        reveal_strlit("VK_FORMAT_BC2_SRGB_BLOCK");
        reveal_strlit("BC3_UNorm");
        reveal_strlit("Bc3RgbaUnorm");
        reveal_strlit("VK_FORMAT_BC3_UNORM_BLOCK");
        reveal_strlit("BC3_UNorm_sRGB");
        reveal_strlit("Bc3RgbaUnormSrgb");
        reveal_strlit("VK_FORMAT_BC3_SRGB_BLOCK");
        reveal_strlit("BC4_UNorm");
        reveal_strlit("Bc4RUnorm");
        reveal_strlit("VK_FORMAT_BC4_UNORM_BLOCK");
        reveal_strlit("BC4_SNorm");
        reveal_strlit("Bc4RSnorm");
        reveal_strlit("VK_FORMAT_BC4_SNORM_BLOCK");
        reveal_strlit("BC5_UNorm");
        reveal_strlit("Bc5RgUnorm");
        reveal_strlit("VK_FORMAT_BC5_UNORM_BLOCK");
        reveal_strlit("BC5_SNorm");
        reveal_strlit("Bc5RgSnorm");
        reveal_strlit("VK_FORMAT_BC5_SNORM_BLOCK");
        reveal_strlit("BC6H_UF16");
        reveal_strlit("Bc6hRgbUfloat");
        reveal_strlit("VK_FORMAT_BC6H_UFLOAT_BLOCK");
        reveal_strlit("BC6H_SF16");
        reveal_strlit("Bc6hRgbFloat");
        reveal_strlit("VK_FORMAT_BC6H_SFLOAT_BLOCK");
        reveal_strlit("BC7_UNorm");
        reveal_strlit("Bc7RgbaUnorm");
        reveal_strlit("VK_FORMAT_BC7_UNORM_BLOCK");
        reveal_strlit("BC7_UNorm_sRGB");
        reveal_strlit("Bc7RgbaUnormSrgb");
        reveal_strlit("VK_FORMAT_BC7_SRGB_BLOCK");
        reveal_strlit("R8G8B8A8_UNorm");
        reveal_strlit("Rgba8Unorm");
        reveal_strlit("VK_FORMAT_R8G8B8A8_UNORM");
        reveal_strlit("R8G8B8A8_UNorm_sRGB");
        reveal_strlit("Rgba8UnormSrgb");
        reveal_strlit("VK_FORMAT_R8G8B8A8_SRGB");
        reveal_strlit("B8G8R8A8_UNorm");
        reveal_strlit("Bgra8Unorm");
        reveal_strlit("VK_FORMAT_B8G8R8A8_UNORM");
        reveal_strlit("B8G8R8A8_UNorm_sRGB");
        reveal_strlit("Bgra8UnormSrgb");
        reveal_strlit("VK_FORMAT_B8G8R8A8_SRGB");
    }

    /// The kind that a payload decodes as is of the number, and of the signedness,
    /// that its native GPU format is named after.
    pub proof fn law_decoded_kind_is_the_native_one(&self)
        requires
            self.content() is Ok,
        ensures
            self.gpu() is Ok,
            ({
                let (k, f) = (self.content().unwrap().short_name()@, self.gpu().unwrap());
                &&& f.compressed <==> k[0] == 'b' && k[1] == 'c'
                &&& f.compressed ==> named_after(f, k[2])
                &&& f.compressed && k.len() == 4 ==> (k[3] == 's' <==> f.dxgi_name@[4] == 'S')
                &&& !f.compressed && k[0] == 'r' ==> plain_after(f, 'R')
                &&& !f.compressed && k[0] == 'b' ==> plain_after(f, 'B')
            }),
    {
        self.law_native_format_follows_the_named_format();
        reveal_strlit("bc1");
        reveal_strlit("bc2");
        reveal_strlit("bc3");
        reveal_strlit("bc4u");
        reveal_strlit("bc4s");
        reveal_strlit("bc5u");
        reveal_strlit("bc5s");
        reveal_strlit("bc7");
        reveal_strlit("rgba8");
        reveal_strlit("bgra8");
    }
}

impl<D: Payload> DdsBase<D> {
    /// The rows of blocks that a subresource decodes by are the rows of its plan:
    /// as many, of as many bytes, and of as many pixel rows.
    pub proof fn law_block_rows_are_plan_rows(&self, id: SubresourceId)
        requires
            self.native_plan(id) is Ok,
            self.content() is Ok,
        ensures
            ({
                let (k, p) = (self.content().unwrap(), self.native_plan(id).unwrap());
                &&& block_row_count(k, p.height as int) == p.rows_per_image
                &&& row_bytes(k, p.width as int) == p.bytes_per_row
                &&& rows_per_block(k) == p.format.block_height
                &&& self.rows_of(id) == Ok::<u32, Error>(p.rows_per_image)
                &&& slice_bytes(k, p.width as int, p.height as int) == p.bytes_per_row * p.rows_per_image
            }),
    {
        self.law_plan_units_are_payload_units();
        let (k, p) = (self.content().unwrap(), self.native_plan(id).unwrap());
        lemma_divided(self.header.width, id.mip);
        lemma_divided(self.header.height, id.mip);
        lemma_just_covers(p.width as int, p.format.block_width as int);
        lemma_just_covers(p.height as int, p.format.block_height as int);
        let (x, y, b) = (
            blocks_over(p.width as int, p.format.block_width as int),
            blocks_over(p.height as int, p.format.block_height as int),
            p.format.block_bytes as int,
        );
        assert(x * y * b == x * b * y) by (nonlinear_arith);
    }

    /// A subresource decodes exactly where its bytes are at least the rows of its
    /// plan; with fewer it is truncated.
    pub proof fn law_decode_needs_its_rows(&self, id: SubresourceId)
        requires
            self.native_plan(id) is Ok,
            ({
                let p = self.native_plan(id).unwrap();
                &&& p.bytes_per_row * p.rows_per_image * p.depth <= usize::MAX
                &&& p.width * p.height * p.depth * 4 <= usize::MAX
            }),
        ensures
            ({
                let p = self.native_plan(id).unwrap();
                let whole = p.data_len >= p.bytes_per_row * p.rows_per_image * p.depth;
                &&& self.content() is Ok && whole ==> self.rgba8_outcome(id) is Ok
                &&& self.content() is Ok && !whole ==> self.rgba8_outcome(id) == Err::<(), Error>(Error::TruncatedData)
                &&& self.hdr_content() is Ok && whole ==> self.f32_outcome(id) is Ok
                &&& self.hdr_content() is Ok && !whole ==> self.f32_outcome(id) == Err::<(), Error>(Error::TruncatedData)
            }),
    {
        self.law_plan_units_are_payload_units();
        self.law_subresources_are_disjoint(id, id);
        let p = self.native_plan(id).unwrap();
        let (w, h, d) = (p.width as int, p.height as int, p.depth as int);
        lemma_divided(self.header.width, id.mip);
        lemma_divided(self.header.height, id.mip);
        lemma_divided(self.full_depth(), id.mip);
        assert(w * h * 4 <= w * h * d * 4 && 0 < w * h) by (nonlinear_arith)
            requires
                w > 0,
                h > 0,
                d > 0,
        ;
        let n = p.bytes_per_row * p.rows_per_image;
        assert(n <= n * d && n * d == d * n) by (nonlinear_arith)
            requires
                n >= 0,
                d > 0,
        ;
        if self.content() is Ok {
            self.law_block_rows_are_plan_rows(id);
            if d == 1 {
                assert(n * d == n);
            }
        }
        if self.hdr_content() is Ok {
            lemma_just_covers(w, 4);
            lemma_just_covers(h, 4);
            let (x, y) = (blocks_over(w, 4), blocks_over(h, 4));
            assert(x * y * 16 == x * 16 * y) by (nonlinear_arith);
        }
    }

    /// Rows of blocks decode into the bytes of their own pixel rows: four for each
    /// texel of the level's width, the last rows of blocks cut off at its height.
    /// Rows that are not there are out of bounds, and a volume has none.
    pub proof fn law_block_rows_have_their_room(&self, id: SubresourceId, a: int, b: int, len: int)
        requires
            self.native_plan(id) is Ok,
            self.content() is Ok,
            0 <= a,
        ensures
            ({
                let p = self.native_plan(id).unwrap();
                let (w, h, bh) = (p.width as int, p.height as int, p.format.block_height as int);
                let last = if b * bh < h {
                    b * bh
                } else {
                    h
                };
                let got = self.rows_outcome(id, a, b, len);
                &&& p.depth != 1 ==> got == Err::<(), Error>(Error::UnsupportedFormat)
                &&& p.depth == 1 && (a > b || b > p.rows_per_image) ==> got == Err::<(), Error>(Error::OutOfBounds)
                &&& p.depth == 1 && a == b && b <= p.rows_per_image ==> got is Ok
                &&& p.depth == 1 && a < b && b <= p.rows_per_image && b * p.bytes_per_row <= p.data_len ==> (got is Ok <==> len
                    == w * (last - a * bh) * 4)
                &&& p.depth == 1 && a < b && b <= p.rows_per_image && b * p.bytes_per_row > p.data_len ==> got == Err::<
                    (),
                    Error,
                >(Error::TruncatedData)
            }),
    {
        self.law_block_rows_are_plan_rows(id);
        self.law_plan_units_are_payload_units();
        self.law_subresources_are_disjoint(id, id);
        let p = self.native_plan(id).unwrap();
        let (h, bh) = (p.height as int, p.format.block_height as int);
        lemma_divided(self.header.height, id.mip);
        lemma_just_covers(h, bh);
        if a < b && b <= p.rows_per_image {
            assert(a * bh < h) by (nonlinear_arith)
                requires
                    a <= p.rows_per_image - 1,
                    (p.rows_per_image - 1) * bh < h,
                    bh >= 1,
            ;
        }
    }
}

impl NewDxgiParams {
    /// A new container has the payload of its layers: the last level of its last
    /// layer or face ends where the payload does.
    pub proof fn law_new_container_is_full(self, d: Dds, id: SubresourceId)
        requires
            d.header == self.described().0,
            d.header10 == Some(self.described().1),
            self.payload_size() matches Some(n) && n <= u32::MAX && d.data@.len() == n,
            self.layers() > 0,
            self.is_cubemap ==> self.layers() as int % 6 == 0,
            id.mip + 1 == d.levels(),
            id.layer * d.subresource_faces() + id.face + 1 == self.layers(),
            id.face < d.subresource_faces(),
        ensures
            d.place(id) is Ok,
            d.place(id).unwrap().1 == d.data@.len(),
            d.header.width == self.width,
            d.header.height == self.height,
            d.names_dxgi(self.format),
    {
        let b = self.blank();
        assert(d.main_size() == b.main_size() && d.least_size() == b.least_size() && d.levels() == b.levels());
        d.lemma_main_is_nonnegative();
        let (main, least) = (d.main_size().unwrap(), d.least_size());
        let f = d.faces() as int;
        let p = d.chain_of(id);
        assert(p + 1 == self.layers());
        if self.is_cubemap {
            assert(f == 6);
            assert(id.layer < d.layers()) by (nonlinear_arith)
                requires
                    id.layer * f + id.face + 1 == self.layers(),
                    f == 6,
                    d.layers() == self.layers() / 6,
                    self.layers() as int % 6 == 0,
                    id.face >= 0,
            ;
        } else {
            assert(id.layer * 1 == id.layer);
        }
        let s = d.stride();
        lemma_chain(main, least, 0, d.levels() as nat);
        lemma_chain(main, least, id.mip as nat, d.levels() as nat);
        assert(chain_offset(main, least, d.levels() as nat) == chain_offset(main, least, id.mip as nat) + chain_size(
            main,
            least,
            id.mip as nat,
        ));
        assert((p + 1) * s == p * s + s && s <= (p + 1) * s) by (nonlinear_arith)
            requires
                p >= 0,
                s >= 0,
        ;
    }
}

impl<D: Payload> DdsBase<D> {
    /// What is in no handled format is refused, by decoders and plans alike.
    pub proof fn law_unhandled_formats_are_refused(&self, id: SubresourceId)
        ensures
            self.gpu() is Err ==> self.native_plan(id) == Err::<UploadPlan, Error>(Error::UnsupportedFormat) && self.rgba8_outcome(
                id,
            ) is Err && self.f32_outcome(id) == Err::<(), Error>(Error::UnsupportedFormat) && self.decoded_plan(id) == Err::<
                UploadPlan,
                Error,
            >(Error::UnsupportedFormat),
            self.gpu() is Err && self.place(id) is Err ==> self.place(id) == Err::<(int, int), Error>(Error::UnsupportedFormat)
                || self.place(id) == Err::<(int, int), Error>(Error::OutOfBounds),
            self.names_bc6h(true) || self.names_bc6h(false) ==> self.decoded_plan(id) == Err::<UploadPlan, Error>(
                Error::UnsupportedFormat,
            ) && self.rgba8_outcome(id) is Err,
            self.place(id) is Ok && (self.names_bc6h(true) || self.names_bc6h(false)) ==> self.rgba8_outcome(id) == Err::<
                (),
                Error,
            >(Error::UnsupportedFormat),
            self.content() is Ok ==> self.f32_outcome(id) == Err::<(), Error>(Error::UnsupportedFormat),
    {
    }

    /// A plan is there, at every level that the payload holds, for every handled
    /// format whose rows fit 32 bits.
    pub proof fn law_plans_are_there(&self, id: SubresourceId)
        requires
            self.place(id) is Ok,
            self.gpu() is Ok,
        ensures
            ({
                let s = self.sides(id.mip);
                &&& self.native_plan(id) is Ok <==> blocks_over(s.0 as int, self.gpu().unwrap().block_width as int)
                    * self.gpu().unwrap().block_bytes <= u32::MAX
                &&& self.native_plan(id) is Err ==> self.native_plan(id) == Err::<UploadPlan, Error>(Error::OutOfBounds)
                &&& self.content() is Ok && s.0 * 4 <= u32::MAX && s.0 * s.1 * s.2 * 4 <= usize::MAX ==> self.decoded_plan(
                    id,
                ) is Ok
            }),
    {
        lemma_divided(self.header.width, id.mip);
        lemma_divided(self.header.height, id.mip);
    }
}

} // verus!
