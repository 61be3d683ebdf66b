//! Whole containers from pixels.

use vstd::prelude::*;

use crate::content::{product3, slice_bytes, DecodeContent, HdrDecodeContent, ImageRgba8};
use crate::dds::{chain_offset, chain_size, lemma_chain, units_across, Dds, DdsBase, NewDxgiParams};
use crate::decode::bc6h::bc6h_pixels;
use crate::decode::bcn::{block_rgba, tiled};
use crate::decode::{decoded_pixels, hdr_stack, law_volume_is_its_slices, lemma_slice_bytes_positive, lemma_slice_pixels_len, slice_pixels, stacked_pixels};
use crate::encode::bc6h::{bc6h_payload, encode_slice_uf16};
use crate::encode::blocks::{block_count, EncodeQuality};
use crate::encode::mips::downsample_rgba8;
use crate::encode::slice::{encode_surface, lemma_slice_payload_len, slice_payload, stacked_payload};
use crate::encode::{holds_encoding, lemma_level_len, EncodeLayout, Rdo};
use crate::error::Error;
use crate::format::DxgiFormat;
use crate::model::splice;
use crate::surface::{lemma_mip_side_step, mip_side, SubresourceId};
use crate::swizzle::{law_swap_is_self_inverse, swapped};

verus! {

/// The first byte of level `m` of chain `p`.
pub open spec fn slot(main: int, least: int, levels: nat, p: int, m: int) -> int {
    p * chain_offset(main, least, levels) + chain_offset(main, least, m as nat)
}

pub proof fn lemma_slot(main: int, least: int, levels: nat, p: int, m: int, n: int)
    requires
        main >= 0,
        least >= 0,
        0 <= p < n,
        0 <= m < levels,
    ensures
        0 <= slot(main, least, levels, p, m),
        slot(main, least, levels, p, m) + chain_size(main, least, m as nat) == slot(main, least, levels, p, m + 1),
        slot(main, least, levels, p, m + 1) <= slot(main, least, levels, p, levels as int),
        slot(main, least, levels, p, levels as int) == slot(main, least, levels, p + 1, 0),
        slot(main, least, levels, p + 1, 0) <= n * chain_offset(main, least, levels),
        0 <= chain_size(main, least, m as nat),
{
    let s = chain_offset(main, least, levels);
    lemma_chain(main, least, m as nat, levels);
    lemma_chain(main, least, (m + 1) as nat, levels);
    assert(0 <= p * s && p * s + s == (p + 1) * s && (p + 1) * s <= n * s) by (nonlinear_arith)
        requires
            0 <= p,
            p + 1 <= n,
            0 <= s,
    ;
}

/// Slots that come earlier end before a later one begins.
proof fn lemma_slots_in_order(main: int, least: int, levels: nat, p: int, m: int, q: int, n: int)
    requires
        main >= 0,
        least >= 0,
        0 <= p,
        0 <= m < levels,
        0 <= n <= levels,
        p < q || (p == q && m < n),
    ensures
        slot(main, least, levels, p, m) + chain_size(main, least, m as nat) <= slot(main, least, levels, q, n),
{
    let s = chain_offset(main, least, levels);
    lemma_chain(main, least, (m + 1) as nat, levels);
    lemma_chain(main, least, n as nat, levels);
    if p < q {
        assert(p * s + s <= q * s) by (nonlinear_arith)
            requires
                p + 1 <= q,
                0 <= s,
        ;
    } else {
        lemma_chain(main, least, (m + 1) as nat, n as nat);
    }
}

/// The main surface has the bytes of its slices.
pub proof fn lemma_main_size(layout: EncodeLayout)
    requires
        layout.checked() is Ok,
        layout.params().blank().main_size() is Some,
    ensures
        layout.params().blank().main_size().unwrap() == layout.level_bytes(0),
        layout.params().blank().least_size() > 0,
        layout.level_bytes(0) <= u32::MAX,
        layout.params().blank().levels() == layout.mipmap_levels,
{
    let dds = layout.params().blank();
    let (w, h, d) = (layout.width as int, layout.height as int, layout.depth as int);
    assert(mip_side(layout.width, 0) == w && mip_side(layout.height, 0) == h && mip_side(layout.depth, 0) == d);
    let (side, b) = dds.unit().unwrap();
    let (x, y) = (units_across(w, side), units_across(h, side));
    assert(x * b * y * d == x * y * b * d) by (nonlinear_arith);
}

/// No mip level takes more bytes than the one before.
pub proof fn lemma_levels_shrink(layout: EncodeLayout, m: u32)
    requires
        layout.checked() is Ok,
    ensures
        0 <= layout.level_bytes(m) <= layout.level_bytes(0),
        0 < mip_side(layout.width, m) * mip_side(layout.height, m) * mip_side(layout.depth, m) * 4 <= layout.layer_len(),
        mip_side(layout.width, m) * mip_side(layout.height, m) * 4 <= layout.layer_len(),
        slice_bytes(layout.content, mip_side(layout.width, m) as int, mip_side(layout.height, m) as int) <= layout.level_bytes(
            m,
        ),
{
    lemma_mip_side_bounds(layout.width, m);
    lemma_mip_side_bounds(layout.height, m);
    lemma_mip_side_bounds(layout.depth, m);
    let (w, h, d) = (layout.width as int, layout.height as int, layout.depth as int);
    let (a, b, c) = (
        mip_side(layout.width, m) as int,
        mip_side(layout.height, m) as int,
        mip_side(layout.depth, m) as int,
    );
    assert(mip_side(layout.width, 0) == w && mip_side(layout.height, 0) == h && mip_side(layout.depth, 0) == d);
    lemma_products_grow(a, b, c, w, h, d, 4);
    match layout.content.block_size() {
        Some(n) => {
            lemma_products_grow(block_count(a), block_count(b), c, block_count(w), block_count(h), d, n);
        },
        None => {},
    }
}

proof fn lemma_products_grow(a: int, b: int, c: int, w: int, h: int, d: int, n: int)
    requires
        0 < a <= w,
        0 < b <= h,
        0 < c <= d,
        0 < n,
    ensures
        0 < a * b * n <= w * h * n,
        0 < a * b * n * c <= w * h * n * d,
        a * b * n <= a * b * n * c,
        a * b * n * c == a * b * c * n,
        w * h * n * d == w * h * d * n,
{
    assert(0 < a * b <= w * h) by (nonlinear_arith)
        requires
            0 < a <= w,
            0 < b <= h,
    ;
    let (x, y) = (a * b, w * h);
    assert(0 < x * n <= y * n) by (nonlinear_arith)
        requires
            0 < x <= y,
            0 < n,
    ;
    let (s, t) = (x * n, y * n);
    assert(0 < s * c <= t * d && s <= s * c) by (nonlinear_arith)
        requires
            0 < s <= t,
            0 < c <= d,
    ;
    assert(x * n * c == x * c * n && y * n * d == y * d * n) by (nonlinear_arith);
}

pub proof fn lemma_mip_side_bounds(n: u32, m: u32)
    requires
        n > 0,
    ensures
        1 <= mip_side(n, m) <= n,
    decreases m,
{
    if m > 0 {
        lemma_mip_side_step(n, (m - 1) as u32);
        lemma_mip_side_bounds(n, (m - 1) as u32);
    }
}

impl EncodeLayout {
    fn new_params(self) -> (p: NewDxgiParams)
        ensures
            p == self.params(),
    {
        NewDxgiParams {
            height: self.height,
            width: self.width,
            depth: if self.depth > 1 {
                Some(self.depth)
            } else {
                None
            },
            format: self.dxgi(),
            mipmap_levels: Some(self.mipmap_levels),
            array_layers: Some(self.array_layers),
            is_cubemap: self.is_cubemap,
        }
    }
}

/// Whether the slots before level `m` of chain `p` hold their levels.
spec fn filled(data: Seq<u8>, pixels: Seq<u8>, layout: EncodeLayout, p: int, m: int) -> bool {
    let b = layout.params().blank();
    let (main, least, levels) = (b.main_size().unwrap(), b.least_size(), b.levels() as nat);
    forall|i: int, j: u32|
        0 <= i && j < layout.mipmap_levels && (i < p || (i == p && j < m)) ==> ({
            let at = #[trigger] slot(main, least, levels, i, j as int);
            data.subrange(at, at + layout.room(j as nat)) == layout.stored(pixels, i, j)
        })
}

/// Whether the bytes from level `m` of chain `p` on are zero.
spec fn untouched(data: Seq<u8>, layout: EncodeLayout, p: int, m: int) -> bool {
    let b = layout.params().blank();
    let (main, least, levels) = (b.main_size().unwrap(), b.least_size(), b.levels() as nat);
    forall|k: int| slot(main, least, levels, p, m) <= k < data.len() ==> #[trigger] data[k] == 0
}

/// Writing the next slot fills it and leaves the others.
proof fn lemma_fill(
    before: Seq<u8>,
    after: Seq<u8>,
    pixels: Seq<u8>,
    layout: EncodeLayout,
    p: int,
    m: u32,
    n: int,
)
    requires
        layout.checked() is Ok,
        layout.params().blank().main_size() is Some,
        0 <= p < n,
        m < layout.mipmap_levels,
        filled(before, pixels, layout, p, m as int),
        untouched(before, layout, p, m as int),
        layout.stored(pixels, p, m).len() == layout.room(m as nat),
        ({
            let b = layout.params().blank();
            let (main, least, levels) = (b.main_size().unwrap(), b.least_size(), b.levels() as nat);
            let at = slot(main, least, levels, p, m as int);
            &&& before.len() == n * chain_offset(main, least, levels)
            &&& after == before.subrange(0, at) + layout.stored(pixels, p, m) + before.subrange(
                at + layout.room(m as nat),
                before.len() as int,
            )
        }),
    ensures
        after.len() == before.len(),
        filled(after, pixels, layout, p, m + 1),
        untouched(after, layout, p, m + 1),
{
    let b = layout.params().blank();
    lemma_main_size(layout);
    lemma_levels_shrink(layout, 0);
    let (main, least, levels) = (b.main_size().unwrap(), b.least_size(), b.levels() as nat);
    lemma_slot(main, least, levels, p, m as int, n);
    let at = slot(main, least, levels, p, m as int);
    let size = layout.room(m as nat);
    let piece = layout.stored(pixels, p, m);
    assert forall|i: int, j: u32| 0 <= i && j < layout.mipmap_levels && (i < p || (i == p && j < m + 1)) implies ({
        let t = #[trigger] slot(main, least, levels, i, j as int);
        after.subrange(t, t + layout.room(j as nat)) == layout.stored(pixels, i, j)
    }) by {
        let t = slot(main, least, levels, i, j as int);
        if i == p && j == m {
            assert(after.subrange(t, t + size) =~= piece);
        } else {
            lemma_slots_in_order(main, least, levels, i, j as int, p, m as int);
            lemma_slot(main, least, levels, i, j as int, n);
            assert(after.subrange(t, t + layout.room(j as nat)) =~= before.subrange(t, t + layout.room(j as nat)));
        }
    }
}

/// The next chain starts where the last level of this one ends.
proof fn lemma_next_chain(data: Seq<u8>, pixels: Seq<u8>, layout: EncodeLayout, p: int)
    requires
        layout.checked() is Ok,
        layout.params().blank().main_size() is Some,
        0 <= p,
        filled(data, pixels, layout, p, layout.mipmap_levels as int),
        untouched(data, layout, p, layout.mipmap_levels as int),
    ensures
        filled(data, pixels, layout, p + 1, 0),
        untouched(data, layout, p + 1, 0),
{
    let b = layout.params().blank();
    lemma_main_size(layout);
    lemma_levels_shrink(layout, 0);
    let (main, least, levels) = (b.main_size().unwrap(), b.least_size(), b.levels() as nat);
    lemma_slot(main, least, levels, p, levels - 1, p + 1);
}

/// Where a subresource of a container with the layout's headers lies.
pub proof fn lemma_place(dds: Dds, layout: EncodeLayout, id: SubresourceId)
    requires
        layout.checked() is Ok,
        dds.header == layout.params().described().0,
        dds.header10 == Some(layout.params().described().1),
        layout.params().payload_size() is Some,
        layout.params().payload_size().unwrap() <= u32::MAX,
        dds.data@.len() == layout.params().payload_size().unwrap(),
        dds.has(id),
    ensures
        ({
            let b = layout.params().blank();
            let (main, least, levels) = (b.main_size().unwrap(), b.least_size(), b.levels() as nat);
            let at = slot(main, least, levels, dds.chain_of(id), id.mip as int);
            &&& dds.place(id) == Ok::<(int, int), Error>((at, at + layout.room(id.mip as nat)))
            &&& dds.content() == Ok::<DecodeContent, Error>(layout.content)
            &&& dds.sides(id.mip) == (
                mip_side(layout.width, id.mip),
                mip_side(layout.height, id.mip),
                mip_side(layout.depth, id.mip),
            )
        }),
        0 <= dds.chain_of(id) < layout.array_layers,
        id.mip < layout.mipmap_levels,
{
    let b = layout.params().blank();
    lemma_main_size(layout);
    lemma_levels_shrink(layout, 0);
    let (main, least, levels) = (b.main_size().unwrap(), b.least_size(), b.levels() as nat);
    assert(dds.main_size() == b.main_size());
    assert(dds.least_size() == b.least_size());
    assert(dds.levels() == b.levels());
    assert(dds.full_depth() == layout.depth);
    let p = dds.chain_of(id);
    let n = layout.array_layers as int;
    if layout.is_cubemap {
        assert(dds.layers() == layout.array_layers / 6);
        assert(p < n);
    } else {
        assert(p == id.layer);
    }
    assert(0 <= p);
    lemma_slot(main, least, levels, p, id.mip as int, n);
    let s = chain_offset(main, least, levels);
    lemma_chain(main, least, 0, levels);
    assert(s <= n * s) by (nonlinear_arith)
        requires
            n >= 1,
            s >= 0,
    ;
    assert(dds.stride() == s);
    assert(dds.first_byte(id) == slot(main, least, levels, p, id.mip as int));
}

/// The number of layers, or faces, of a new container is that of its layout.
pub proof fn lemma_layers(dds: Dds, layout: EncodeLayout)
    requires
        layout.checked() is Ok,
        dds.header == layout.params().described().0,
        dds.header10 == Some(layout.params().described().1),
    ensures
        dds.layers() * dds.faces() == layout.array_layers,
        dds.cube() == layout.is_cubemap,
{
}

fn encode_levels(dds: &mut Dds, pixels: &[u8], layout: EncodeLayout, phys: u32) -> (r: Result<(), Error>)
    requires
        layout.checked() is Ok,
        layout.params().payload_size() is Some,
        layout.params().payload_size().unwrap() <= u32::MAX,
        old(dds).header == layout.params().described().0,
        old(dds).header10 == Some(layout.params().described().1),
        old(dds).data@.len() == layout.params().payload_size().unwrap(),
        phys < layout.array_layers,
        pixels@.len() >= layout.layer_len() * layout.array_layers,
        filled(old(dds).data@, pixels@, layout, phys as int, 0),
        untouched(old(dds).data@, layout, phys as int, 0),
    ensures
        final(dds).header == old(dds).header,
        final(dds).header10 == old(dds).header10,
        final(dds).data@.len() == old(dds).data@.len(),
        r is Ok ==> layout.fits() && filled(final(dds).data@, pixels@, layout, phys + 1, 0) && untouched(
            final(dds).data@,
            layout,
            phys + 1,
            0,
        ),
        r matches Err(e) ==> !layout.fits() && e == Error::TruncatedData,
{
    let len: usize = pixels.len();
    let ghost b = layout.params().blank();
    let ghost (main, least, levels) = (b.main_size().unwrap(), b.least_size(), b.levels() as nat);
    let ghost total = layout.layer_len();
    proof {
        lemma_main_size(layout);
        lemma_levels_shrink(layout, 0);
        let (p, n) = (phys as int, layout.array_layers as int);
        assert(0 <= p * total && p * total + total <= total * n && total <= total * n) by (nonlinear_arith)
            requires
                0 <= p,
                p + 1 <= n,
                total >= 0,
        ;
        let (w, h, d) = (layout.width as int, layout.height as int, layout.depth as int);
        assert(0 < w * h && 0 < w * h * d) by (nonlinear_arith)
            requires
                w > 0,
                h > 0,
                d > 0,
        ;
    }
    let texels: usize = (layout.width as usize) * (layout.height as usize);
    let layer: usize = texels * (layout.depth as usize) * 4;
    let from: usize = (phys as usize) * layer;
    let (index, face): (u32, u32) = if layout.is_cubemap {
        (phys / 6, phys % 6)
    } else {
        (phys, 0)
    };
    let mut level: Vec<u8> = vstd::slice::slice_to_vec(vstd::slice::slice_subrange(pixels, from, from + layer));
    proof {
        assert(level@ =~= layout.layer_pixels(pixels@, phys as int));
    }
    let mut mw: u32 = layout.width;
    let mut mh: u32 = layout.height;
    let mut md: u32 = layout.depth;
    let mut mip: u32 = 0;
    while mip < layout.mipmap_levels
        invariant
            mip <= layout.mipmap_levels,
            layout.checked() is Ok,
            layout.params().payload_size() is Some,
            layout.params().payload_size().unwrap() <= u32::MAX,
            dds.header == layout.params().described().0,
            dds.header10 == Some(layout.params().described().1),
            dds.data@.len() == layout.params().payload_size().unwrap(),
            dds.header == old(dds).header,
            dds.header10 == old(dds).header10,
            dds.data@.len() == old(dds).data@.len(),
            phys < layout.array_layers,
            layout.is_cubemap ==> index == phys / 6 && face == phys % 6,
            !layout.is_cubemap ==> index == phys && face == 0,
            layout.layer_len() <= usize::MAX,
            layout.layer_pixels(pixels@, phys as int).len() == layout.layer_len(),
            mip < layout.mipmap_levels ==> level@ == layout.mip_pixels(pixels@, phys as int, mip as nat) && mw == mip_side(
                layout.width,
                mip,
            ) && mh == mip_side(layout.height, mip) && md == mip_side(layout.depth, mip),
            forall|m: u32| m < mip ==> layout.room(m as nat) >= #[trigger] layout.level_bytes(m),
            filled(dds.data@, pixels@, layout, phys as int, mip as int),
            untouched(dds.data@, layout, phys as int, mip as int),
        decreases layout.mipmap_levels - mip,
    {
        let id: SubresourceId = SubresourceId::new(mip, index, face);
        let ghost before = *dds;
        let ghost at = slot(
            layout.params().blank().main_size().unwrap(),
            layout.params().blank().least_size(),
            layout.params().blank().levels() as nat,
            phys as int,
            mip as int,
        );
        let ghost room = layout.room(mip as nat);
        proof {
            lemma_layers(*dds, layout);
            assert(dds.has(id) && dds.chain_of(id) == phys);
            lemma_place(*dds, layout, id);
            lemma_main_size(layout);
            lemma_levels_shrink(layout, mip);
            lemma_level_len(layout.layer_pixels(pixels@, phys as int), layout.width, layout.height, layout.depth, mip);
            lemma_mip_side_bounds(layout.width, mip);
            lemma_mip_side_bounds(layout.height, mip);
            lemma_mip_side_bounds(layout.depth, mip);
            lemma_products_grow(mw as int, mh as int, md as int, mw as int, mh as int, md as int, 4);
            let bytes = dds.surface_bytes(id);
            lemma_slot(
                layout.params().blank().main_size().unwrap(),
                layout.params().blank().least_size(),
                layout.params().blank().levels() as nat,
                phys as int,
                mip as int,
                layout.array_layers as int,
            );
            assert(bytes.len() == room);
            assert forall|i: int| 0 <= i < room implies bytes[i] == 0 by {
                assert(bytes[i] == dds.data@[at + i]);
            }
            assert(bytes =~= Seq::new(room as nat, |i: int| 0u8));
        }
        let done: Result<(), Error> = match dds.surface_mut(id) {
            Err(e) => Err(e),
            Ok(v) => encode_surface(
                layout.content,
                layout.quality,
                layout.rdo.strength(),
                level.as_slice(),
                mw,
                mh,
                md,
                v.data,
            ),
        };
        match done {
            Ok(_) => {},
            Err(e) => {
                return Err(e);
            },
        }
        proof {
            lemma_fill(before.data@, dds.data@, pixels@, layout, phys as int, mip, layout.array_layers as int);
        }
        if mip + 1 < layout.mipmap_levels {
            level = match downsample_rgba8(level.as_slice(), mw, mh, md) {
                Ok(l) => l,
                Err(e) => {
                    return Err(e);
                },
            };
            proof {
                lemma_mip_side_step(layout.width, mip);
                lemma_mip_side_step(layout.height, mip);
                lemma_mip_side_step(layout.depth, mip);
            }
            mw = halve(mw);
            mh = halve(mh);
            md = halve(md);
        }
        mip = mip + 1;
    }
    proof {
        lemma_next_chain(dds.data@, pixels@, layout, phys as int);
    }
    Ok(())
}

fn halve(n: u32) -> (r: u32)
    ensures
        r == (if n / 2 == 0 {
            1
        } else {
            n / 2
        }),
{
    if n / 2 == 0 {
        1
    } else {
        n / 2
    }
}

impl DdsBase<Vec<u8>> {
    /// Encodes tightly packed RGBA8 pixels into a new container.
    ///
    /// The source holds the largest mip level alone: layers stacked, faces of a
    /// cube in DirectX order, slices of a volume stacked. The other levels are
    /// box-filtered.
    pub fn encode_from_rgba8(pixels: &[u8], layout: EncodeLayout) -> (r: Result<Dds, Error>)
        ensures
            r matches Ok(d) ==> layout.outcome(pixels@.len() as int) is Ok && holds_encoding(d, pixels@, layout),
            r matches Err(e) ==> layout.outcome(pixels@.len() as int) == Err::<(), Error>(e),
    {
        match layout.validate() {
            Ok(_) => {},
            Err(e) => {
                return Err(e);
            },
        }
        let need: usize = match layout.source_rgba8_len() {
            Ok(n) => n,
            Err(e) => {
                return Err(e);
            },
        };
        if pixels.len() < need {
            return Err(Error::TruncatedData);
        }
        let mut dds: Dds = match DdsBase::new_dxgi(layout.new_params()) {
            Ok(d) => d,
            Err(e) => {
                return Err(e);
            },
        };
        proof {
            lemma_layers(dds, layout);
            lemma_main_size(layout);
            let b = layout.params().blank();
            lemma_chain(b.main_size().unwrap(), b.least_size(), 0, b.levels() as nat);
            let s = chain_offset(b.main_size().unwrap(), b.least_size(), b.levels() as nat);
            assert(layout.array_layers * s >= 0) by (nonlinear_arith)
                requires
                    s >= 0,
            ;
        }
        let count: u32 = dds.physical_slice_count();
        let mut phys: u32 = 0;
        while phys < count
            invariant
                phys <= count,
                count == layout.array_layers,
                layout.checked() is Ok,
                layout.source_len() is Ok,
                layout.params().payload_size() is Some,
                layout.params().payload_size().unwrap() <= u32::MAX,
                dds.header == layout.params().described().0,
                dds.header10 == Some(layout.params().described().1),
                dds.data@.len() == layout.params().payload_size().unwrap(),
                pixels@.len() >= layout.layer_len() * layout.array_layers,
                phys > 0 ==> layout.fits(),
                filled(dds.data@, pixels@, layout, phys as int, 0),
                untouched(dds.data@, layout, phys as int, 0),
            decreases count - phys,
        {
            match encode_levels(&mut dds, pixels, layout, phys) {
                Ok(_) => {},
                Err(e) => {
                    return Err(e);
                },
            }
            phys = phys + 1;
        }
        proof {
            assert forall|id: SubresourceId| #[trigger] dds.has(id) implies dds.place(id) is Ok && dds.surface_bytes(id)
                == layout.stored(pixels@, dds.chain_of(id), id.mip) by {
                lemma_place(dds, layout, id);
            }
        }
        Ok(dds)
    }
}

/// Whether a BC6H encode of `len` numbers succeeds, and if not, why.
pub open spec fn float_outcome(len: int, w: int, h: int) -> Result<(), Error> {
    if w * h * 4 > usize::MAX {
        Err(Error::OutOfBounds)
    } else if w == 0 || h == 0 {
        Err(Error::InvalidField("zero image dimension"))
    } else if len < w * h * 4 {
        Err(Error::TruncatedData)
    } else if block_count(w) * block_count(h) * 16 > u32::MAX {
        Err(Error::UnsupportedFormat)
    } else {
        Ok(())
    }
}

/// The container of a BC6H image.
pub open spec fn float_params(width: u32, height: u32) -> NewDxgiParams {
    NewDxgiParams {
        height,
        width,
        depth: None,
        format: DxgiFormat::BC6H_UF16,
        mipmap_levels: None,
        array_layers: None,
        is_cubemap: false,
    }
}

/// The container holds the BC6H encoding of an image: its headers and its
/// payload.
pub open spec fn holds_floats(dds: Dds, pixels: Seq<u32>, width: u32, height: u32) -> bool {
    let (header, header10) = float_params(width, height).described();
    &&& dds.header == header
    &&& dds.header10 == Some(header10)
    &&& dds.data@ == bc6h_payload(pixels, width as int, height as int)
}

impl DdsBase<Vec<u8>> {
    /// Encodes tightly packed single-precision RGBA patterns as a 2D BC6H
    /// container of unsigned halves; alpha is left out. Negative numbers and
    /// NaN count as zero, numbers above the range as the largest half.
    pub fn encode_bc6h_uf16(pixels: &[u32], width: u32, height: u32) -> (r: Result<Dds, Error>)
        ensures
            r matches Ok(d) ==> float_outcome(pixels@.len() as int, width as int, height as int) is Ok && holds_floats(
                d,
                pixels@,
                width,
                height,
            ),
            r matches Err(e) ==> float_outcome(pixels@.len() as int, width as int, height as int) == Err::<(), Error>(e),
    {
        let need: usize = match product3(width as usize, height as usize, 4) {
            Ok(n) => n,
            Err(e) => {
                return Err(e);
            },
        };
        if width == 0 || height == 0 {
            return Err(Error::InvalidField("zero image dimension"));
        }
        if pixels.len() < need {
            return Err(Error::TruncatedData);
        }
        let params: NewDxgiParams = NewDxgiParams {
            height,
            width,
            depth: None,
            format: DxgiFormat::BC6H_UF16,
            mipmap_levels: None,
            array_layers: None,
            is_cubemap: false,
        };
        let ghost b = params.blank();
        let ghost (x, y) = (block_count(width as int), block_count(height as int));
        proof {
            assert(b.unit() == Some((4int, 16int)));
            assert(x * 16 * y * 1 == x * y * 16 && x * y >= 0) by (nonlinear_arith)
                requires
                    x >= 0,
                    y >= 0,
            ;
            if let Some(m) = b.main_size() {
                assert(m == x * y * 16);
                reveal_with_fuel(chain_offset, 2);
                assert(chain_offset(m, b.least_size(), 1) == m);
                assert(params.payload_size() == Some(1 * m));
            }
        }
        let mut dds: Dds = match DdsBase::new_dxgi(params) {
            Ok(d) => d,
            Err(e) => {
                return Err(e);
            },
        };
        let done: Result<(), Error> = encode_slice_uf16(pixels, width, height, dds.data.as_mut_slice());
        match done {
            Ok(_) => {},
            Err(e) => {
                return Err(e);
            },
        }
        proof {
            assert(dds.data@ =~= bc6h_payload(pixels@, width as int, height as int));
        }
        Ok(dds)
    }
}

impl ImageRgba8 {
    /// The layout of this image as a single 2D texture, or a volume where its
    /// depth is above one.
    pub open spec fn layout(&self, content: DecodeContent) -> EncodeLayout {
        EncodeLayout {
            content,
            width: self.width,
            height: self.height,
            depth: self.depth,
            mipmap_levels: 1,
            array_layers: 1,
            is_cubemap: false,
            quality: EncodeQuality::Quality,
            rdo: Rdo::Off,
        }
    }

    /// Encodes this image.
    pub fn encode_dds(&self, content: DecodeContent) -> (r: Result<Dds, Error>)
        ensures
            r matches Ok(d) ==> self.layout(content).outcome(self.pixels@.len() as int) is Ok && holds_encoding(
                d,
                self.pixels@,
                self.layout(content),
            ),
            r matches Err(e) ==> self.layout(content).outcome(self.pixels@.len() as int) == Err::<(), Error>(e),
    {
        let layout: EncodeLayout = EncodeLayout {
            content,
            width: self.width,
            height: self.height,
            depth: self.depth,
            mipmap_levels: 1,
            array_layers: 1,
            is_cubemap: false,
            quality: EncodeQuality::Quality,
            rdo: Rdo::Off,
        };
        DdsBase::encode_from_rgba8(self.pixels.as_slice(), layout)
    }
}

/// A container always has room for the largest mip level: without further
/// levels no encode fails for want of room.
pub proof fn law_one_level_always_fits(layout: EncodeLayout)
    requires
        layout.checked() is Ok,
        layout.params().payload_size() is Some,
        layout.mipmap_levels == 1,
    ensures
        layout.fits(),
{
    lemma_main_size(layout);
    assert forall|m: u32| m < layout.mipmap_levels implies layout.room(m as nat) >= #[trigger] layout.level_bytes(m) by {
        assert(m == 0);
    }
}

/// A price of zero is no rate-distortion pass: the same bytes.
pub proof fn law_zero_lambda_is_off(layout: EncodeLayout, pixels: Seq<u8>, layer: int, m: u32)
    requires
        layout.rdo == Rdo::Off,
    ensures
        (EncodeLayout { rdo: Rdo::Lambda(0), ..layout }).stored(pixels, layer, m) == layout.stored(pixels, layer, m),
        (EncodeLayout { rdo: Rdo::Lambda(0), ..layout }).outcome(pixels.len() as int) == layout.outcome(
            pixels.len() as int,
        ),
{
    let zero = EncodeLayout { rdo: Rdo::Lambda(0), ..layout };
    assert(zero.params() == layout.params());
    assert(zero.fits() == layout.fits()) by {
        assert forall|m: u32| zero.level_bytes(m) == #[trigger] layout.level_bytes(m) by {}
        assert forall|m: u32| layout.level_bytes(m) == #[trigger] zero.level_bytes(m) by {}
    }
}

/// Everything that was encoded can be decoded: every subresource of an encoded
/// container decodes to RGBA8.
pub proof fn law_encoded_decodes(dds: Dds, pixels: Seq<u8>, layout: EncodeLayout, id: SubresourceId)
    requires
        layout.outcome(pixels.len() as int) is Ok,
        holds_encoding(dds, pixels, layout),
        dds.has(id),
    ensures
        dds.rgba8_outcome(id) is Ok,
        dds.rgba8_into_outcome(id) is Ok,
{
    lemma_place(dds, layout, id);
    lemma_main_size(layout);
    lemma_levels_shrink(layout, id.mip);
    lemma_mip_side_bounds(layout.width, id.mip);
    lemma_mip_side_bounds(layout.height, id.mip);
    lemma_mip_side_bounds(layout.depth, id.mip);
    let total = layout.layer_len();
    let n = layout.array_layers as int;
    lemma_levels_shrink(layout, 0);
    assert(total <= total * n) by (nonlinear_arith)
        requires
            n >= 1,
            total >= 0,
    ;
    let (w, h, d) = (dds.sides(id.mip).0 as int, dds.sides(id.mip).1 as int, dds.sides(id.mip).2 as int);
    assert(layout.room(id.mip as nat) >= layout.level_bytes(id.mip));
    let s = slice_bytes(layout.content, w, h);
    assert(s <= s * d);
    lemma_products_grow(w, h, d, w, h, d, 4);
}

proof fn lemma_plain_stack(kind: DecodeContent, q: EncodeQuality, lambda: u32, rgba: Seq<u8>, w: int, h: int, n: nat)
    requires
        kind.block_size() is None,
        w > 0,
        h > 0,
        rgba.len() >= w * h * 4 * n,
    ensures
        stacked_payload(kind, q, lambda, rgba, w, h, n) == (if kind == DecodeContent::Bgra8 {
            swapped(rgba.take(w * h * 4 * n))
        } else {
            rgba.take(w * h * 4 * n)
        }),
        stacked_pixels(kind, rgba, w, h, n) == (if kind == DecodeContent::Bgra8 {
            swapped(rgba.take(w * h * 4 * n))
        } else {
            rgba.take(w * h * 4 * n)
        }),
    decreases n,
{
    let s = w * h * 4;
    assert(0 < w * h) by (nonlinear_arith)
        requires
            w > 0,
            h > 0,
    ;
    if n == 0 {
        assert(s * 0 == 0);
        assert(rgba.take(0) =~= Seq::<u8>::empty());
        assert(swapped(rgba.take(0)) =~= Seq::<u8>::empty());
    } else {
        let k = (n - 1) as nat;
        assert(s * n == s * k + s && s * k == (n - 1) * s && 0 <= s * k) by (nonlinear_arith)
            requires
                k == n - 1,
                s > 0,
                n >= 1,
        ;
        assert(s * k == 4 * (w * h * k)) by (nonlinear_arith)
            requires
                s == w * h * 4,
        ;
        lemma_plain_stack(kind, q, lambda, rgba, w, h, k);
        let part = rgba.subrange(s * k, s * k + s);
        assert(part.take(s) =~= part);
        assert(rgba.take(s * k) + part =~= rgba.take(s * n));
        assert(swapped(rgba.take(s * k)) + swapped(part) =~= swapped(rgba.take(s * n)));
    }
}

proof fn lemma_plain_round_trip(kind: DecodeContent, q: EncodeQuality, lambda: u32, rgba: Seq<u8>, w: int, h: int, d: nat, room: nat)
    requires
        kind.block_size() is None,
        w > 0,
        h > 0,
        d > 0,
        rgba.len() == w * h * 4 * d,
        room >= rgba.len(),
    ensures
        decoded_pixels(
            kind,
            splice(Seq::new(room, |i: int| 0u8), 0, stacked_payload(kind, q, lambda, rgba, w, h, d)),
            w,
            h,
            d as int,
        ) == rgba,
{
    let n = w * h * 4 * d;
    let payload = stacked_payload(kind, q, lambda, rgba, w, h, d);
    let data = splice(Seq::new(room, |i: int| 0u8), 0, payload);
    lemma_plain_stack(kind, q, lambda, rgba, w, h, d);
    assert(rgba.take(n) =~= rgba);
    assert(data.take(n) =~= payload);
    assert(n == 4 * (w * h * d)) by (nonlinear_arith)
        requires
            n == w * h * 4 * d,
    ;
    lemma_plain_stack(kind, q, lambda, data, w, h, d);
    law_swap_is_self_inverse(rgba);
    if d == 1 {
        assert(w * h * 4 * 1 == w * h * 4);
    }
}

/// Uncompressed content comes back bit for bit: decoding a subresource of an
/// encoded RGBA8 or BGRA8 container gives the pixels of its mip level.
pub proof fn law_plain_content_round_trips(dds: Dds, pixels: Seq<u8>, layout: EncodeLayout, id: SubresourceId)
    requires
        layout.content == DecodeContent::Rgba8 || layout.content == DecodeContent::Bgra8,
        layout.outcome(pixels.len() as int) is Ok,
        holds_encoding(dds, pixels, layout),
        dds.has(id),
    ensures
        dds.rgba8_outcome(id) is Ok,
        dds.rgba8_pixels(id) == layout.mip_pixels(pixels, dds.chain_of(id), id.mip as nat),
        id.mip == 0 ==> dds.rgba8_pixels(id) == layout.layer_pixels(pixels, dds.chain_of(id)),
{
    law_encoded_decodes(dds, pixels, layout, id);
    lemma_place(dds, layout, id);
    lemma_main_size(layout);
    lemma_levels_shrink(layout, 0);
    lemma_mip_side_bounds(layout.width, id.mip);
    lemma_mip_side_bounds(layout.height, id.mip);
    lemma_mip_side_bounds(layout.depth, id.mip);
    let p = dds.chain_of(id);
    let total = layout.layer_len();
    let n = layout.array_layers as int;
    assert(0 <= p * total && p * total + total <= total * n) by (nonlinear_arith)
        requires
            0 <= p,
            p + 1 <= n,
            total >= 0,
    ;
    let src = layout.layer_pixels(pixels, p);
    lemma_level_len(src, layout.width, layout.height, layout.depth, id.mip);
    let (w, h, d) = (dds.sides(id.mip).0 as int, dds.sides(id.mip).1 as int, dds.sides(id.mip).2 as int);
    lemma_products_grow(w, h, d, w, h, d, 4);
    assert(layout.room(id.mip as nat) >= layout.level_bytes(id.mip));
    lemma_plain_round_trip(
        layout.content,
        layout.quality,
        layout.rdo.price(),
        layout.mip_pixels(pixels, p, id.mip as nat),
        w,
        h,
        d as nat,
        layout.room(id.mip as nat) as nat,
    );
}

/// The slices of a stacked payload lie one after another.
pub proof fn lemma_stacked_slice(
    kind: DecodeContent,
    q: EncodeQuality,
    lambda: u32,
    rgba: Seq<u8>,
    w: int,
    h: int,
    n: nat,
    z: int,
)
    requires
        w > 0,
        h > 0,
        0 <= z < n,
        rgba.len() >= w * h * 4 * n,
    ensures
        ({
            let (s, o) = (slice_bytes(kind, w, h), w * h * 4);
            let all = stacked_payload(kind, q, lambda, rgba, w, h, n);
            &&& all.len() == n * s
            &&& all.subrange(z * s, z * s + s) == slice_payload(kind, q, lambda, rgba.subrange(z * o, z * o + o), w, h)
        }),
    decreases n,
{
    let (s, o) = (slice_bytes(kind, w, h), w * h * 4);
    let k = (n - 1) as nat;
    lemma_slice_bytes_positive(kind, w, h);
    assert(o > 0 && 0 <= k * o && k * o + o <= o * n && o * k <= o * n && n * s == k * s + s && 0 <= k * s) by (nonlinear_arith)
        requires
            o == w * h * 4,
            w > 0,
            h > 0,
            s >= 0,
            k == n - 1,
            n >= 1,
    ;
    let last = rgba.subrange(k * o, k * o + o);
    lemma_slice_payload_len(kind, q, lambda, last, w, h);
    let all = stacked_payload(kind, q, lambda, rgba, w, h, n);
    let head = stacked_payload(kind, q, lambda, rgba, w, h, k);
    if k > 0 {
        lemma_stacked_slice(kind, q, lambda, rgba, w, h, k, if z < k {
            z
        } else {
            0
        });
    }
    assert(head.len() == k * s);
    if z < k {
        assert(0 <= z * s && z * s + s <= k * s) by (nonlinear_arith)
            requires
                0 <= z,
                z + 1 <= k,
                s >= 0,
        ;
        assert(all.subrange(z * s, z * s + s) =~= head.subrange(z * s, z * s + s));
    } else {
        assert(all.subrange(z * s, z * s + s) =~= slice_payload(kind, q, lambda, last, w, h));
    }
}

/// What follows the payload of a slice has no part in what the slice decodes to.
proof fn lemma_slice_prefix(kind: DecodeContent, data: Seq<u8>, w: int, h: int)
    requires
        w > 0,
        h > 0,
        data.len() >= slice_bytes(kind, w, h),
    ensures
        slice_pixels(kind, data, w, h) == slice_pixels(kind, data.subrange(0, slice_bytes(kind, w, h)), w, h),
{
    let s = slice_bytes(kind, w, h);
    let part = data.subrange(0, s);
    match kind.block_size() {
        None => {
            assert(part.take(s) =~= data.take(s));
        },
        Some(b) => {
            let texels = |block: Seq<u8>| block_rgba(kind, block);
            assert forall|k: int| 0 <= k < w * h * 4 implies #[trigger] tiled(texels, b, data, w, h)[k] == tiled(
                texels,
                b,
                part,
                w,
                h,
            )[k] by {
                let t = k / 4;
                let (x, y) = (t % w, t / w);
                assert(0 <= x < w && 0 <= y < h) by (nonlinear_arith)
                    requires
                        0 <= t < w * h,
                        w > 0,
                        x == t % w,
                        y == t / w,
                ;
                let (bw, bh) = (block_count(w), block_count(h));
                let i = (y / 4) * bw + x / 4;
                assert(0 <= i * b && i * b + b <= bw * bh * b) by (nonlinear_arith)
                    requires
                        i == (y / 4) * bw + x / 4,
                        0 <= x / 4 < bw,
                        0 <= y / 4 < bh,
                        b > 0,
                ;
                assert(data.subrange(i * b, i * b + b) =~= part.subrange(i * b, i * b + b));
            }
            assert(slice_pixels(kind, data, w, h) =~= slice_pixels(kind, part, w, h));
        },
    }
}

/// Decoding a subresource of an encoded container gives, slice by slice, what
/// the encoding of that slice of its mip level decodes to.
pub proof fn law_encoded_slices_decode(dds: Dds, pixels: Seq<u8>, layout: EncodeLayout, id: SubresourceId, z: int)
    requires
        layout.outcome(pixels.len() as int) is Ok,
        holds_encoding(dds, pixels, layout),
        dds.has(id),
        0 <= z < dds.sides(id.mip).2,
    ensures
        ({
            let (w, h) = (dds.sides(id.mip).0 as int, dds.sides(id.mip).1 as int);
            let o = w * h * 4;
            let level = layout.mip_pixels(pixels, dds.chain_of(id), id.mip as nat);
            dds.rgba8_pixels(id).subrange(z * o, (z + 1) * o) == slice_pixels(
                layout.content,
                slice_payload(
                    layout.content,
                    layout.quality,
                    layout.rdo.price(),
                    level.subrange(z * o, z * o + o),
                    w,
                    h,
                ),
                w,
                h,
            )
        }),
{
    lemma_place(dds, layout, id);
    lemma_main_size(layout);
    lemma_levels_shrink(layout, 0);
    lemma_mip_side_bounds(layout.width, id.mip);
    lemma_mip_side_bounds(layout.height, id.mip);
    lemma_mip_side_bounds(layout.depth, id.mip);
    let kind = layout.content;
    let p = dds.chain_of(id);
    let total = layout.layer_len();
    let n = layout.array_layers as int;
    assert(0 <= p * total && p * total + total <= total * n) by (nonlinear_arith)
        requires
            0 <= p,
            p + 1 <= n,
            total >= 0,
    ;
    let src = layout.layer_pixels(pixels, p);
    lemma_level_len(src, layout.width, layout.height, layout.depth, id.mip);
    let level = layout.mip_pixels(pixels, p, id.mip as nat);
    let (w, h, d) = (dds.sides(id.mip).0 as int, dds.sides(id.mip).1 as int, dds.sides(id.mip).2 as int);
    lemma_products_grow(w, h, d, w, h, d, 4);
    assert(layout.room(id.mip as nat) >= layout.level_bytes(id.mip));
    let (s, o) = (slice_bytes(kind, w, h), w * h * 4);
    let data = dds.surface_bytes(id);
    let payload = stacked_payload(kind, layout.quality, layout.rdo.price(), level, w, h, d as nat);
    lemma_stacked_slice(kind, layout.quality, layout.rdo.price(), level, w, h, d as nat, z);
    lemma_slice_bytes_positive(kind, w, h);
    assert(s * d == d * s && 0 <= z * s && z * s + s <= s * d && (z + 1) * s == z * s + s) by (nonlinear_arith)
        requires
            0 <= z,
            z + 1 <= d,
            s >= 0,
    ;
    assert(data.len() >= s * d);
    assert(data.subrange(z * s, z * s + s) =~= payload.subrange(z * s, z * s + s));
    if d == 1 {
        assert(z == 0);
        lemma_slice_prefix(kind, data, w, h);
        lemma_slice_pixels_len(kind, data, w, h);
        assert(0 * s == 0 && 0 * o == 0 && (0 + 1) * o == o);
        let all = slice_pixels(kind, data, w, h);
        assert(all.subrange(0, o) =~= all);
    } else {
        law_volume_is_its_slices(kind, data, w, h, d as nat, z);
    }
}

/// An encoded BC6H container decodes in single precision: its one subresource
/// comes back as what the payload of its pixels decodes to.
pub proof fn law_bc6h_container_decodes(dds: Dds, pixels: Seq<u32>, width: u32, height: u32, id: SubresourceId)
    requires
        float_outcome(pixels.len() as int, width as int, height as int) is Ok,
        holds_floats(dds, pixels, width, height),
        dds.has(id),
    ensures
        dds.hdr_content() == Ok::<HdrDecodeContent, Error>(HdrDecodeContent::Bc6hUf16),
        dds.f32_outcome(id) is Ok,
        dds.sides(id.mip) == (width, height, 1u32),
        hdr_stack(dds.surface_bytes(id), width as int, height as int, false, 1) == bc6h_pixels(
            bc6h_payload(pixels, width as int, height as int),
            width as int,
            height as int,
            false,
        ),
{
    let (w, h) = (width as int, height as int);
    let (x, y) = (block_count(w), block_count(h));
    let s = x * y * 16;
    let data = bc6h_payload(pixels, w, h);
    assert(dds.unit() == Some((4int, 16int)));
    assert(x * 16 * y * 1 == s && s >= 0) by (nonlinear_arith)
        requires
            x >= 0,
            y >= 0,
            s == x * y * 16,
    ;
    assert(data.len() == s);
    assert(dds.main_size() == Some(s));
    reveal_with_fuel(chain_offset, 2);
    reveal_with_fuel(chain_size, 2);
    assert(id.mip == 0 && dds.chain_of(id) == 0);
    lemma_mip_side_bounds(width, id.mip);
    lemma_mip_side_bounds(height, id.mip);
    assert(dds.place(id) == Ok::<(int, int), Error>((0int, s)));
    assert(dds.surface_bytes(id) =~= data);
    reveal_with_fuel(hdr_stack, 2);
    assert(data.subrange(0, s) =~= data);
    assert(hdr_stack(data, w, h, false, 1) =~= bc6h_pixels(data, w, h, false));
}

} // verus!
