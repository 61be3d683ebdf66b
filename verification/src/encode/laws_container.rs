//! What an encoded container says of its source, and gives back of it.

use vstd::prelude::*;

use crate::content::{slice_bytes, DecodeContent, ImageRgba8};
use crate::dds::{chain_offset, Dds};
use crate::decode::laws::packed_at;
use crate::encode::blocks::EncodeQuality;
use crate::encode::container::{law_encoded_decodes, law_encoded_slices_decode, law_plain_content_round_trips, lemma_layers, lemma_levels_shrink, lemma_main_size, lemma_mip_side_bounds, lemma_place, lemma_slot, lemma_stacked_slice, slot};
use crate::encode::laws_bounds::{law_encoded_pixels_come_back, owed, tile_between};
use crate::encode::laws_mips::{sum_under, texels_along};
use crate::encode::{holds_encoding, EncodeLayout, Rdo};
use crate::error::Error;
use crate::format::DxgiFormat;
use crate::laws::divided;
use crate::surface::SubresourceId;

verus! {

/// The number of a subresource's layer in the source: faces follow one another,
/// cube by cube.
pub open spec fn source_layer(layout: EncodeLayout, id: SubresourceId) -> int {
    if layout.is_cubemap {
        6 * id.layer + id.face
    } else {
        id.layer as int
    }
}

/// A layout makes sense exactly where its sides and counts are not zero, its price
/// is finite and not negative, a cubemap has whole cubes and no depth, and a volume
/// is not an array.
pub proof fn law_sensible_layouts(layout: EncodeLayout)
    ensures
        layout.checked() is Ok <==> {
            &&& layout.width > 0 && layout.height > 0 && layout.depth > 0
            &&& layout.mipmap_levels > 0 && layout.array_layers > 0
            &&& layout.is_cubemap ==> layout.depth == 1 && layout.array_layers as int % 6 == 0
            &&& layout.depth == 1 || layout.array_layers == 1
            &&& match layout.rdo {
                Rdo::Off => true,
                Rdo::Lambda(l) => l < 0x7F80_0000 || l == 0x8000_0000,
            }
        },
{
}

/// A source that is a byte short is refused as truncated; a longer one is as good
/// as one of four bytes for each texel of each layer.
pub proof fn law_source_must_be_whole(layout: EncodeLayout, len: int)
    requires
        layout.checked() is Ok,
        layout.width * layout.height * layout.depth * 4 * layout.array_layers <= usize::MAX,
    ensures
        ({
            let need = layout.width * layout.height * layout.depth * 4 * layout.array_layers;
            &&& layout.source_len() == Ok::<usize, Error>(need as usize)
            &&& len < need ==> layout.outcome(len) == Err::<(), Error>(Error::TruncatedData)
            &&& len >= need ==> layout.outcome(len) == layout.outcome(need)
        }),
{
}

proof fn lemma_chain_number(dds: Dds, layout: EncodeLayout, id: SubresourceId)
    requires
        dds.cube() == layout.is_cubemap,
        dds.has(id),
    ensures
        dds.chain_of(id) == source_layer(layout, id),
{
    let f = dds.faces() as int;
    if layout.is_cubemap {
        assert(id.layer * f == 6 * id.layer) by (nonlinear_arith)
            requires
                f == 6,
        ;
    } else {
        assert(id.layer * f == id.layer) by (nonlinear_arith)
            requires
                f == 1,
        ;
    }
}

/// An encoded container has the layout's levels, layers and faces, and no others;
/// each level's sides are the layout's, divided; the format is that of the content.
pub proof fn law_container_has_the_layout(dds: Dds, pixels: Seq<u8>, layout: EncodeLayout, id: SubresourceId)
    requires
        layout.outcome(pixels.len() as int) is Ok,
        holds_encoding(dds, pixels, layout),
    ensures
        dds.has(id) <==> id.mip < layout.mipmap_levels && source_layer(layout, id) < layout.array_layers && id.face < (
        if layout.is_cubemap {
            6int
        } else {
            1
        }),
        dds.place(id) is Ok <==> dds.has(id),
        dds.header.width == layout.width && dds.header.height == layout.height,
        dds.sides(id.mip).0 == divided(layout.width, id.mip),
        dds.sides(id.mip).1 == divided(layout.height, id.mip),
        dds.sides(id.mip).2 == divided(layout.depth, id.mip),
        dds.cube() == layout.is_cubemap,
        dds.header.cubemap == layout.is_cubemap,
        dds.header.mip_map_count == Some(layout.mipmap_levels),
        dds.header.depth == (if layout.depth > 1 {
            Some(layout.depth)
        } else {
            None
        }),
        dds.header.d3d_format is None,
        dds.header10 is Some,
        dds.has(id) && id.mip + 1 == layout.mipmap_levels && source_layer(layout, id) + 1 == layout.array_layers
            ==> dds.place(id).unwrap().1 == dds.data@.len(),
        match layout.content {
            DecodeContent::Bc1 => dds.names_dxgi(DxgiFormat::BC1_UNorm),
            DecodeContent::Bc2 => dds.names_dxgi(DxgiFormat::BC2_UNorm),
            DecodeContent::Bc3 => dds.names_dxgi(DxgiFormat::BC3_UNorm),
            DecodeContent::Bc4UNorm => dds.names_dxgi(DxgiFormat::BC4_UNorm),
            DecodeContent::Bc4SNorm => dds.names_dxgi(DxgiFormat::BC4_SNorm),
            DecodeContent::Bc5UNorm => dds.names_dxgi(DxgiFormat::BC5_UNorm),
            DecodeContent::Bc5SNorm => dds.names_dxgi(DxgiFormat::BC5_SNorm),
            DecodeContent::Bc7 => dds.names_dxgi(DxgiFormat::BC7_UNorm),
            DecodeContent::Rgba8 => dds.names_dxgi(DxgiFormat::R8G8B8A8_UNorm),
            DecodeContent::Bgra8 => dds.names_dxgi(DxgiFormat::B8G8R8A8_UNorm),
        },
{
    lemma_layers(dds, layout);
    dds.law_sides_are_divided(id.mip);
    if layout.depth == 1 {
        vstd::arithmetic::power2::lemma_pow2_pos(id.mip as nat);
        assert(1int / 1 == 1);
    }
    if layout.is_cubemap {
        assert(dds.layers() == layout.array_layers / 6);
        assert(6 * (layout.array_layers as int / 6) == layout.array_layers);
        assert(id.face < 6 ==> (6 * id.layer + id.face < layout.array_layers <==> id.layer < layout.array_layers as int / 6));
    } else {
        assert(dds.layers() == layout.array_layers);
    }
    if dds.has(id) {
        lemma_place(dds, layout, id);
        lemma_main_size(layout);
        lemma_levels_shrink(layout, 0);
        let b = layout.params().blank();
        let (main, least, levels) = (b.main_size().unwrap(), b.least_size(), b.levels() as nat);
        lemma_chain_number(dds, layout, id);
        if id.mip + 1 == layout.mipmap_levels && source_layer(layout, id) + 1 == layout.array_layers {
            let p = dds.chain_of(id);
            lemma_slot(main, least, levels, p, id.mip as int, p + 1);
            assert(slot(main, least, levels, p + 1, 0) == (p + 1) * chain_offset(main, least, levels) + 0);
        }
    }
}

/// Of plain content every texel of the source comes back at its place: channel `c`
/// of texel `(x, y, z)` of a subresource's first level is that byte of its layer in
/// the source.
pub proof fn law_plain_texels_come_back(dds: Dds, pixels: Seq<u8>, layout: EncodeLayout, id: SubresourceId, x: int, y: int, z: int, c: int)
    requires
        layout.content == DecodeContent::Rgba8 || layout.content == DecodeContent::Bgra8,
        layout.outcome(pixels.len() as int) is Ok,
        holds_encoding(dds, pixels, layout),
        dds.has(id),
        id.mip == 0,
        0 <= x < layout.width,
        0 <= y < layout.height,
        0 <= z < layout.depth,
        0 <= c < 4,
    ensures
        dds.rgba8_pixels(id)[packed_at(layout.width as int, layout.height as int, x, y, z) + c] == pixels[(((source_layer(
            layout,
            id,
        ) * layout.depth + z) * layout.height + y) * layout.width + x) * 4 + c],
{
    law_plain_content_round_trips(dds, pixels, layout, id);
    law_container_has_the_layout(dds, pixels, layout, id);
    lemma_layers(dds, layout);
    let p = dds.chain_of(id);
    lemma_chain_number(dds, layout, id);
    let (w, h, d) = (layout.width as int, layout.height as int, layout.depth as int);
    let k = packed_at(w, h, x, y, z) + c;
    let n = layout.layer_len();
    lemma_layer_place(w, h, d, x, y, z, c, p);
    assert(p * n >= 0 && p * n + n <= n * layout.array_layers) by (nonlinear_arith)
        requires
            0 <= p,
            p + 1 <= layout.array_layers,
            n >= 0,
    ;
}

proof fn lemma_layer_place(w: int, h: int, d: int, x: int, y: int, z: int, c: int, p: int)
    requires
        0 <= x < w,
        0 <= y < h,
        0 <= z < d,
        0 <= c < 4,
        0 <= p,
    ensures
        (((p * d + z) * h + y) * w + x) * 4 + c == p * (w * h * d * 4) + packed_at(w, h, x, y, z) + c,
        0 <= packed_at(w, h, x, y, z) + c < w * h * d * 4,
        0 <= w * h * d * 4,
{
    assert((p * d + z) * h == p * (d * h) + z * h) by (nonlinear_arith);
    let r = z * h + y;
    assert((p * (d * h) + r) * w == p * (w * h * d) + r * w) by (nonlinear_arith);
    assert(p * (w * h * d) * 4 == p * (w * h * d * 4)) by (nonlinear_arith);
    assert(0 <= r < h * d) by (nonlinear_arith)
        requires
            r == z * h + y,
            0 <= y < h,
            0 <= z < d,
    ;
    assert(0 <= r * w + x < w * h * d) by (nonlinear_arith)
        requires
            0 <= r < h * d,
            0 <= x < w,
    ;
}

/// Of plain content every texel of a further level, as it decodes, is the mean of
/// the texels under it of the level before, as they decode.
pub proof fn law_decoded_levels_are_halved(
    dds: Dds,
    pixels: Seq<u8>,
    layout: EncodeLayout,
    id: SubresourceId,
    above: SubresourceId,
    x: int,
    y: int,
    z: int,
    c: int,
)
    requires
        layout.content == DecodeContent::Rgba8 || layout.content == DecodeContent::Bgra8,
        layout.outcome(pixels.len() as int) is Ok,
        holds_encoding(dds, pixels, layout),
        dds.has(id),
        id.mip == above.mip + 1,
        id.layer == above.layer,
        id.face == above.face,
        0 <= x < dds.sides(id.mip).0,
        0 <= y < dds.sides(id.mip).1,
        0 <= z < dds.sides(id.mip).2,
        0 <= c < 4,
    ensures
        ({
            let (w, h) = (dds.sides(id.mip).0 as int, dds.sides(id.mip).1 as int);
            let s = (
                dds.sides(above.mip).0 as int,
                dds.sides(above.mip).1 as int,
                dds.sides(above.mip).2 as int,
            );
            let n = texels_along(s.0) * texels_along(s.1) * texels_along(s.2);
            let got = dds.rgba8_pixels(id)[packed_at(w, h, x, y, z) + c];
            n * got <= sum_under(dds.rgba8_pixels(above), s, x, y, z, c) + n / 2 < n * got + n
        }),
{
    law_plain_content_round_trips(dds, pixels, layout, id);
    law_plain_content_round_trips(dds, pixels, layout, above);
    lemma_place(dds, layout, id);
    lemma_place(dds, layout, above);
    layout.law_levels_are_halved(pixels, dds.chain_of(id), id.mip, x, y, z, c);
}

/// A subresource's decoded texel owes the texel of its mip level what its content
/// kind owes: the level's own four bytes exactly for plain content, and for blocks
/// within what the spread of the 4x4 square of texels around it allows.
pub proof fn law_container_texels_come_back(
    dds: Dds,
    pixels: Seq<u8>,
    layout: EncodeLayout,
    id: SubresourceId,
    x: int,
    y: int,
    z: int,
    lo: Seq<int>,
    hi: Seq<int>,
)
    requires
        layout.outcome(pixels.len() as int) is Ok,
        holds_encoding(dds, pixels, layout),
        dds.has(id),
        layout.rdo is Off || layout.rdo == Rdo::Lambda(0) || (layout.content != DecodeContent::Bc1 && layout.content
            != DecodeContent::Bc7),
        0 <= x < dds.sides(id.mip).0,
        0 <= y < dds.sides(id.mip).1,
        0 <= z < dds.sides(id.mip).2,
        ({
            let (w, h) = (dds.sides(id.mip).0 as int, dds.sides(id.mip).1 as int);
            let level = layout.mip_pixels(pixels, source_layer(layout, id), id.mip as nat);
            tile_between(level.subrange(z * (w * h * 4), z * (w * h * 4) + w * h * 4), w, h, x, y, lo, hi)
        }),
    ensures
        ({
            let (w, h) = (dds.sides(id.mip).0 as int, dds.sides(id.mip).1 as int);
            let level = layout.mip_pixels(pixels, source_layer(layout, id), id.mip as nat);
            let k = packed_at(w, h, x, y, z);
            let all = dds.rgba8_pixels(id);
            owed(
                layout.content,
                seq![level[k] as int, level[k + 1] as int, level[k + 2] as int, level[k + 3] as int],
                seq![all[k], all[k + 1], all[k + 2], all[k + 3]],
                lo,
                hi,
            )
        }),
{
    law_container_has_the_layout(dds, pixels, layout, id);
    lemma_place(dds, layout, id);
    law_encoded_decodes(dds, pixels, layout, id);
    law_encoded_slices_decode(dds, pixels, layout, id, z);
    let (w, h, d) = (dds.sides(id.mip).0 as int, dds.sides(id.mip).1 as int, dds.sides(id.mip).2 as int);
    let p = source_layer(layout, id);
    lemma_chain_number(dds, layout, id);
    let n = layout.layer_len();
    lemma_levels_shrink(layout, 0);
    assert(p * n >= 0 && (p + 1) * n == p * n + n && p * n + n <= n * layout.array_layers) by (nonlinear_arith)
        requires
            0 <= p,
            p + 1 <= layout.array_layers,
            n >= 0,
    ;
    layout.law_level_has_its_texels(pixels, p, id.mip);
    let level = layout.mip_pixels(pixels, p, id.mip as nat);
    let o = w * h * 4;
    let part = level.subrange(z * o, z * o + o);
    let j = (y * w + x) * 4;
    let k = packed_at(w, h, x, y, z);
    crate::decode::laws::lemma_packed(w, h, x, y, z, 0);
    assert(0 <= j && j + 4 <= o) by (nonlinear_arith)
        requires
            j == (y * w + x) * 4,
            o == w * h * 4,
            0 <= x < w,
            0 <= y < h,
    ;
    assert(z * o + o <= o * d && 0 <= z * o && level.len() == o * d) by (nonlinear_arith)
        requires
            0 <= z,
            z + 1 <= d,
            o == w * h * 4,
            o >= 0,
            level.len() == w * h * d * 4,
    ;
    law_encoded_pixels_come_back(layout.content, layout.quality, layout.rdo.price(), part, w, h, x, y, lo, hi);
    let all = dds.rgba8_pixels(id);
    dds.lemma_pixels_len(id);
    let cut = all.subrange(z * o, (z + 1) * o);
    assert(cut[j] == all[k] && cut[j + 1] == all[k + 1] && cut[j + 2] == all[k + 2] && cut[j + 3] == all[k + 3]);
    assert(part[j] == level[k] && part[j + 1] == level[k + 1] && part[j + 2] == level[k + 2] && part[j + 3] == level[k + 3]);
}

/// An image that is encoded as plain content comes back whole.
pub proof fn law_image_comes_back(image: ImageRgba8, content: DecodeContent, dds: Dds, id: SubresourceId)
    requires
        content == DecodeContent::Rgba8 || content == DecodeContent::Bgra8,
        image.layout(content).outcome(image.pixels@.len() as int) is Ok,
        holds_encoding(dds, image.pixels@, image.layout(content)),
        dds.has(id),
    ensures
        id == (SubresourceId { mip: 0, layer: 0, face: 0 }),
        dds.sides(id.mip) == (image.width, image.height, image.depth),
        dds.rgba8_outcome(id) is Ok,
        dds.rgba8_pixels(id) == image.pixels@.take(image.width * image.height * image.depth * 4),
{
    let layout = image.layout(content);
    law_container_has_the_layout(dds, image.pixels@, layout, id);
    law_plain_content_round_trips(dds, image.pixels@, layout, id);
    lemma_chain_number(dds, layout, id);
    lemma_place(dds, layout, id);
    assert(0 * layout.layer_len() == 0);
}

/// The layout of an image is a single level of a single layer of its sides.
pub proof fn law_image_layout(image: ImageRgba8, content: DecodeContent)
    ensures
        ({
            let l = image.layout(content);
            &&& l.content == content && l.width == image.width && l.height == image.height && l.depth == image.depth
            &&& l.mipmap_levels == 1 && l.array_layers == 1 && !l.is_cubemap
            &&& l.quality == EncodeQuality::Quality && l.rdo == Rdo::Off
        }),
{
}

/// What a level's encoding leaves of its room is zero.
pub proof fn law_spare_bytes_are_zero(dds: Dds, pixels: Seq<u8>, layout: EncodeLayout, id: SubresourceId, k: int)
    requires
        layout.outcome(pixels.len() as int) is Ok,
        holds_encoding(dds, pixels, layout),
        dds.has(id),
        slice_bytes(layout.content, dds.sides(id.mip).0 as int, dds.sides(id.mip).1 as int) * dds.sides(id.mip).2 <= k
            < dds.surface_bytes(id).len(),
    ensures
        dds.surface_bytes(id)[k] == 0,
{
    lemma_place(dds, layout, id);
    law_container_has_the_layout(dds, pixels, layout, id);
    lemma_levels_shrink(layout, 0);
    lemma_mip_side_bounds(layout.width, id.mip);
    lemma_mip_side_bounds(layout.height, id.mip);
    lemma_mip_side_bounds(layout.depth, id.mip);
    let (w, h, d) = (dds.sides(id.mip).0 as int, dds.sides(id.mip).1 as int, dds.sides(id.mip).2 as int);
    let p = dds.chain_of(id);
    let n = layout.layer_len();
    assert(p * n >= 0 && (p + 1) * n == p * n + n && p * n + n <= n * layout.array_layers) by (nonlinear_arith)
        requires
            0 <= p,
            p + 1 <= layout.array_layers,
            n >= 0,
    ;
    layout.law_level_has_its_texels(pixels, p, id.mip);
    let level = layout.mip_pixels(pixels, p, id.mip as nat);
    assert(w * h * 4 * d == w * h * d * 4) by (nonlinear_arith);
    lemma_stacked_slice(layout.content, layout.quality, layout.rdo.price(), level, w, h, d as nat, 0);
    let s = slice_bytes(layout.content, w, h);
    assert(s * d == d * s) by (nonlinear_arith);
}

} // verus!
