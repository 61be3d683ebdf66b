//! Typed views into a DDS payload: mip level, array layer, cubemap face.

use std::ops::Range;
use vstd::arithmetic::power2::pow2;
use vstd::prelude::*;

use crate::dds::{chain_offset, chain_size, lemma_chain, walk_chain, DdsBase, Payload};
use crate::error::Error;

verus! {

/// Cubemap faces in DirectX order.
#[derive(Debug, Clone, Copy, PartialEq, Eq, Hash, Structural)]
pub enum CubemapFace {
    PositiveX,
    NegativeX,
    PositiveY,
    NegativeY,
    PositiveZ,
    NegativeZ,
}

impl CubemapFace {
    /// The faces in order.
    pub const ALL: [CubemapFace; 6] = [
        CubemapFace::PositiveX,
        CubemapFace::NegativeX,
        CubemapFace::PositiveY,
        CubemapFace::NegativeY,
        CubemapFace::PositiveZ,
        CubemapFace::NegativeZ,
    ];

    /// The face's number, from 0 to 5.
    pub open spec fn number(self) -> u32 {
        match self {
            CubemapFace::PositiveX => 0,
            CubemapFace::NegativeX => 1,
            CubemapFace::PositiveY => 2,
            CubemapFace::NegativeY => 3,
            CubemapFace::PositiveZ => 4,
            CubemapFace::NegativeZ => 5,
        }
    }

    /// The face of a number.
    pub fn from_index(index: u32) -> (r: Result<CubemapFace, Error>)
        ensures
            index < 6 ==> r is Ok,
            r matches Ok(f) ==> f.number() == index,
            index >= 6 ==> r == Err::<CubemapFace, Error>(Error::OutOfBounds),
    {
        match index {
            0 => Ok(CubemapFace::PositiveX),
            1 => Ok(CubemapFace::NegativeX),
            2 => Ok(CubemapFace::PositiveY),
            3 => Ok(CubemapFace::NegativeY),
            4 => Ok(CubemapFace::PositiveZ),
            5 => Ok(CubemapFace::NegativeZ),
            _ => Err(Error::OutOfBounds),
        }
    }

    /// The face's number.
    pub fn index(self) -> (n: u32)
        ensures
            n == self.number(),
            n < 6,
    {
        match self {
            CubemapFace::PositiveX => 0,
            CubemapFace::NegativeX => 1,
            CubemapFace::PositiveY => 2,
            CubemapFace::NegativeY => 3,
            CubemapFace::PositiveZ => 4,
            CubemapFace::NegativeZ => 5,
        }
    }

    /// The faces are numbered along the axes, the positive side of each first.
    pub proof fn law_faces_follow_the_axes(self)
        ensures
            self is PositiveX || self is NegativeX <==> self.number() / 2 == 0,
            self is PositiveY || self is NegativeY <==> self.number() / 2 == 1,
            self is PositiveZ || self is NegativeZ <==> self.number() / 2 == 2,
            self is PositiveX || self is PositiveY || self is PositiveZ <==> self.number() % 2 == 0,
            CubemapFace::ALL@[self.number() as int] == self,
    {
    }

    /// No two faces share a number.
    pub proof fn law_numbers_are_distinct(a: CubemapFace, b: CubemapFace)
        requires
            a.number() == b.number(),
        ensures
            a == b,
    {
    }
}

/// One mip level of one layer and face.
///
/// `layer` is the array layer, or the cube for cubemaps; `face` must be 0 where
/// there is no cubemap.
#[derive(Debug, Clone, Copy, PartialEq, Eq, Hash, Default, Structural)]
pub struct SubresourceId {
    pub mip: u32,
    pub layer: u32,
    pub face: u32,
}

impl SubresourceId {
    /// A subresource by its three numbers.
    pub fn new(mip: u32, layer: u32, face: u32) -> (id: SubresourceId)
        ensures
            id == (SubresourceId { mip, layer, face }),
    {
        SubresourceId { mip, layer, face }
    }

    /// A subresource of a texture without faces.
    pub fn mip_layer(mip: u32, layer: u32) -> (id: SubresourceId)
        ensures
            id == (SubresourceId { mip, layer, face: 0 }),
    {
        SubresourceId { mip, layer, face: 0 }
    }

    /// A subresource of a cubemap.
    pub fn cubemap(mip: u32, layer: u32, face: CubemapFace) -> (id: SubresourceId)
        ensures
            id == (SubresourceId { mip, layer, face: face.number() }),
    {
        SubresourceId { mip, layer, face: face.index() }
    }
}

/// The bytes of one subresource and its dimensions.
#[derive(Debug, Clone, Copy)]
#[non_exhaustive]
pub struct SurfaceView<'a> {
    pub id: SubresourceId,
    pub width: u32,
    pub height: u32,
    pub depth: u32,
    pub data: &'a [u8],
}

/// The bytes of one subresource, open for writing, and its dimensions.
#[derive(Debug)]
#[non_exhaustive]
pub struct SurfaceViewMut<'a> {
    pub id: SubresourceId,
    pub width: u32,
    pub height: u32,
    pub depth: u32,
    pub data: &'a mut [u8],
}

/// `n` halved `m` times, but at least one.
pub open spec fn mip_side(n: u32, m: u32) -> u32
    decreases m,
{
    if m == 0 {
        if n == 0 {
            1
        } else {
            n
        }
    } else {
        mip_side(n / 2, (m - 1) as u32)
    }
}

/// Halving a side: the next level's side is half of this one's, but at least one.
pub proof fn lemma_mip_side_step(n: u32, m: u32)
    requires
        m < u32::MAX,
    ensures
        mip_side(n, (m + 1) as u32) == (if mip_side(n, m) / 2 == 0 {
            1
        } else {
            mip_side(n, m) / 2
        }),
        mip_side(n, m) >= 1,
        mip_side(n, m) <= n || mip_side(n, m) == 1,
    decreases m,
{
    if m > 0 {
        lemma_mip_side_step(n / 2, (m - 1) as u32);
    } else {
        reveal_with_fuel(mip_side, 2);
    }
}

/// The side of the next level is half of this one's, rounded down, but one
/// where that would be none; the first level's is the side itself.
pub proof fn law_side_is_halved(n: u32, m: u32)
    requires
        m < u32::MAX,
    ensures
        n > 0 ==> mip_side(n, 0) == n,
        mip_side(n, m) > 1 ==> 2 * mip_side(n, (m + 1) as u32) <= mip_side(n, m) < 2 * mip_side(n, (m + 1) as u32) + 2,
        mip_side(n, m) == 1 ==> mip_side(n, (m + 1) as u32) == 1,
        mip_side(n, m) >= 1,
{
    lemma_mip_side_step(n, m);
}

/// Level `m` of a side is the side divided by two to the `m`, but at least one.
pub proof fn law_side_is_divided(n: u32, m: u32)
    ensures
        mip_side(n, m) == (if n as int / pow2(m as nat) as int == 0 {
            1
        } else {
            n as int / pow2(m as nat) as int
        }),
    decreases m,
{
    if m == 0 {
        assert(pow2(0) == 1) by {
            vstd::arithmetic::power2::lemma2_to64();
        }
        assert(n as int / 1 == n);
    } else {
        law_side_is_divided(n / 2, (m - 1) as u32);
        vstd::arithmetic::power2::lemma_pow2_unfold(m as nat);
        let p = pow2((m - 1) as nat) as int;
        vstd::arithmetic::power2::lemma_pow2_pos((m - 1) as nat);
        vstd::arithmetic::div_mod::lemma_div_denominator(n as int, 2, p);
    }
}

fn halved(n: u32, m: u32) -> (r: u32)
    ensures
        r == mip_side(n, m),
{
    let mut s: u32 = n;
    let mut k: u32 = m;
    while k > 0 && s > 0
        invariant
            mip_side(s, k) == mip_side(n, m),
        decreases k,
    {
        s = s / 2;
        k = k - 1;
    }
    proof {
        if s == 0 {
            lemma_mip_side_zero(k);
        }
    }
    if s == 0 {
        1
    } else {
        s
    }
}

proof fn lemma_mip_side_zero(m: u32)
    ensures
        mip_side(0, m) == 1,
    decreases m,
{
    if m > 0 {
        lemma_mip_side_zero((m - 1) as u32);
    }
}

impl<D: Payload> DdsBase<D> {
    /// Whether the texture is a cubemap.
    pub open spec fn cube(&self) -> bool {
        match self.header10 {
            Some(h) => h.texture_cube,
            None => self.header.cubemap,
        }
    }

    /// Array layers, or cubes: the values that a layer number can take.
    pub open spec fn layers(&self) -> u32 {
        match self.header10 {
            Some(h) => if h.array_size == 0 {
                1
            } else {
                h.array_size
            },
            None => 1,
        }
    }

    /// Faces of a layer.
    pub open spec fn faces(&self) -> u32 {
        if self.cube() {
            6
        } else {
            1
        }
    }

    /// Whether the texture has the subresource.
    pub open spec fn has(&self, id: SubresourceId) -> bool {
        id.mip < self.levels() && id.layer < self.layers() && id.face < self.faces()
    }

    /// Which mip chain of the payload holds the subresource.
    pub open spec fn chain_of(&self, id: SubresourceId) -> int {
        id.layer * self.faces() + id.face
    }

    /// The bytes of one mip chain.
    pub open spec fn stride(&self) -> int {
        chain_offset(self.main_size().unwrap(), self.least_size(), self.levels() as nat)
    }

    /// The first byte of a subresource.
    pub open spec fn first_byte(&self, id: SubresourceId) -> int {
        self.chain_of(id) * self.stride() + chain_offset(self.main_size().unwrap(), self.least_size(), id.mip as nat)
    }

    /// The bytes of a subresource.
    pub open spec fn byte_count(&self, id: SubresourceId) -> int {
        chain_size(self.main_size().unwrap(), self.least_size(), id.mip as nat)
    }

    /// Where a subresource lies, or why it cannot be had: its first byte and
    /// the byte after its last.
    pub open spec fn place(&self, id: SubresourceId) -> Result<(int, int), Error> {
        if !self.has(id) || self.chain_of(id) > u32::MAX {
            Err(Error::OutOfBounds)
        } else if self.main_size() is None {
            Err(Error::UnsupportedFormat)
        } else if self.stride() > u32::MAX || self.first_byte(id) > u32::MAX || self.first_byte(id) + self.byte_count(id)
            > usize::MAX {
            Err(Error::OutOfBounds)
        } else if self.first_byte(id) + self.byte_count(id) > self.data.bytes().len() {
            Err(Error::TruncatedData)
        } else {
            Ok((self.first_byte(id), self.first_byte(id) + self.byte_count(id)))
        }
    }

    /// Width, height and depth of a mip level.
    pub open spec fn sides(&self, mip: u32) -> (u32, u32, u32) {
        (mip_side(self.header.width, mip), mip_side(self.header.height, mip), mip_side(self.full_depth(), mip))
    }

    /// The bytes of a subresource that can be had.
    pub open spec fn surface_bytes(&self, id: SubresourceId) -> Seq<u8> {
        self.data.bytes().subrange(self.place(id).unwrap().0, self.place(id).unwrap().1)
    }

    /// Whether this is a cubemap.
    pub fn is_cubemap(&self) -> (b: bool)
        ensures
            b == self.cube(),
    {
        match self.header10 {
            Some(h) => h.texture_cube,
            None => self.header.cubemap,
        }
    }

    /// The values that a layer number can take.
    pub fn subresource_layer_count(&self) -> (n: u32)
        ensures
            n == self.layers(),
    {
        if self.is_cubemap() {
            self.cube_count()
        } else {
            self.array_layers()
        }
    }

    fn array_layers(&self) -> (n: u32)
        ensures
            n == self.layers(),
    {
        match self.header10 {
            Some(h) => if h.array_size == 0 {
                1
            } else {
                h.array_size
            },
            None => 1,
        }
    }

    /// Six for cubemaps, else one.
    pub fn subresource_face_count(&self) -> (n: u32)
        ensures
            n == self.faces(),
    {
        if self.is_cubemap() {
            6
        } else {
            1
        }
    }

    /// Cubes stored; none where there is no cubemap.
    pub fn cube_count(&self) -> (n: u32)
        ensures
            n == (if self.cube() {
                self.layers()
            } else {
                0
            }),
    {
        if !self.is_cubemap() {
            return 0;
        }
        self.array_layers()
    }

    /// Mip chains in the payload, the largest number where there are more.
    pub fn physical_slice_count(&self) -> (n: u32)
        ensures
            n == (if self.layers() * self.faces() > u32::MAX {
                u32::MAX as int
            } else {
                self.layers() * self.faces()
            }),
    {
        if self.is_cubemap() {
            match self.cube_count().checked_mul(6) {
                Some(n) => n,
                None => u32::MAX,
            }
        } else {
            self.array_layers()
        }
    }

    /// Width, height and depth of a mip level, each at least one.
    pub fn mip_dimensions(&self, mip: u32) -> (r: Result<(u32, u32, u32), Error>)
        ensures
            mip >= self.levels() ==> r == Err::<(u32, u32, u32), Error>(Error::OutOfBounds),
            mip < self.levels() ==> r == Ok::<(u32, u32, u32), Error>(self.sides(mip)),
    {
        if mip >= self.get_num_mipmap_levels() {
            return Err(Error::OutOfBounds);
        }
        let d: u32 = match self.header.depth {
            Some(d) => d,
            None => 1,
        };
        Ok((halved(self.header.width, mip), halved(self.header.height, mip), halved(d, mip)))
    }

    /// The byte range of a subresource in the payload.
    pub fn subresource_range(&self, id: SubresourceId) -> (r: Result<Range<usize>, Error>)
        ensures
            r matches Ok(b) ==> self.place(id) == Ok::<(int, int), Error>((b.start as int, b.end as int)) && b.start
                <= b.end <= self.data.bytes().len(),
            r matches Err(e) ==> self.place(id) == Err::<(int, int), Error>(e),
    {
        let (offset, size): (u32, u32) = match self.subresource_offset_and_size(id) {
            Ok(p) => p,
            Err(e) => {
                return Err(e);
            },
        };
        let start: usize = offset as usize;
        let len: usize = self.data.as_bytes().len();
        match start.checked_add(size as usize) {
            None => Err(Error::OutOfBounds),
            Some(end) => {
                if end > len {
                    return Err(Error::TruncatedData);
                }
                Ok(start..end)
            },
        }
    }

    /// The bytes of a subresource and its dimensions.
    pub fn surface(&self, id: SubresourceId) -> (r: Result<SurfaceView<'_>, Error>)
        ensures
            r matches Ok(v) ==> self.place(id) is Ok && v.id == id && (v.width, v.height, v.depth) == self.sides(id.mip)
                && v.data@ == self.surface_bytes(id),
            r matches Err(e) ==> self.place(id) == Err::<(int, int), Error>(e),
    {
        let range: Range<usize> = match self.subresource_range(id) {
            Ok(b) => b,
            Err(e) => {
                return Err(e);
            },
        };
        let (width, height, depth): (u32, u32, u32) = match self.mip_dimensions(id.mip) {
            Ok(d) => d,
            Err(e) => {
                return Err(e);
            },
        };
        let data: &[u8] = vstd::slice::slice_subrange(self.data.as_bytes(), range.start, range.end);
        Ok(SurfaceView { id, width, height, depth, data })
    }

    /// The first byte and the bytes of a subresource.
    fn subresource_offset_and_size(&self, id: SubresourceId) -> (r: Result<(u32, u32), Error>)
        ensures
            r matches Ok((at, n)) ==> self.has(id) && self.chain_of(id) <= u32::MAX && self.main_size() is Some
                && self.stride() <= u32::MAX && at == self.first_byte(id) && n == self.byte_count(id),
            r matches Err(e) ==> self.place(id) == Err::<(int, int), Error>(e),
    {
        match self.validate_subresource_id(id) {
            Ok(_) => {},
            Err(e) => {
                return Err(e);
            },
        }
        let chain: u32 = match self.physical_slice_index(id) {
            Ok(c) => c,
            Err(e) => {
                return Err(e);
            },
        };
        let stride: u32 = match self.get_array_stride() {
            Ok(s) => s,
            Err(e) => {
                return Err(e);
            },
        };
        proof {
            lemma_chain(self.main_size().unwrap(), self.least_size(), id.mip as nat, self.levels() as nat);
            lemma_chain(self.main_size().unwrap(), self.least_size(), (id.mip + 1) as nat, self.levels() as nat);
        }
        let (at, size): (u32, u32) = match self.mip_offset_and_size_in_chain(id.mip) {
            Ok(p) => p,
            Err(e) => {
                return Err(e);
            },
        };
        match chain.checked_mul(stride) {
            None => Err(Error::OutOfBounds),
            Some(base) => match base.checked_add(at) {
                None => Err(Error::OutOfBounds),
                Some(offset) => Ok((offset, size)),
            },
        }
    }

    /// Whether the texture has the subresource.
    fn validate_subresource_id(&self, id: SubresourceId) -> (r: Result<(), Error>)
        ensures
            self.has(id) ==> r is Ok,
            !self.has(id) ==> r == Err::<(), Error>(Error::OutOfBounds),
    {
        if id.mip >= self.get_num_mipmap_levels() {
            return Err(Error::OutOfBounds);
        }
        if id.layer >= self.subresource_layer_count() {
            return Err(Error::OutOfBounds);
        }
        if id.face >= self.subresource_face_count() {
            return Err(Error::OutOfBounds);
        }
        Ok(())
    }

    /// Which mip chain of the payload holds the subresource.
    fn physical_slice_index(&self, id: SubresourceId) -> (r: Result<u32, Error>)
        requires
            self.has(id),
        ensures
            self.chain_of(id) <= u32::MAX ==> r == Ok::<u32, Error>(self.chain_of(id) as u32),
            self.chain_of(id) > u32::MAX ==> r == Err::<u32, Error>(Error::OutOfBounds),
    {
        if self.is_cubemap() {
            match id.layer.checked_mul(6) {
                None => Err(Error::OutOfBounds),
                Some(base) => match base.checked_add(id.face) {
                    None => Err(Error::OutOfBounds),
                    Some(n) => Ok(n),
                },
            }
        } else {
            Ok(id.layer)
        }
    }

    /// Offset and size of a level within one mip chain.
    fn mip_offset_and_size_in_chain(&self, mip: u32) -> (r: Result<(u32, u32), Error>)
        requires
            mip < self.levels(),
            self.main_size() is Some,
            self.stride() <= u32::MAX,
        ensures
            r == Ok::<(u32, u32), Error>(
                (
                    chain_offset(self.main_size().unwrap(), self.least_size(), mip as nat) as u32,
                    chain_size(self.main_size().unwrap(), self.least_size(), mip as nat) as u32,
                ),
            ),
    {
        proof {
            lemma_chain(self.main_size().unwrap(), self.least_size(), mip as nat, self.levels() as nat);
        }
        match self.get_main_texture_size() {
            None => Err(Error::UnsupportedFormat),
            Some(main) => walk_chain(main, self.get_min_mipmap_size_in_bytes(), mip),
        }
    }

    /// Subresources that can be had lie within the payload, and two different
    /// ones share no byte.
    pub proof fn law_subresources_are_disjoint(&self, a: SubresourceId, b: SubresourceId)
        requires
            self.place(a) is Ok,
            self.place(b) is Ok,
        ensures
            0 <= self.place(a).unwrap().0 <= self.place(a).unwrap().1 <= self.data.bytes().len(),
            a != b ==> self.place(a).unwrap().1 <= self.place(b).unwrap().0 || self.place(b).unwrap().1 <= self.place(
                a,
            ).unwrap().0,
    {
        let m = self.main_size().unwrap();
        let l = self.least_size();
        let n = self.levels() as nat;
        lemma_chain(m, l, a.mip as nat, n);
        lemma_chain(m, l, b.mip as nat, n);
        lemma_chain(m, l, (a.mip + 1) as nat, n);
        lemma_chain(m, l, (b.mip + 1) as nat, n);
        let ca = self.chain_of(a);
        let cb = self.chain_of(b);
        let s = self.stride();
        let fc = self.faces() as int;
        assert(0 <= a.layer * fc && 0 <= b.layer * fc) by (nonlinear_arith)
            requires
                0 <= a.layer,
                0 <= b.layer,
                0 <= fc,
        ;
        assert(0 <= ca * s) by (nonlinear_arith)
            requires
                0 <= ca,
                0 <= s,
        ;
        assert(chain_offset(m, l, (a.mip + 1) as nat) == chain_offset(m, l, a.mip as nat) + chain_size(m, l, a.mip as nat));
        assert(chain_offset(m, l, (b.mip + 1) as nat) == chain_offset(m, l, b.mip as nat) + chain_size(m, l, b.mip as nat));
        if ca < cb {
            assert(ca * s + s <= cb * s) by (nonlinear_arith)
                requires
                    ca + 1 <= cb,
                    0 <= s,
            ;
        } else if cb < ca {
            assert(cb * s + s <= ca * s) by (nonlinear_arith)
                requires
                    cb + 1 <= ca,
                    0 <= s,
            ;
        } else {
            if a.mip < b.mip {
                lemma_chain(m, l, (a.mip + 1) as nat, b.mip as nat);
            } else if b.mip < a.mip {
                lemma_chain(m, l, (b.mip + 1) as nat, a.mip as nat);
            } else {
                assert(a.layer == b.layer && a.face == b.face) by (nonlinear_arith)
                    requires
                        a.layer * fc + a.face == b.layer * fc + b.face,
                        fc == 6 || fc == 1,
                        a.face < fc,
                        b.face < fc,
                ;
            }
        }
    }
}

impl DdsBase<Vec<u8>> {
    /// The bytes of a subresource, open for writing, and its dimensions: what
    /// is written there replaces the subresource's bytes and no others.
    pub fn surface_mut(&mut self, id: SubresourceId) -> (r: Result<SurfaceViewMut<'_>, Error>)
        ensures
            final(self).header == old(self).header,
            final(self).header10 == old(self).header10,
            r matches Ok(v) ==> old(self).place(id) is Ok && v.id == id && (v.width, v.height, v.depth) == old(
                self,
            ).sides(id.mip) && v.data@ == old(self).surface_bytes(id) && final(self).data@ == old(self).data@.subrange(
                0,
                old(self).place(id).unwrap().0,
            ) + final(v.data)@ + old(self).data@.subrange(
                old(self).place(id).unwrap().1,
                old(self).data@.len() as int,
            ),
            r matches Err(e) ==> old(self).place(id) == Err::<(int, int), Error>(e) && final(self).data@ == old(self).data@,
    {
        let range: Range<usize> = match self.subresource_range(id) {
            Ok(b) => b,
            Err(e) => {
                return Err(e);
            },
        };
        let (width, height, depth): (u32, u32, u32) = match self.mip_dimensions(id.mip) {
            Ok(d) => d,
            Err(e) => {
                return Err(e);
            },
        };
        let (_, tail) = self.data.as_mut_slice().split_at_mut(range.start);
        let (data, _) = tail.split_at_mut(range.end - range.start);
        Ok(SurfaceViewMut { id, width, height, depth, data })
    }
}

} // verus!
