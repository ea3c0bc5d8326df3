//! Triangle meshes and the geometry of a tile.

use crate::float::{F32, F64, HALF64, INF32, NEG_INF32, ONE32};
use vstd::prelude::*;

verus! {

/// The geometry of one mesh.
#[derive(Debug)]
pub struct MeshData {
    pub positions: Vec<[F32; 3]>,
    pub normals: Vec<[F32; 3]>,
    pub uvs: Vec<[F32; 2]>,
    /// Vertex numbers, three to a triangle.
    pub indices: Vec<u32>,
    pub name: String,
    /// Whether the triangles are to be turned round when they are drawn.
    pub flip_winding: bool,
    /// The key of the texture.
    pub texture_uri: Option<String>,
    /// The encoded texture.
    pub texture_bytes: Option<Vec<u8>>,
    /// The media type of the encoded texture.
    pub texture_mime: Option<String>,
    /// Whether the texture has translucent parts.
    pub texture_has_alpha: bool,
    pub metallic_factor: F32,
    pub roughness_factor: F32,
    /// The component that the mesh belongs to.
    pub feature_gid: usize,
    /// For each vertex the number of its component within the tile.
    pub batch_ids: Vec<u32>,
}

/// What a [`MeshData`] holds.
#[verifier::ext_equal]
pub struct MeshView {
    pub positions: Seq<[F32; 3]>,
    pub normals: Seq<[F32; 3]>,
    pub uvs: Seq<[F32; 2]>,
    pub indices: Seq<u32>,
    pub name: Seq<char>,
    pub flip_winding: bool,
    pub texture_uri: Option<Seq<char>>,
    pub texture_bytes: Option<Seq<u8>>,
    pub texture_mime: Option<Seq<char>>,
    pub texture_has_alpha: bool,
    pub metallic_factor: F32,
    pub roughness_factor: F32,
    pub feature_gid: usize,
    pub batch_ids: Seq<u32>,
}

/// The characters of an optional string.
pub open spec fn text_view(s: Option<String>) -> Option<Seq<char>> {
    match s {
        None => None,
        Some(t) => Some(t@),
    }
}

/// The bytes of an optional vector.
pub open spec fn bytes_view(s: Option<Vec<u8>>) -> Option<Seq<u8>> {
    match s {
        None => None,
        Some(t) => Some(t@),
    }
}

impl View for MeshData {
    type V = MeshView;

    open spec fn view(&self) -> MeshView {
        MeshView {
            positions: self.positions@,
            normals: self.normals@,
            uvs: self.uvs@,
            indices: self.indices@,
            name: self.name@,
            flip_winding: self.flip_winding,
            texture_uri: text_view(self.texture_uri),
            texture_bytes: bytes_view(self.texture_bytes),
            texture_mime: text_view(self.texture_mime),
            texture_has_alpha: self.texture_has_alpha,
            metallic_factor: self.metallic_factor,
            roughness_factor: self.roughness_factor,
            feature_gid: self.feature_gid,
            batch_ids: self.batch_ids@,
        }
    }
}

/// The upward normal.
pub open spec fn spec_up() -> [F32; 3] {
    [F32 { bits: 0 }, F32 { bits: ONE32 }, F32 { bits: 0 }]
}

/// The upward normal.
#[verifier::when_used_as_spec(spec_up)]
pub fn up() -> (r: [F32; 3])
    ensures
        r == spec_up(),
{
    let r: [F32; 3] = [F32 { bits: 0 }, F32 { bits: ONE32 }, F32 { bits: 0 }];
    proof {
        assert(r =~= spec_up());
    }
    r
}

/// Appends the elements of `src` to `dst`.
pub fn append_copies<T: Copy>(dst: &mut Vec<T>, src: &Vec<T>)
    ensures
        final(dst)@ == old(dst)@ + src@,
{
    let ghost start = dst@;
    let mut i: usize = 0;
    while i < src.len()
        invariant
            i <= src@.len(),
            dst@ == start + src@.take(i as int),
        decreases src@.len() - i,
    {
        dst.push(src[i]);
        i = i + 1;
        proof {
            assert(dst@ =~= start + src@.take(i as int));
        }
    }
    proof {
        assert(src@.take(i as int) =~= src@);
    }
}

/// A vector with the same elements.
pub fn copied<T: Copy>(src: &Vec<T>) -> (r: Vec<T>)
    ensures
        r@ == src@,
{
    let mut r: Vec<T> = Vec::new();
    append_copies(&mut r, src);
    proof {
        assert(r@ =~= src@);
    }
    r
}

/// A copy of an optional string.
pub fn copied_text(s: &Option<String>) -> (r: Option<String>)
    ensures
        text_view(r) == text_view(*s),
{
    match s {
        None => None,
        Some(t) => Some(t.clone()),
    }
}

/// A copy of optional bytes.
pub fn copied_bytes(s: &Option<Vec<u8>>) -> (r: Option<Vec<u8>>)
    ensures
        bytes_view(r) == bytes_view(*s),
{
    match s {
        None => None,
        Some(t) => Some(copied(t)),
    }
}

/// Whether two optional strings are equal.
pub fn same_text(a: &Option<String>, b: &Option<String>) -> (r: bool)
    ensures
        r == (text_view(*a) == text_view(*b)),
{
    match (a, b) {
        (None, None) => true,
        (Some(x), Some(y)) => *x == *y,
        _ => false,
    }
}

impl Clone for MeshData {
    fn clone(&self) -> (r: MeshData)
        ensures
            r@ == self@,
    {
        MeshData {
            positions: copied(&self.positions),
            normals: copied(&self.normals),
            uvs: copied(&self.uvs),
            indices: copied(&self.indices),
            name: self.name.clone(),
            flip_winding: self.flip_winding,
            texture_uri: copied_text(&self.texture_uri),
            texture_bytes: copied_bytes(&self.texture_bytes),
            texture_mime: copied_text(&self.texture_mime),
            texture_has_alpha: self.texture_has_alpha,
            metallic_factor: self.metallic_factor,
            roughness_factor: self.roughness_factor,
            feature_gid: self.feature_gid,
            batch_ids: copied(&self.batch_ids),
        }
    }
}

/// The meshes of a tile and the table of its components.
pub struct TileGeometry {
    pub meshes: Vec<MeshData>,
    /// The names of the components, by their numbers within the tile.
    pub batch_names: Vec<String>,
    /// The numbers of the components within the model.
    pub batch_gids: Vec<usize>,
}

/// What the meshes hold.
pub open spec fn mesh_views(meshes: Seq<MeshData>) -> Seq<MeshView> {
    Seq::new(meshes.len(), |i: int| meshes[i]@)
}

/// The vertices of the meshes, together.
pub open spec fn vertex_count(meshes: Seq<MeshView>) -> nat
    decreases meshes.len(),
{
    if meshes.len() == 0 {
        0
    } else {
        vertex_count(meshes.drop_last()) + meshes.last().positions.len()
    }
}

/// The whole triangles of the meshes, together.
pub open spec fn triangle_count(meshes: Seq<MeshView>) -> nat
    decreases meshes.len(),
{
    if meshes.len() == 0 {
        0
    } else {
        triangle_count(meshes.drop_last()) + meshes.last().indices.len() / 3
    }
}

/// The positions of the meshes, one after the other.
pub open spec fn all_positions(meshes: Seq<MeshView>) -> Seq<[F32; 3]>
    decreases meshes.len(),
{
    if meshes.len() == 0 {
        Seq::empty()
    } else {
        all_positions(meshes.drop_last()) + meshes.last().positions
    }
}

/// The normals of the meshes, one after the other.
pub open spec fn all_normals(meshes: Seq<MeshView>) -> Seq<[F32; 3]>
    decreases meshes.len(),
{
    if meshes.len() == 0 {
        Seq::empty()
    } else {
        all_normals(meshes.drop_last()) + meshes.last().normals
    }
}

/// The texture coordinates of the meshes, one after the other.
pub open spec fn all_uvs(meshes: Seq<MeshView>) -> Seq<[F32; 2]>
    decreases meshes.len(),
{
    if meshes.len() == 0 {
        Seq::empty()
    } else {
        all_uvs(meshes.drop_last()) + meshes.last().uvs
    }
}

/// The indices moved up by `base`.
pub open spec fn shifted(indices: Seq<u32>, base: nat) -> Seq<u32> {
    Seq::new(indices.len(), |i: int| (indices[i] + base) as u32)
}

/// Whether the indices can be moved up by `base`.
pub open spec fn shiftable(indices: Seq<u32>, base: nat) -> bool {
    forall|i: int| 0 <= i < indices.len() ==> (#[trigger] indices[i]) + base <= u32::MAX
}

/// The indices of the meshes, one after the other, each moved up by the number of
/// vertices before its mesh.
pub open spec fn all_indices(meshes: Seq<MeshView>) -> Seq<u32>
    decreases meshes.len(),
{
    if meshes.len() == 0 {
        Seq::empty()
    } else {
        all_indices(meshes.drop_last()) + shifted(
            meshes.last().indices,
            vertex_count(meshes.drop_last()),
        )
    }
}

/// Whether the vertex numbers of the joined meshes fit 32 bits.
pub open spec fn joinable(meshes: Seq<MeshView>) -> bool {
    &&& vertex_count(meshes) <= u32::MAX
    &&& forall|k: int|
        #![trigger meshes[k]]
        0 <= k < meshes.len() ==> shiftable(meshes[k].indices, vertex_count(meshes.take(k)))
}

/// The smallest of the `k`-th coordinates, infinity where there is none.
pub open spec fn lowest(points: Seq<[F32; 3]>, k: int) -> F32
    decreases points.len(),
{
    if points.len() == 0 {
        F32 { bits: INF32 }
    } else {
        let rest = lowest(points.drop_last(), k);
        if points.last()[k].lt(rest) {
            points.last()[k]
        } else {
            rest
        }
    }
}

/// The largest of the `k`-th coordinates, negative infinity where there is none.
pub open spec fn highest(points: Seq<[F32; 3]>, k: int) -> F32
    decreases points.len(),
{
    if points.len() == 0 {
        F32 { bits: NEG_INF32 }
    } else {
        let rest = highest(points.drop_last(), k);
        if rest.lt(points.last()[k]) {
            points.last()[k]
        } else {
            rest
        }
    }
}

/// Whether `b` is the least box around `points`.
pub open spec fn is_box(points: Seq<[F32; 3]>, b: ([F32; 3], [F32; 3])) -> bool {
    forall|k: int|
        #![trigger b.0[k]]
        #![trigger b.1[k]]
        0 <= k < 3 ==> b.0[k] == lowest(points, k) && b.1[k] == highest(points, k)
}

proof fn lemma_views_take(meshes: Seq<MeshData>, i: int)
    requires
        0 <= i < meshes.len(),
    ensures
        mesh_views(meshes.take(i + 1)).drop_last() == mesh_views(meshes.take(i)),
        mesh_views(meshes.take(i + 1)).last() == meshes[i]@,
        mesh_views(meshes.take(i + 1)).len() == i + 1,
{
    assert(mesh_views(meshes.take(i + 1)).drop_last() =~= mesh_views(meshes.take(i)));
}

proof fn lemma_counts_grow(meshes: Seq<MeshView>, i: int)
    requires
        0 <= i <= meshes.len(),
    ensures
        vertex_count(meshes.take(i)) <= vertex_count(meshes),
        triangle_count(meshes.take(i)) <= triangle_count(meshes),
    decreases meshes.len() - i,
{
    if i < meshes.len() {
        lemma_counts_grow(meshes, i + 1);
        assert(meshes.take(i + 1).drop_last() =~= meshes.take(i));
    } else {
        assert(meshes.take(i) =~= meshes);
    }
}

/// Grows a box to hold `p`.
fn grow(b: &mut ([F32; 3], [F32; 3]), p: &[F32; 3], Ghost(points): Ghost<Seq<[F32; 3]>>)
    requires
        is_box(points, *old(b)),
    ensures
        is_box(points.push(*p), *final(b)),
{
    proof {
        assert(points.push(*p).drop_last() =~= points);
    }
    let mut i: usize = 0;
    while i < 3
        invariant
            i <= 3,
            points.push(*p).drop_last() == points,
            forall|k: int|
                #![trigger b.0[k]]
                #![trigger b.1[k]]
                0 <= k < i ==> b.0[k] == lowest(points.push(*p), k) && b.1[k] == highest(
                    points.push(*p),
                    k,
                ),
            forall|k: int|
                #![trigger b.0[k]]
                #![trigger b.1[k]]
                i <= k < 3 ==> b.0[k] == lowest(points, k) && b.1[k] == highest(points, k),
        decreases 3 - i,
    {
        if p[i].lt(b.0[i]) {
            b.0[i] = p[i];
        }
        if b.1[i].lt(p[i]) {
            b.1[i] = p[i];
        }
        i = i + 1;
    }
}

/// The box that holds nothing.
fn no_box() -> (r: ([F32; 3], [F32; 3]))
    ensures
        is_box(Seq::empty(), r),
{
    let lo = F32 { bits: INF32 };
    let hi = F32 { bits: NEG_INF32 };
    ([lo, lo, lo], [hi, hi, hi])
}

impl TileGeometry {
    /// What the meshes hold.
    pub open spec fn views(&self) -> Seq<MeshView> {
        mesh_views(self.meshes@)
    }

    /// The number of vertices.
    pub fn total_vertices(&self) -> (r: usize)
        requires
            vertex_count(self.views()) <= usize::MAX,
        ensures
            r == vertex_count(self.views()),
    {
        let mut n: usize = 0;
        let mut i: usize = 0;
        while i < self.meshes.len()
            invariant
                i <= self.meshes@.len(),
                vertex_count(self.views()) <= usize::MAX,
                n == vertex_count(mesh_views(self.meshes@.take(i as int))),
            decreases self.meshes@.len() - i,
        {
            proof {
                lemma_views_take(self.meshes@, i as int);
                lemma_counts_grow(self.views(), i + 1);
                assert(self.views().take(i + 1) =~= mesh_views(self.meshes@.take(i + 1)));
            }
            n = n + self.meshes[i].positions.len();
            i = i + 1;
        }
        proof {
            assert(self.meshes@.take(i as int) =~= self.meshes@);
        }
        n
    }

    /// The number of triangles.
    pub fn total_triangles(&self) -> (r: usize)
        requires
            triangle_count(self.views()) <= usize::MAX,
        ensures
            r == triangle_count(self.views()),
    {
        let mut n: usize = 0;
        let mut i: usize = 0;
        while i < self.meshes.len()
            invariant
                i <= self.meshes@.len(),
                triangle_count(self.views()) <= usize::MAX,
                n == triangle_count(mesh_views(self.meshes@.take(i as int))),
            decreases self.meshes@.len() - i,
        {
            proof {
                lemma_views_take(self.meshes@, i as int);
                lemma_counts_grow(self.views(), i + 1);
                assert(self.views().take(i + 1) =~= mesh_views(self.meshes@.take(i + 1)));
            }
            n = n + self.meshes[i].indices.len() / 3;
            i = i + 1;
        }
        proof {
            assert(self.meshes@.take(i as int) =~= self.meshes@);
        }
        n
    }

    /// Joins all meshes into one: the vertices one after the other, the indices
    /// moved accordingly.
    pub fn merged(&self) -> (r: (Vec<[F32; 3]>, Vec<[F32; 3]>, Vec<[F32; 2]>, Vec<u32>))
        requires
            joinable(self.views()),
        ensures
            r.0@ == all_positions(self.views()),
            r.1@ == all_normals(self.views()),
            r.2@ == all_uvs(self.views()),
            r.3@ == all_indices(self.views()),
    {
        let mut positions: Vec<[F32; 3]> = Vec::new();
        let mut normals: Vec<[F32; 3]> = Vec::new();
        let mut uvs: Vec<[F32; 2]> = Vec::new();
        let mut indices: Vec<u32> = Vec::new();
        let mut offset: u32 = 0;
        let mut i: usize = 0;
        while i < self.meshes.len()
            invariant
                i <= self.meshes@.len(),
                joinable(self.views()),
                positions@ == all_positions(mesh_views(self.meshes@.take(i as int))),
                normals@ == all_normals(mesh_views(self.meshes@.take(i as int))),
                uvs@ == all_uvs(mesh_views(self.meshes@.take(i as int))),
                indices@ == all_indices(mesh_views(self.meshes@.take(i as int))),
                offset == vertex_count(mesh_views(self.meshes@.take(i as int))),
            decreases self.meshes@.len() - i,
        {
            let m: &MeshData = &self.meshes[i];
            proof {
                lemma_views_take(self.meshes@, i as int);
                lemma_counts_grow(self.views(), i + 1);
                assert(self.views().take(i + 1) =~= mesh_views(self.meshes@.take(i + 1)));
                assert(self.views().take(i as int) =~= mesh_views(self.meshes@.take(i as int)));
                assert(self.views()[i as int] == m@);
                assert(shiftable(m.indices@, offset as nat));
            }
            append_copies(&mut positions, &m.positions);
            append_copies(&mut normals, &m.normals);
            append_copies(&mut uvs, &m.uvs);
            append_shifted(&mut indices, &m.indices, offset);
            offset = offset + m.positions.len() as u32;
            i = i + 1;
        }
        proof {
            assert(self.meshes@.take(i as int) =~= self.meshes@);
        }
        (positions, normals, uvs, indices)
    }

    /// The least box around all vertices, where there are any.
    pub fn compute_aabb_all(&self) -> (r: Option<([F32; 3], [F32; 3])>)
        ensures
            r is Some <==> all_positions(self.views()).len() > 0,
            r matches Some(b) ==> is_box(all_positions(self.views()), b),
    {
        let mut b: ([F32; 3], [F32; 3]) = no_box();
        let mut any: bool = false;
        let mut i: usize = 0;
        while i < self.meshes.len()
            invariant
                i <= self.meshes@.len(),
                is_box(all_positions(mesh_views(self.meshes@.take(i as int))), b),
                any == (all_positions(mesh_views(self.meshes@.take(i as int))).len() > 0),
            decreases self.meshes@.len() - i,
        {
            let m: &MeshData = &self.meshes[i];
            let ghost before = all_positions(mesh_views(self.meshes@.take(i as int)));
            let mut j: usize = 0;
            proof {
                lemma_views_take(self.meshes@, i as int);
                assert(before + m.positions@.take(0) =~= before);
            }
            while j < m.positions.len()
                invariant
                    j <= m.positions@.len(),
                    is_box(before + m.positions@.take(j as int), b),
                    any == (before.len() + j > 0),
                decreases m.positions@.len() - j,
            {
                any = true;
                grow(&mut b, &m.positions[j], Ghost(before + m.positions@.take(j as int)));
                proof {
                    assert((before + m.positions@.take(j as int)).push(m.positions@[j as int])
                        =~= before + m.positions@.take(j + 1));
                }
                j = j + 1;
            }
            proof {
                assert(m.positions@.take(j as int) =~= m.positions@);
            }
            i = i + 1;
        }
        proof {
            assert(self.meshes@.take(i as int) =~= self.meshes@);
        }
        if any {
            Some(b)
        } else {
            None
        }
    }

    /// The least box around `positions`.
    pub fn compute_aabb(positions: &[[F32; 3]]) -> (r: ([F32; 3], [F32; 3]))
        ensures
            is_box(positions@, r),
    {
        let mut b: ([F32; 3], [F32; 3]) = no_box();
        let mut j: usize = 0;
        proof {
            assert(positions@.take(0) =~= Seq::empty());
        }
        while j < positions.len()
            invariant
                j <= positions@.len(),
                is_box(positions@.take(j as int), b),
            decreases positions@.len() - j,
        {
            grow(&mut b, &positions[j], Ghost(positions@.take(j as int)));
            proof {
                assert(positions@.take(j as int).push(positions@[j as int]) =~= positions@.take(
                    j + 1,
                ));
            }
            j = j + 1;
        }
        proof {
            assert(positions@.take(j as int) =~= positions@);
        }
        b
    }
}

/// The extent of `points` along axis `k`.
pub open spec fn reach_along(points: Seq<[F32; 3]>, k: int) -> F64 {
    highest(points, k).minus(lowest(points, k)).widen()
}

/// The radius of the sphere around the box of `points`.
pub open spec fn spec_radius(points: Seq<[F32; 3]>) -> F32 {
    let dx = reach_along(points, 0);
    let dy = reach_along(points, 1);
    let dz = reach_along(points, 2);
    F64 { bits: HALF64 }.times(
        dx.times(dx).plus(dy.times(dy)).plus(dz.times(dz)).root(),
    ).narrow()
}

/// The radius of the sphere around the box of `positions`.
pub fn mesh_radius(positions: &[[F32; 3]]) -> (r: F32)
    ensures
        r == spec_radius(positions@),
{
    let b: ([F32; 3], [F32; 3]) = TileGeometry::compute_aabb(positions);
    let dx: F64 = b.1[0].minus(b.0[0]).widen();
    let dy: F64 = b.1[1].minus(b.0[1]).widen();
    let dz: F64 = b.1[2].minus(b.0[2]).widen();
    F64 { bits: HALF64 }.times(
        dx.times(dx).plus(dy.times(dy)).plus(dz.times(dz)).root(),
    ).narrow()
}

/// Appends the indices `src` to `dst`, moved up by `base`.
fn append_shifted(dst: &mut Vec<u32>, src: &Vec<u32>, base: u32)
    requires
        shiftable(src@, base as nat),
    ensures
        final(dst)@ == old(dst)@ + shifted(src@, base as nat),
{
    let ghost start = dst@;
    let ghost all = shifted(src@, base as nat);
    let mut i: usize = 0;
    while i < src.len()
        invariant
            i <= src@.len(),
            shiftable(src@, base as nat),
            all == shifted(src@, base as nat),
            dst@ == start + all.take(i as int),
        decreases src@.len() - i,
    {
        dst.push(src[i] + base);
        i = i + 1;
        proof {
            assert(dst@ =~= start + all.take(i as int));
        }
    }
    proof {
        assert(all.take(i as int) =~= all);
    }
}

/// A least box holds its points: a coordinate that is a number lies between the
/// box's bounds.
pub proof fn law_box_holds(points: Seq<[F32; 3]>, b: ([F32; 3], [F32; 3]), i: int, k: int)
    requires
        is_box(points, b),
        0 <= i < points.len(),
        0 <= k < 3,
        !points[i][k].nan(),
    ensures
        b.0[k].le(points[i][k]),
        points[i][k].le(b.1[k]),
{
    assert(b.0[k] == lowest(points, k) && b.1[k] == highest(points, k));
    lemma_extremes(points, i, k);
}

pub proof fn lemma_extremes(points: Seq<[F32; 3]>, i: int, k: int)
    requires
        0 <= i < points.len(),
        !points[i][k].nan(),
    ensures
        lowest(points, k).le(points[i][k]),
        points[i][k].le(highest(points, k)),
    decreases points.len(),
{
    lemma_extremes_numbers(points.drop_last(), k);
    if i < points.len() - 1 {
        lemma_extremes(points.drop_last(), i, k);
    }
}

proof fn lemma_extremes_numbers(points: Seq<[F32; 3]>, k: int)
    ensures
        !lowest(points, k).nan(),
        !highest(points, k).nan(),
    decreases points.len(),
{
    if points.len() > 0 {
        lemma_extremes_numbers(points.drop_last(), k);
    }
}

} // verus!
