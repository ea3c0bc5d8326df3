//! Which box a component of the scene tree has, and which level a node.

use crate::extract;
use crate::extract::{PartSettings, Placement, SourceMesh, Texture, Vertex};
use crate::face_laws;
use crate::float::F64;
use crate::lod;
use crate::mesh::MeshView;
use crate::nearness;
use crate::octree::OctreeNode;
use crate::scenetree;
use crate::scenetree::{Frame, SceneMesh, Stand};
use vstd::prelude::*;

verus! {

/// Whether all points come to finite places in the model.
pub open spec fn all_finite(points: Seq<[F64; 3]>, f: Frame, n: nat) -> bool {
    forall|v: int, k: int|
        0 <= v < n && 0 <= k < 3 ==> (#[trigger] scenetree::framed(points[v], f)[k]).finite()
}

proof fn lemma_spread(points: Seq<[F64; 3]>, f: Frame, n: nat, k: int)
    requires
        0 < n <= points.len(),
        all_finite(points, f, n),
        0 <= k < 3,
    ensures
        ({
            let b = scenetree::spread(points, f, n);
            &&& b.min[k].finite() && b.max[k].finite()
            &&& forall|v: int|
                0 <= v < n ==> b.min[k].rank() <= (#[trigger] scenetree::framed(
                    points[v],
                    f,
                ))[k].rank() <= b.max[k].rank()
            &&& exists|v: int|
                0 <= v < n && (#[trigger] scenetree::framed(points[v], f))[k] == b.min[k]
            &&& exists|v: int|
                0 <= v < n && (#[trigger] scenetree::framed(points[v], f))[k] == b.max[k]
        }),
    decreases n,
{
    let p = scenetree::framed(points[n - 1], f);
    assert(p[k].finite());
    nearness::lemma_infinity_above(p[k]);
    nearness::lemma_infinity_below(p[k]);
    let before = scenetree::spread(points, f, (n - 1) as nat);
    let b = scenetree::spread(points, f, n);
    if n > 1 {
        lemma_spread(points, f, (n - 1) as nat, k);
        let i = choose|v: int|
            0 <= v < n - 1 && (#[trigger] scenetree::framed(points[v], f))[k] == before.min[k];
        let j = choose|v: int|
            0 <= v < n - 1 && (#[trigger] scenetree::framed(points[v], f))[k] == before.max[k];
        assert(scenetree::framed(points[i], f)[k] == before.min[k]);
        assert(scenetree::framed(points[j], f)[k] == before.max[k]);
    }
    assert(b.min[k] == before.min[k].min(p[k]));
    assert(b.max[k] == before.max[k].max(p[k]));
}

/// The box of a component is the least one around its vertices, where they come to in the
/// model: along each axis none lies outside, and one lies at each bound.
pub proof fn law_component_box(m: SceneMesh, f: Frame, k: int)
    requires
        m.positions@.len() > 0,
        all_finite(m.positions@, f, m.positions@.len()),
        0 <= k < 3,
    ensures
        ({
            let b = scenetree::mesh_box(m, f);
            let points = m.positions@;
            &&& forall|v: int|
                0 <= v < points.len() ==> b.min[k].rank() <= (#[trigger] scenetree::framed(
                    points[v],
                    f,
                ))[k].rank() <= b.max[k].rank()
            &&& exists|v: int|
                0 <= v < points.len() && (#[trigger] scenetree::framed(points[v], f))[k] == b.min[k]
            &&& exists|v: int|
                0 <= v < points.len() && (#[trigger] scenetree::framed(points[v], f))[k] == b.max[k]
        }),
{
    lemma_spread(m.positions@, f, m.positions@.len(), k);
}

/// Whether every vertex of a mesh comes to a finite place, and there is one.
pub open spec fn drawable(m: SceneMesh, f: Frame) -> bool {
    m.positions@.len() > 0 && all_finite(m.positions@, f, m.positions@.len())
}

/// The sphere of the root is around a box that reaches as far as that of every component,
/// and no farther than one does on each side.
pub proof fn law_root_box(meshes: Seq<SceneMesh>, f: Frame, s: Stand, n: nat, k: int)
    requires
        0 < n <= meshes.len(),
        forall|g: int| 0 <= g < n ==> drawable(#[trigger] meshes[g], f),
        0 <= k < 3,
    ensures
        ({
            let all = scenetree::elements(meshes, f, s, n).1;
            &&& all.min[k].finite() && all.max[k].finite()
            &&& scenetree::elements(meshes, f, s, n).0.len() == n
            &&& forall|g: int|
                0 <= g < n ==> all.min[k].rank() <= scenetree::mesh_box(
                    #[trigger] meshes[g],
                    f,
                ).min[k].rank() && scenetree::mesh_box(meshes[g], f).max[k].rank()
                    <= all.max[k].rank()
            &&& exists|g: int|
                0 <= g < n && scenetree::mesh_box(#[trigger] meshes[g], f).min[k] == all.min[k]
            &&& exists|g: int|
                0 <= g < n && scenetree::mesh_box(#[trigger] meshes[g], f).max[k] == all.max[k]
        }),
    decreases n,
{
    let before = scenetree::elements(meshes, f, s, (n - 1) as nat).1;
    let all = scenetree::elements(meshes, f, s, n).1;
    let m = meshes[n - 1];
    assert(drawable(m, f));
    lemma_spread(m.positions@, f, m.positions@.len(), k);
    lemma_spread(m.positions@, f, m.positions@.len(), 0);
    let b = scenetree::mesh_box(m, f);
    nearness::lemma_infinity_above(b.min[k]);
    nearness::lemma_infinity_below(b.max[k]);
    if n > 1 {
        law_root_box(meshes, f, s, (n - 1) as nat, k);
        let i = choose|g: int|
            0 <= g < n - 1 && scenetree::mesh_box(#[trigger] meshes[g], f).min[k] == before.min[k];
        let j = choose|g: int|
            0 <= g < n - 1 && scenetree::mesh_box(#[trigger] meshes[g], f).max[k] == before.max[k];
        assert(scenetree::mesh_box(meshes[i], f).min[k] == before.min[k]);
        assert(scenetree::mesh_box(meshes[j], f).max[k] == before.max[k]);
    }
    assert(all.min[k] == before.min[k].min(b.min[k]));
    assert(all.max[k] == before.max[k].max(b.max[k]));
}

/// The level of a node is its height over the deepest leaf below it, or the coarsest level
/// where that is lower: no leaf below it lies deeper than its depth and its height, and one
/// lies just there.
pub proof fn law_level_is_height(node: OctreeNode, lod_levels: u32)
    requires
        lod::layered(node),
    ensures
        exists|h: int|
            {
                &&& 0 <= h
                &&& #[trigger] is_height(node, h)
                &&& h < lod_levels ==> lod::lod_layer(&node, lod_levels) == h
                &&& h >= lod_levels ==> lod::lod_layer(&node, lod_levels) == lod_levels
            },
{
    lod::law_deepest_is_leaf(node);
    let h = lod::deepest(node) - node.depth;
    assert forall|k: int| 0 <= k < node.leaves().len() implies (#[trigger] node.leaves()[k]).depth
        <= node.depth + h by {
        lod::law_no_leaf_deeper(node, k);
    }
    assert(is_height(node, h));
}

/// Whether the deepest leaf below a node lies `h` below it.
pub open spec fn is_height(node: OctreeNode, h: int) -> bool {
    &&& forall|k: int|
        0 <= k < node.leaves().len() ==> (#[trigger] node.leaves()[k]).depth <= node.depth + h
    &&& exists|k: int|
        0 <= k < node.leaves().len() && (#[trigger] node.leaves()[k]).depth == node.depth + h
}

/// The part of a mesh for a material draws the faces of that material, and paints them with
/// the texture of that material: triangle `t` of every such face is in it, with its corners
/// as they are in the source, or the other way round where the placement mirrors. It has
/// the component of the mesh, and the factors that are asked for.
pub proof fn law_part_draws_its_faces(
    src: SourceMesh,
    textures: Seq<Option<Texture>>,
    place: Option<Placement>,
    settings: PartSettings,
    mat: usize,
    face: int,
    t: int,
    j: int,
)
    requires
        extract::has_face_materials(src),
        src.faces@.len() <= usize::MAX,
        0 <= face < src.faces@.len(),
        src.face_material@[face] as usize == mat,
        0 <= t < src.faces@[face].count - 2,
        0 <= j < 8,
        extract::extracted(
            src,
            place,
            extract::flips(place),
            extract::part_faces(src, mat),
        ).0.len() <= u32::MAX,
    ensures
        ({
            let p = extract::part_of(src, textures, place, settings, mat);
            &&& p is Some
            &&& (p->0).feature_gid == settings.feature_gid
            &&& (p->0).metallic_factor == settings.metallic.narrow()
            &&& (p->0).roughness_factor == settings.roughness.narrow()
            &&& !(p->0).flip_winding
            &&& mat < textures.len() ==> ((p->0).texture_uri is Some <==> textures[mat as int] is Some)
            &&& mat < textures.len() && textures[mat as int] is Some ==> {
                let x = textures[mat as int]->0;
                &&& (p->0).texture_uri == Some(x.name@)
                &&& (p->0).texture_bytes == Some(x.bytes@)
                &&& (p->0).texture_mime == Some(x.mime@)
                &&& (p->0).texture_has_alpha == x.has_alpha
            }
            &&& exists|at: int| #[trigger] draws_triangle(src, place, p->0, face, t, at, j)
        }),
{
    let flip = extract::flips(place);
    let faces = extract::part_faces(src, mat);
    extract::law_parts_share_faces(src, face as usize, mat);
    let k = choose|k: int| 0 <= k < faces.len() && faces[k] == face as usize;
    face_laws::law_face_fan(src, place, flip, faces, k, t, j);
    extract::law_extracted_sound(src, place, flip, faces);
    let e = extract::extracted(src, place, flip, faces);
    let at = 3 * (extract::face_triangles(src, faces.take(k)) + t);
    let p = extract::part_of(src, textures, place, settings, mat)->0;
    let (a, b, c) = (e.1[at] as int, e.1[at + 1] as int, e.1[at + 2] as int);
    assert(vertex_of(p, a) == e.0[a]);
    assert(vertex_of(p, b) == e.0[b]);
    assert(vertex_of(p, c) == e.0[c]);
    assert(draws_triangle(src, place, p, face, t, at, j));
}

/// Vertex `i` of a mesh.
pub open spec fn vertex_of(m: MeshView, i: int) -> Vertex {
    Vertex { position: m.positions[i], normal: m.normals[i], uv: m.uvs[i] }
}

/// Whether the indices of `m` from `at` on draw triangle `t` of a face, by attribute `j`.
pub open spec fn draws_triangle(
    src: SourceMesh,
    place: Option<Placement>,
    m: MeshView,
    face: int,
    t: int,
    at: int,
    j: int,
) -> bool {
    let begin = src.faces@[face].begin as int;
    let mirrored = place matches Some(x) && x.flip_winding;
    let (second, third) = if mirrored {
        (begin + t + 2, begin + t + 1)
    } else {
        (begin + t + 1, begin + t + 2)
    };
    &&& 0 <= at && at % 3 == 0 && at + 3 <= m.indices.len()
    &&& m.indices[at] < m.positions.len() && m.indices[at + 1] < m.positions.len() && m.indices[at
        + 2] < m.positions.len()
    &&& face_laws::drawn_with(src, place, vertex_of(m, m.indices[at] as int), begin, j)
    &&& face_laws::drawn_with(src, place, vertex_of(m, m.indices[at + 1] as int), second, j)
    &&& face_laws::drawn_with(src, place, vertex_of(m, m.indices[at + 2] as int), third, j)
}

} // verus!
