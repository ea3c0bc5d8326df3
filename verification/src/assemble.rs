//! The geometry of a tile put together from the meshes of its components.

use crate::b3dm;
use crate::boxes;
use crate::boxes::Bounds;
use crate::extract;
use crate::extract::{PartSettings, Placement, SourceMesh, Texture};
use crate::float::{F32, F64, INF32, NEG_INF32};
use crate::json;
use crate::json::Doc;
use crate::merge;
use crate::mesh;
use crate::mesh::{MeshData, MeshView, TileGeometry};
use crate::octree;
use crate::octree::OctreeNode;
use crate::order;
use crate::scenetree;
use crate::scenetree::{Frame, SceneMesh, Stand};
use vstd::prelude::*;

verus! {

/// A mesh of the model with all that its parts are made of.
pub struct ModelMesh {
    pub source: SourceMesh,
    /// The texture of each of its materials.
    pub textures: Vec<Option<Texture>>,
    pub place: Option<Placement>,
}

/// The meshes of a node's tile: those of its whole subtree, each once, in increasing
/// order.
pub fn node_mesh_ids(node: &OctreeNode) -> (r: Vec<usize>)
    ensures
        r@ == order::sorted_set(node.subtree_ids()),
        order::is_sorted_set(r@, node.subtree_ids()),
{
    let mut ids: Vec<usize> = Vec::new();
    node.collect_subtree_mesh_ids(&mut ids);
    proof {
        assert(ids@ =~= node.subtree_ids());
    }
    order::sorted_unique(&ids)
}

/// What all parts of mesh `gid` share.
pub open spec fn settings_of(metallic: F64, roughness: F64, gid: usize) -> PartSettings {
    PartSettings { metallic, roughness, feature_gid: gid }
}

/// The parts of one mesh.
pub open spec fn model_parts(
    m: ModelMesh,
    metallic: F64,
    roughness: F64,
    gid: usize,
) -> Seq<MeshView> {
    extract::parts_of(
        m.source,
        m.textures@,
        m.place,
        settings_of(metallic, roughness, gid),
        extract::material_numbers(m.source),
    )
}

/// The parts of the first `n` of `models`, which are the meshes `ids`, one mesh after
/// the other.
pub open spec fn all_parts(
    models: Seq<ModelMesh>,
    ids: Seq<usize>,
    metallic: F64,
    roughness: F64,
    n: nat,
) -> Seq<MeshView>
    decreases n,
{
    if n == 0 {
        Seq::empty()
    } else {
        all_parts(models, ids, metallic, roughness, (n - 1) as nat) + model_parts(
            models[n - 1],
            metallic,
            roughness,
            ids[n - 1],
        )
    }
}

/// The parts of `models`, which are the meshes `ids`.
pub fn gather_parts(
    models: &Vec<ModelMesh>,
    ids: &Vec<usize>,
    metallic: F64,
    roughness: F64,
) -> (r: Vec<MeshData>)
    requires
        models@.len() == ids@.len(),
        forall|i: int| 0 <= i < models@.len() ==> (#[trigger] models@[i]).source.wf(),
    ensures
        mesh::mesh_views(r@) == all_parts(models@, ids@, metallic, roughness, ids@.len()),
{
    let mut out: Vec<MeshData> = Vec::new();
    let mut k: usize = 0;
    proof {
        assert(mesh::mesh_views(out@) =~= Seq::empty());
    }
    while k < models.len()
        invariant
            k <= models@.len(),
            models@.len() == ids@.len(),
            forall|i: int| 0 <= i < models@.len() ==> (#[trigger] models@[i]).source.wf(),
            mesh::mesh_views(out@) == all_parts(models@, ids@, metallic, roughness, k as nat),
        decreases models@.len() - k,
    {
        let m: &ModelMesh = &models[k];
        let settings = PartSettings { metallic, roughness, feature_gid: ids[k] };
        let mut parts: Vec<MeshData> = extract::extract_mesh_parts(
            &m.source,
            &m.textures,
            &m.place,
            &settings,
        );
        let ghost before = out@;
        let ghost more = parts@;
        out.append(&mut parts);
        proof {
            assert(mesh::mesh_views(before + more) =~= mesh::mesh_views(before)
                + mesh::mesh_views(more));
        }
        k = k + 1;
    }
    out
}

/// The number of the component `gid` within a tile of the components `ids`; the first
/// where it is not among them.
pub open spec fn local_number(ids: Seq<usize>, gid: usize) -> u32 {
    if ids.contains(gid) {
        ids.index_of_first(gid)->0 as u32
    } else {
        0
    }
}

/// A part whose vertices all belong to its component.
pub open spec fn numbered_part(p: MeshView, ids: Seq<usize>) -> MeshView {
    MeshView {
        batch_ids: Seq::new(p.positions.len(), |i: int| local_number(ids, p.feature_gid)),
        ..p
    }
}

/// The parts, with the vertices of each belonging to its component.
pub open spec fn numbered_parts(parts: Seq<MeshView>, ids: Seq<usize>) -> Seq<MeshView> {
    Seq::new(parts.len(), |i: int| numbered_part(parts[i], ids))
}

/// Parts that are ready to be joined are so with their vertices numbered, too.
pub proof fn law_numbered_ready(parts: Seq<MeshView>, ids: Seq<usize>)
    requires
        merge::ready(parts),
    ensures
        merge::ready(numbered_parts(parts, ids)),
        merge::groupable(numbered_parts(parts, ids)),
{
    let all = numbered_parts(parts, ids);
    lemma_numbered_count(parts, ids);
    assert forall|i: int| 0 <= i < all.len() implies merge::in_reach(#[trigger] all[i]) by {
        assert(merge::in_reach(parts[i]));
        assert forall|k: int| 0 <= k < all[i].indices.len() implies (#[trigger] all[i].indices[k])
            < all[i].positions.len() by {
            assert(parts[i].indices[k] < parts[i].positions.len());
        }
    }
    merge::law_ready_groupable(all);
}

pub proof fn lemma_numbered_count(parts: Seq<MeshView>, ids: Seq<usize>)
    ensures
        mesh::vertex_count(numbered_parts(parts, ids)) == mesh::vertex_count(parts),
    decreases parts.len(),
{
    if parts.len() > 0 {
        let all = numbered_parts(parts, ids);
        assert(all.drop_last() =~= numbered_parts(parts.drop_last(), ids));
        lemma_numbered_count(parts.drop_last(), ids);
    }
}

/// The number of the component `gid` within the tile.
fn find_local(ids: &Vec<usize>, gid: usize) -> (r: u32)
    ensures
        r == local_number(ids@, gid),
{
    let mut i: usize = 0;
    while i < ids.len()
        invariant
            i <= ids@.len(),
            forall|k: int| 0 <= k < i ==> #[trigger] ids@[k] != gid,
        decreases ids@.len() - i,
    {
        if ids[i] == gid {
            proof {
                ids@.index_of_first_ensures(gid);
            }
            return i as u32;
        }
        i = i + 1;
    }
    0
}

/// Gives the vertices of a part the number of its component.
fn number_part(p: &mut MeshData, ids: &Vec<usize>)
    ensures
        final(p)@ == numbered_part(old(p)@, ids@),
{
    let local: u32 = find_local(ids, p.feature_gid);
    let n: usize = p.positions.len();
    let mut batch_ids: Vec<u32> = Vec::new();
    let mut i: usize = 0;
    while i < n
        invariant
            i <= n,
            batch_ids@ == Seq::new(i as nat, |k: int| local),
        decreases n - i,
    {
        batch_ids.push(local);
        i = i + 1;
        proof {
            assert(batch_ids@ =~= Seq::new(i as nat, |k: int| local));
        }
    }
    p.batch_ids = batch_ids;
    proof {
        assert(p@ =~= numbered_part(old(p)@, ids@));
    }
}

/// The names of the components `ids`.
pub open spec fn names_of(names: Seq<String>, ids: Seq<usize>) -> Seq<Seq<char>> {
    Seq::new(ids.len(), |i: int| names[ids[i] as int]@)
}

/// The geometry of a tile of the components `ids`: their parts, which share the
/// vertices' component numbers and are joined by texture, and the table of the
/// components. `names` holds the names of all components of the model.
pub fn assemble_tile(parts: Vec<MeshData>, ids: &Vec<usize>, names: &Vec<String>) -> (r: TileGeometry)
    requires
        octree::below(ids@, names@.len()),
        merge::groupable(numbered_parts(mesh::mesh_views(parts@), ids@)),
    ensures
        r.views() == merge::grouped(numbered_parts(mesh::mesh_views(parts@), ids@)),
        json::texts(r.batch_names@) == names_of(names@, ids@),
        r.batch_gids@ == ids@,
{
    let ghost start = mesh::mesh_views(parts@);
    let mut parts: Vec<MeshData> = parts;
    let mut i: usize = 0;
    let n: usize = parts.len();
    while i < n
        invariant
            i <= n,
            n == parts@.len(),
            start.len() == n,
            forall|k: int| 0 <= k < i ==> (#[trigger] parts@[k])@ == numbered_part(start[k], ids@),
            forall|k: int| i <= k < n ==> (#[trigger] parts@[k])@ == start[k],
        decreases n - i,
    {
        number_part(&mut parts[i], ids);
        i = i + 1;
    }
    proof {
        assert(mesh::mesh_views(parts@) =~= numbered_parts(start, ids@));
    }
    let meshes: Vec<MeshData> = merge::merge_meshes_by_texture(parts);
    let mut batch_names: Vec<String> = Vec::new();
    let mut k: usize = 0;
    while k < ids.len()
        invariant
            k <= ids@.len(),
            octree::below(ids@, names@.len()),
            batch_names@.len() == k,
            forall|j: int| 0 <= j < k ==> (#[trigger] batch_names@[j])@ == names@[ids@[j] as int]@,
        decreases ids@.len() - k,
    {
        batch_names.push(names[ids[k]].clone());
        k = k + 1;
    }
    proof {
        assert(json::texts(batch_names@) =~= names_of(names@, ids@));
    }
    TileGeometry { meshes, batch_names, batch_gids: mesh::copied(ids) }
}

proof fn lemma_position_count(ms: Seq<MeshView>)
    ensures
        mesh::all_positions(ms).len() == mesh::vertex_count(ms),
    decreases ms.len(),
{
    if ms.len() > 0 {
        lemma_position_count(ms.drop_last());
    }
}

/// The box around the geometry of a tile; `None` where there is nothing to draw, and
/// so no tile to write.
pub fn measure_tile(geometry: &TileGeometry) -> (r: Option<Bounds>)
    requires
        mesh::vertex_count(geometry.views()) <= usize::MAX,
        mesh::triangle_count(geometry.views()) <= usize::MAX,
    ensures
        r is Some <==> mesh::vertex_count(geometry.views()) > 0 && mesh::triangle_count(
            geometry.views(),
        ) > 0,
        r matches Some(b) ==> mesh::is_box(
            mesh::all_positions(geometry.views()),
            (b.min, b.max),
        ),
{
    if geometry.total_vertices() == 0 || geometry.total_triangles() == 0 {
        return None;
    }
    proof {
        lemma_position_count(geometry.views());
    }
    match geometry.compute_aabb_all() {
        Some((min, max)) => Some(Bounds { min, max }),
        None => None,
    }
}

/// The bounding volume of a tile, a box with a margin, holds every vertex of the tile.
pub proof fn law_volume_holds_vertices(points: Seq<[F32; 3]>, b: Bounds, v: int, k: int)
    requires
        mesh::is_box(points, (b.min, b.max)),
        forall|i: int, j: int|
            0 <= i < points.len() && 0 <= j < 3 ==> (#[trigger] points[i][j]).finite(),
        0 <= v < points.len(),
        0 <= k < 3,
    ensures
        boxes::widened(b).min[k].le(points[v][k]),
        points[v][k].le(boxes::widened(b).max[k]),
{
    assert forall|j: int| 0 <= j < 3 implies (#[trigger] b.min[j]).finite() && b.max[j].finite()
        && b.min[j].le(b.max[j]) by {
        assert((b.min, b.max).0[j] == mesh::lowest(points, j));
        assert(points[v][j].finite());
        mesh::law_box_holds(points, (b.min, b.max), v, j);
        lemma_extremes_finite(points, j);
    }
    boxes::law_widened_covers(b);
    assert(points[v][k].finite());
    mesh::law_box_holds(points, (b.min, b.max), v, k);
    assert(b.min[k].finite());
    assert(boxes::widened(b).min[k].le(b.min[k]));
}

proof fn lemma_extremes_finite(points: Seq<[F32; 3]>, k: int)
    requires
        points.len() > 0,
        forall|i: int| 0 <= i < points.len() ==> (#[trigger] points[i])[k].finite(),
    ensures
        mesh::lowest(points, k).finite(),
        mesh::highest(points, k).finite(),
    decreases points.len(),
{
    let rest = points.drop_last();
    let p = points.last()[k];
    assert(points[points.len() - 1][k].finite());
    p.lemma_between_infinities();
    if rest.len() > 0 {
        assert forall|i: int| 0 <= i < rest.len() implies (#[trigger] rest[i])[k].finite() by {
            assert(points[i][k].finite());
        }
        lemma_extremes_finite(rest, k);
    } else {
        assert(mesh::lowest(rest, k) == F32 { bits: INF32 });
        assert(mesh::highest(rest, k) == F32 { bits: NEG_INF32 });
    }
}

/// A vertex tells its component: its number leads, through the tile's table, to the
/// component of the mesh that the vertex is of.
pub proof fn law_vertex_component(part: MeshView, ids: Seq<usize>, v: int)
    requires
        ids.contains(part.feature_gid),
        ids.len() <= u32::MAX,
        0 <= v < part.positions.len(),
    ensures
        numbered_part(part, ids).batch_ids.len() == part.positions.len(),
        ids[numbered_part(part, ids).batch_ids[v] as int] == part.feature_gid,
{
    ids.index_of_first_ensures(part.feature_gid);
}

/// A component that is picked in a tile is found in the scene tree: the tree has an
/// entry for it, whose identifier and name are those in the row of the tile's table, and
/// whose sphere is around the component's box and no smaller than a centimetre.
pub proof fn law_picked_component_in_tree(
    meshes: Seq<SceneMesh>,
    f: Frame,
    s: Stand,
    names: Seq<String>,
    ids: Seq<usize>,
    k: int,
)
    requires
        names.len() == meshes.len(),
        forall|g: int| 0 <= g < names.len() ==> (#[trigger] names[g])@ == meshes[g].name@,
        octree::below(ids, names.len()),
        0 <= k < ids.len(),
        scenetree::mesh_box(meshes[ids[k] as int], f).min[0].finite(),
    ensures
        ({
            let entry = scenetree::element_doc(meshes[ids[k] as int], ids[k] as nat, f, s);
            let row = b3dm::id_texts(names_of(names, ids), ids)[k];
            let sphere = scenetree::sphere(scenetree::mesh_box(meshes[ids[k] as int], f), s);
            &&& scenetree::elements(meshes, f, s, meshes.len()).0.contains(entry)
            &&& entry->Obj_0[0] == ("id"@, Doc::Str(row))
            &&& entry->Obj_0[1] == ("name"@, Doc::Str(names_of(names, ids)[k]))
            &&& entry->Obj_0[2] == ("sphere"@, json::float_docs(sphere))
            &&& (F64 { bits: scenetree::LEAST_RADIUS }).le(sphere[3])
        }),
{
    scenetree::law_sphere_seen(scenetree::mesh_box(meshes[ids[k] as int], f), s);
    lemma_entry(meshes, f, s, meshes.len(), ids[k] as int);
}

proof fn lemma_entry(meshes: Seq<SceneMesh>, f: Frame, s: Stand, n: nat, g: int)
    requires
        n <= meshes.len(),
        0 <= g < n,
        scenetree::mesh_box(meshes[g], f).min[0].finite(),
    ensures
        scenetree::elements(meshes, f, s, n).0.contains(
            scenetree::element_doc(meshes[g], g as nat, f, s),
        ),
    decreases n,
{
    let before = scenetree::elements(meshes, f, s, (n - 1) as nat).0;
    let all = scenetree::elements(meshes, f, s, n).0;
    let entry = scenetree::element_doc(meshes[g], g as nat, f, s);
    if g == n - 1 {
        assert(all[all.len() - 1] == entry);
    } else {
        lemma_entry(meshes, f, s, (n - 1) as nat, g);
        let e = choose|e: int| 0 <= e < before.len() && before[e] == entry;
        assert(all[e] == entry);
    }
}

} // verus!
