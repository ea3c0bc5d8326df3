//! What the tiles of a single layer hold when they are written.

use crate::assemble;
use crate::assemble::ModelMesh;
use crate::drawing_laws;
use crate::extract;
use crate::float::F64;
use crate::merge;
use crate::mesh;
use crate::mesh::MeshView;
use crate::octree;
use crate::octree::{Aabb, OctreeBuilder, OctreeNode};
use crate::octree_laws;
use crate::order;
use crate::pipeline;
use crate::tile_laws;
use crate::tiles;
use crate::tiles::Plan;
use vstd::prelude::*;

verus! {

/// The meshes `ids` of a model.
pub open spec fn picked(models: Seq<ModelMesh>, ids: Seq<usize>) -> Seq<ModelMesh> {
    Seq::new(ids.len(), |i: int| models[ids[i] as int])
}

/// The parts of the tile of the meshes `ids`.
pub open spec fn tile_parts(
    models: Seq<ModelMesh>,
    ids: Seq<usize>,
    metallic: F64,
    roughness: F64,
) -> Seq<MeshView> {
    assemble::all_parts(picked(models, ids), ids, metallic, roughness, ids.len())
}

/// The geometry of the tile of the meshes `ids`.
pub open spec fn tile_meshes(
    models: Seq<ModelMesh>,
    ids: Seq<usize>,
    metallic: F64,
    roughness: F64,
) -> Seq<MeshView> {
    merge::grouped(
        assemble::numbered_parts(tile_parts(models, ids, metallic, roughness), ids),
    )
}

/// Whether the tile of the meshes `ids` has anything to draw, and so is written.
pub open spec fn is_written(
    models: Seq<ModelMesh>,
    ids: Seq<usize>,
    metallic: F64,
    roughness: F64,
) -> bool {
    let ms = tile_meshes(models, ids, metallic, roughness);
    mesh::vertex_count(ms) > 0 && mesh::triangle_count(ms) > 0
}

/// Whether mesh `x` of a model yields a triangle.
pub open spec fn yields(models: Seq<ModelMesh>, x: usize, metallic: F64, roughness: F64) -> bool {
    mesh::triangle_count(
        assemble::model_parts(models[x as int], metallic, roughness, x),
    ) > 0
}

/// Whether 32 bits number the vertices of every tile.
pub open spec fn numberable(
    models: Seq<ModelMesh>,
    jobs: Seq<pipeline::JobView>,
    metallic: F64,
    roughness: F64,
) -> bool {
    forall|i: int|
        0 <= i < jobs.len() ==> mesh::vertex_count(
            tile_parts(models, (#[trigger] jobs[i]).ids, metallic, roughness),
        ) <= u32::MAX
}

/// An octree of all meshes of a model, whose triangles can be counted.
pub open spec fn of_model(
    builder: OctreeBuilder,
    tree: OctreeNode,
    bounds: Aabb,
    mesh_centers: Seq<[F64; 3]>,
    mesh_tris: Seq<u64>,
) -> bool {
    &&& mesh_centers.len() <= u32::MAX
    &&& mesh_centers.len() <= mesh_tris.len()
    &&& octree::triangles(mesh_tris, octree::first_ids(mesh_centers.len())) <= u64::MAX
    &&& tree.nodes().len() <= usize::MAX
    &&& builder.built(
        tree,
        bounds,
        octree::first_ids(mesh_centers.len()),
        mesh_centers,
        mesh_tris,
        0,
    )
}

proof fn lemma_alive(dead: Seq<bool>, n: nat)
    requires
        n <= dead.len(),
        n <= usize::MAX,
    ensures
        order::increasing(tiles::alive(dead, n)),
        forall|t: usize| #[trigger] tiles::alive(dead, n).contains(t) <==> t < n && !dead[t as int],
    decreases n,
{
    if n > 0 {
        let rest = tiles::alive(dead, (n - 1) as nat);
        let all = tiles::alive(dead, n);
        lemma_alive(dead, (n - 1) as nat);
        assert forall|i: int| 0 <= i < rest.len() implies #[trigger] rest[i] < n - 1 by {
            assert(rest.contains(rest[i]));
        }
        assert forall|t: usize| #[trigger] all.contains(t) <==> t < n && !dead[t as int] by {
            assert(rest.contains(t) <==> t < n - 1 && !dead[t as int]);
            if rest.contains(t) {
                let k = choose|k: int| 0 <= k < rest.len() && rest[k] == t;
                assert(all[k] == t);
            }
            if !dead[n - 1] {
                assert(all[rest.len() as int] == n - 1);
            }
        }
    }
}

proof fn lemma_filled_few(leaves: Seq<&OctreeNode>)
    ensures
        tiles::filled(leaves).len() <= leaves.len(),
    decreases leaves.len(),
{
    if leaves.len() > 0 {
        lemma_filled_few(leaves.drop_last());
    }
}

proof fn lemma_leaves_few(node: OctreeNode)
    ensures
        node.leaves().len() <= node.nodes().len(),
    decreases node, node.children@.len() + 1,
{
    if node.children@.len() > 0 {
        lemma_leaves_few_below(node, node.children@.len());
    }
}

proof fn lemma_leaves_few_below(node: OctreeNode, n: nat)
    requires
        n <= node.children@.len(),
    ensures
        node.leaves_below(n).len() <= node.nodes_below(n).len(),
    decreases node, n,
{
    if n > 0 {
        lemma_leaves_few_below(node, (n - 1) as nat);
        lemma_leaves_few(*node.children@[n - 1]);
    }
}

/// The tiles that are planned: each mesh is in one living tile.
proof fn lemma_planned(
    builder: OctreeBuilder,
    tree: OctreeNode,
    bounds: Aabb,
    mesh_centers: Seq<[F64; 3]>,
    mesh_tris: Seq<u64>,
    max_tri: u64,
)
    requires
        of_model(builder, tree, bounds, mesh_centers, mesh_tris),
    ensures
        ({
            let leaves = tiles::filled(tiles::leaf_refs(&tree));
            let start = tiles::seeded(leaves, mesh_tris);
            let small = order::order_of(start.tris, tiles::SMALL_TILE_TRIANGLES as int);
            let plan = tiles::planned(leaves, mesh_tris, max_tri);
            &&& leaves.len() <= usize::MAX
            &&& octree::below(small, leaves.len())
            &&& plan.wf(leaves.len())
            &&& plan.disjoint()
            &&& forall|x: usize| #[trigger] plan.holds_mesh(x) <==> x < mesh_centers.len()
        }),
{
    let leaves = tiles::filled(tiles::leaf_refs(&tree));
    let start = tiles::seeded(leaves, mesh_tris);
    let bound = tiles::SMALL_TILE_TRIANGLES as int;
    let small = order::order_of(start.tris, bound);
    lemma_filled_few(tiles::leaf_refs(&tree));
    lemma_leaves_few(tree);
    order::lemma_order_below_exists(start.tris, bound);
    assert forall|j: int| 0 <= j < small.len() implies #[trigger] small[j] < leaves.len() by {
        assert(small.contains(small[j]));
    }
    let centers = tiles::leaf_centers(leaves);
    tile_laws::law_each_mesh_in_one_tile(
        builder,
        tree,
        bounds,
        mesh_centers,
        mesh_tris,
        centers,
        small,
        max_tri,
    );
    tiles::law_merge_keeps_meshes(start, centers, small, max_tri);
}

/// A job of a single layer holds what its tile does.
proof fn lemma_job(leaves: Seq<&OctreeNode>, plan: Plan, i: int, x: usize)
    requires
        plan.wf(leaves.len()),
        leaves.len() <= usize::MAX,
        0 <= i < pipeline::single_jobs(leaves, plan).len(),
    ensures
        ({
            let t = tiles::alive(plan.dead, plan.dead.len())[i];
            let job = pipeline::single_jobs(leaves, plan)[i];
            &&& t < leaves.len()
            &&& job == pipeline::single_job(leaves, plan, t)
            &&& order::is_sorted_set(job.ids, plan.ids[t as int])
            &&& job.ids.contains(x) <==> plan.holds(t as int, x)
        }),
{
    let living = tiles::alive(plan.dead, plan.dead.len());
    lemma_alive(plan.dead, plan.dead.len());
    let t = living[i];
    assert(living.contains(t));
    tiles::lemma_sorted_set_exists(plan.ids[t as int]);
}

/// The block of parts of one mesh is among the parts of all.
proof fn lemma_block(
    models: Seq<ModelMesh>,
    ids: Seq<usize>,
    metallic: F64,
    roughness: F64,
    n: nat,
    k: int,
)
    requires
        0 <= k < n,
    ensures
        ({
            let all = assemble::all_parts(models, ids, metallic, roughness, n);
            let own = assemble::model_parts(models[k], metallic, roughness, ids[k]);
            exists|at: int|
                0 <= at && at + own.len() <= all.len() && #[trigger] all.subrange(
                    at,
                    at + own.len(),
                ) == own
        }),
    decreases n,
{
    let all = assemble::all_parts(models, ids, metallic, roughness, n);
    let rest = assemble::all_parts(models, ids, metallic, roughness, (n - 1) as nat);
    let own = assemble::model_parts(models[k], metallic, roughness, ids[k]);
    if k == n - 1 {
        let at = rest.len() as int;
        assert(all.subrange(at, at + own.len()) =~= own);
    } else {
        lemma_block(models, ids, metallic, roughness, (n - 1) as nat, k);
        let at = choose|at: int|
            0 <= at && at + own.len() <= rest.len() && #[trigger] rest.subrange(
                at,
                at + own.len(),
            ) == own;
        assert(all.subrange(at, at + own.len()) =~= rest.subrange(at, at + own.len()));
    }
}

proof fn lemma_some_triangle(ms: Seq<MeshView>) -> (i: int)
    requires
        mesh::triangle_count(ms) > 0,
    ensures
        0 <= i < ms.len(),
        ms[i].indices.len() >= 3,
    decreases ms.len(),
{
    if ms.last().indices.len() >= 3 {
        ms.len() - 1
    } else {
        lemma_some_triangle(ms.drop_last())
    }
}

proof fn lemma_count_triangle(ms: Seq<MeshView>, i: int)
    requires
        0 <= i < ms.len(),
        ms[i].indices.len() >= 3,
    ensures
        mesh::triangle_count(ms) > 0,
    decreases ms.len(),
{
    if i < ms.len() - 1 {
        lemma_count_triangle(ms.drop_last(), i);
    }
}

proof fn lemma_drawn_with(ms: Seq<MeshView>, i: int)
    requires
        0 <= i < ms.len(),
    ensures
        merge::drawing(ms[i]).len() <= merge::drawing_of(ms, ms[i].texture_uri).len(),
    decreases ms.len(),
{
    if i < ms.len() - 1 {
        lemma_drawn_with(ms.drop_last(), i);
    }
}

/// Where no two meshes share a texture, all that is drawn with one is drawn by one mesh.
proof fn lemma_drawn_by(ms: Seq<MeshView>, uri: Option<Seq<char>>) -> (i: int)
    requires
        merge::textures_differ(ms),
        merge::drawing_of(ms, uri).len() > 0,
    ensures
        0 <= i < ms.len(),
        merge::drawing_of(ms, uri) == merge::drawing(ms[i]),
    decreases ms.len(),
{
    let rest = ms.drop_last();
    let last = ms.len() - 1;
    assert(merge::textures_differ(rest));
    if merge::drawing_of(rest, uri).len() > 0 {
        let i = lemma_drawn_by(rest, uri);
        lemma_drawn_texture(rest, uri);
        let k = choose|k: int| 0 <= k < rest.len() && (#[trigger] rest[k]).texture_uri == uri;
        assert(ms[k].texture_uri != ms[last].texture_uri);
        i
    } else {
        assert(merge::drawing_of(ms, uri) =~= merge::drawing(ms[last]));
        last
    }
}

proof fn lemma_drawn_texture(ms: Seq<MeshView>, uri: Option<Seq<char>>)
    requires
        merge::drawing_of(ms, uri).len() > 0,
    ensures
        exists|k: int| 0 <= k < ms.len() && (#[trigger] ms[k]).texture_uri == uri,
    decreases ms.len(),
{
    if ms.last().texture_uri == uri {
        assert(ms[ms.len() - 1].texture_uri == uri);
    } else {
        lemma_drawn_texture(ms.drop_last(), uri);
        let k = choose|k: int|
            0 <= k < ms.len() - 1 && (#[trigger] ms.drop_last()[k]).texture_uri == uri;
        assert(ms[k].texture_uri == uri);
    }
}

/// A tile with a mesh that yields a triangle is written.
proof fn lemma_written(
    models: Seq<ModelMesh>,
    ids: Seq<usize>,
    metallic: F64,
    roughness: F64,
    x: usize,
)
    requires
        ids.contains(x),
        yields(models, x, metallic, roughness),
        mesh::vertex_count(tile_parts(models, ids, metallic, roughness)) <= u32::MAX,
    ensures
        is_written(models, ids, metallic, roughness),
{
    let parts = tile_parts(models, ids, metallic, roughness);
    let all = assemble::numbered_parts(parts, ids);
    let tile = tile_meshes(models, ids, metallic, roughness);
    let own = assemble::model_parts(models[x as int], metallic, roughness, x);
    let k = choose|k: int| 0 <= k < ids.len() && ids[k] == x;
    lemma_block(picked(models, ids), ids, metallic, roughness, ids.len(), k);
    let at = choose|at: int|
        0 <= at && at + own.len() <= parts.len() && #[trigger] parts.subrange(
            at,
            at + own.len(),
        ) == own;
    let j = lemma_some_triangle(own);
    let i = at + j;
    assert(parts.subrange(at, at + own.len())[j] == parts[i]);
    assert(all[i].indices == parts[i].indices);
    drawing_laws::law_parts_sound(picked(models, ids), ids, metallic, roughness);
    let uri = all[i].texture_uri;
    merge::law_merge_draws_the_same(all, uri);
    lemma_drawn_with(all, i);
    assert(merge::drawing(all[i]).len() >= 3) by {
        assert(all[i].indices.len() / 3 * 3 >= 3);
    }
    let g = lemma_drawn_by(tile, uri);
    assert(!tile[g].flip_winding);
    assert(tile[g].indices.len() >= 3);
    lemma_count_triangle(tile, g);
    assert(merge::sound(tile[g]));
    assert(tile[g].indices[0] < tile[g].positions.len());
    merge::lemma_vertex_part(tile, g);
}

/// Merging loses and doubles nothing: in the tiles of a single layer, every mesh that
/// yields a triangle is in the table of exactly one tile, and that tile is written.
pub proof fn law_written_once(
    builder: OctreeBuilder,
    tree: OctreeNode,
    bounds: Aabb,
    mesh_centers: Seq<[F64; 3]>,
    mesh_tris: Seq<u64>,
    megabytes: F64,
    models: Seq<ModelMesh>,
    metallic: F64,
    roughness: F64,
    x: usize,
)
    requires
        of_model(builder, tree, bounds, mesh_centers, mesh_tris),
        models.len() == mesh_centers.len(),
        x < models.len(),
        yields(models, x, metallic, roughness),
        numberable(
            models,
            pipeline::jobs_of(&tree, mesh_tris, 0, megabytes),
            metallic,
            roughness,
        ),
    ensures
        ({
            let jobs = pipeline::jobs_of(&tree, mesh_tris, 0, megabytes);
            &&& exists|i: int|
                0 <= i < jobs.len() && (#[trigger] jobs[i]).ids.contains(x) && is_written(
                    models,
                    jobs[i].ids,
                    metallic,
                    roughness,
                )
            &&& forall|i: int, j: int|
                0 <= i < jobs.len() && 0 <= j < jobs.len() && (#[trigger] jobs[i]).ids.contains(x)
                    && (#[trigger] jobs[j]).ids.contains(x) ==> i == j
        }),
{
    let max_tri = tiles::spec_triangle_budget(megabytes);
    let leaves = tiles::filled(tiles::leaf_refs(&tree));
    let plan = tiles::planned(leaves, mesh_tris, max_tri);
    let jobs = pipeline::jobs_of(&tree, mesh_tris, 0, megabytes);
    lemma_planned(builder, tree, bounds, mesh_centers, mesh_tris, max_tri);
    let living = tiles::alive(plan.dead, plan.dead.len());
    lemma_alive(plan.dead, plan.dead.len());
    assert(plan.holds_mesh(x));
    let t = choose|t: int| #[trigger] plan.holds(t, x);
    assert(living.contains(t as usize));
    let i = choose|i: int| 0 <= i < living.len() && living[i] == t as usize;
    lemma_job(leaves, plan, i, x);
    assert(jobs[i].ids.contains(x));
    lemma_written(models, jobs[i].ids, metallic, roughness, x);
    assert forall|i: int, j: int|
        0 <= i < jobs.len() && 0 <= j < jobs.len() && (#[trigger] jobs[i]).ids.contains(x) && (
        #[trigger] jobs[j]).ids.contains(x) implies i == j by {
        lemma_job(leaves, plan, i, x);
        lemma_job(leaves, plan, j, x);
        assert(plan.holds(living[i] as int, x) && plan.holds(living[j] as int, x));
        if i < j {
            assert(living[i] < living[j]);
        } else if j < i {
            assert(living[j] < living[i]);
        }
    }
}

proof fn lemma_gids(
    models: Seq<ModelMesh>,
    ids: Seq<usize>,
    metallic: F64,
    roughness: F64,
    n: nat,
    i: int,
)
    requires
        n <= ids.len(),
        0 <= i < assemble::all_parts(models, ids, metallic, roughness, n).len(),
    ensures
        ids.contains(assemble::all_parts(models, ids, metallic, roughness, n)[i].feature_gid),
    decreases n,
{
    let rest = assemble::all_parts(models, ids, metallic, roughness, (n - 1) as nat);
    if i < rest.len() {
        lemma_gids(models, ids, metallic, roughness, (n - 1) as nat, i);
    } else {
        let m = models[n - 1];
        lemma_part_gid(
            m,
            assemble::settings_of(metallic, roughness, ids[n - 1]),
            extract::material_numbers(m.source),
            i - rest.len(),
        );
        assert(ids[n - 1] == ids[n - 1]);
    }
}

proof fn lemma_part_gid(
    m: ModelMesh,
    settings: extract::PartSettings,
    mats: Seq<usize>,
    i: int,
)
    requires
        0 <= i < extract::parts_of(m.source, m.textures@, m.place, settings, mats).len(),
    ensures
        extract::parts_of(m.source, m.textures@, m.place, settings, mats)[i].feature_gid
            == settings.feature_gid,
    decreases mats.len(),
{
    let rest = extract::parts_of(m.source, m.textures@, m.place, settings, mats.drop_last());
    if i < rest.len() {
        lemma_part_gid(m, settings, mats.drop_last(), i);
    }
}

/// Increasing numbers below `n` are at most `n`.
proof fn lemma_few(ids: Seq<usize>, n: nat)
    requires
        order::increasing(ids),
        octree::below(ids, n),
    ensures
        ids.len() <= n,
{
    if ids.len() > 0 {
        lemma_at_least(ids, ids.len() - 1);
    }
}

proof fn lemma_at_least(ids: Seq<usize>, i: int)
    requires
        order::increasing(ids),
        0 <= i < ids.len(),
    ensures
        ids[i] >= i,
    decreases i,
{
    if i > 0 {
        lemma_at_least(ids, i - 1);
        assert(ids[i - 1] < ids[i]);
    }
}

/// Whether the components of all vertices are among the first `n`.
spec fn rows_below(ms: Seq<MeshView>, n: nat) -> bool {
    forall|g: int, v: int|
        0 <= g < ms.len() && 0 <= v < ms[g].batch_ids.len() ==> (#[trigger] ms[g].batch_ids[v]) < n
}

proof fn lemma_grouped_rows(ms: Seq<MeshView>, n: nat)
    requires
        rows_below(ms, n),
    ensures
        rows_below(merge::grouped(ms), n),
    decreases ms.len(),
{
    if ms.len() > 0 {
        let rest = ms.drop_last();
        let m = ms.last();
        assert forall|g: int, v: int|
            0 <= g < rest.len() && 0 <= v < rest[g].batch_ids.len() implies (
        #[trigger] rest[g].batch_ids[v]) < n by {
            assert(ms[g].batch_ids[v] < n);
        }
        lemma_grouped_rows(rest, n);
        let before = merge::grouped(rest);
        let all = merge::grouped(ms);
        let last = ms.len() - 1;
        assert forall|g: int, v: int|
            0 <= g < all.len() && 0 <= v < all[g].batch_ids.len() implies (
        #[trigger] all[g].batch_ids[v]) < n by {
            let to = merge::group_of(before, m.texture_uri) as int;
            if g == to && to < before.len() {
                let old_ids = before[g].batch_ids;
                if v < old_ids.len() {
                    assert(before[g].batch_ids[v] < n);
                } else {
                    assert(ms[last].batch_ids[v - old_ids.len()] < n);
                }
            } else if g < before.len() {
                assert(before[g].batch_ids[v] < n);
            } else {
                assert(ms[last].batch_ids[v] < n);
            }
        }
    }
}

/// The table of a tile of a single layer lists its meshes in increasing order, and the
/// number of every vertex is a row of it: that of the mesh which the vertex is of, both in
/// the parts and in what the tile draws of them.
pub proof fn law_rows_of_vertices(
    builder: OctreeBuilder,
    tree: OctreeNode,
    bounds: Aabb,
    mesh_centers: Seq<[F64; 3]>,
    mesh_tris: Seq<u64>,
    megabytes: F64,
    models: Seq<ModelMesh>,
    metallic: F64,
    roughness: F64,
    i: int,
)
    requires
        of_model(builder, tree, bounds, mesh_centers, mesh_tris),
        models.len() == mesh_centers.len(),
        0 <= i < pipeline::jobs_of(&tree, mesh_tris, 0, megabytes).len(),
        numberable(
            models,
            pipeline::jobs_of(&tree, mesh_tris, 0, megabytes),
            metallic,
            roughness,
        ),
    ensures
        ({
            let ids = pipeline::jobs_of(&tree, mesh_tris, 0, megabytes)[i].ids;
            let parts = tile_parts(models, ids, metallic, roughness);
            let tile = tile_meshes(models, ids, metallic, roughness);
            &&& order::increasing(ids)
            &&& octree::below(ids, models.len())
            &&& forall|p: int, v: int|
                0 <= p < parts.len() && 0 <= v < parts[p].positions.len() ==> {
                    let row = #[trigger] assemble::numbered_parts(parts, ids)[p].batch_ids[v];
                    row < ids.len() && ids[row as int] == parts[p].feature_gid
                }
            &&& forall|uri: Option<Seq<char>>|
                #[trigger] merge::drawing_of(tile, uri) == merge::drawing_of(
                    assemble::numbered_parts(parts, ids),
                    uri,
                )
            &&& forall|g: int, v: int|
                0 <= g < tile.len() && 0 <= v < tile[g].batch_ids.len() ==> (
                #[trigger] tile[g].batch_ids[v]) < ids.len()
        }),
{
    let max_tri = tiles::spec_triangle_budget(megabytes);
    let leaves = tiles::filled(tiles::leaf_refs(&tree));
    let plan = tiles::planned(leaves, mesh_tris, max_tri);
    let jobs = pipeline::jobs_of(&tree, mesh_tris, 0, megabytes);
    let ids = jobs[i].ids;
    lemma_planned(builder, tree, bounds, mesh_centers, mesh_tris, max_tri);
    lemma_job(leaves, plan, i, 0);
    assert forall|j: int| 0 <= j < ids.len() implies #[trigger] ids[j] < models.len() by {
        lemma_job(leaves, plan, i, ids[j]);
        let t = tiles::alive(plan.dead, plan.dead.len())[i] as int;
        assert(ids.contains(ids[j]));
        assert(plan.holds(t, ids[j]));
        assert(plan.holds_mesh(ids[j]));
    }
    lemma_few(ids, models.len());
    let parts = tile_parts(models, ids, metallic, roughness);
    let all = assemble::numbered_parts(parts, ids);
    let tile = tile_meshes(models, ids, metallic, roughness);
    assert forall|p: int, v: int| 0 <= p < parts.len() && 0 <= v < parts[p].positions.len() implies {
        let row = #[trigger] all[p].batch_ids[v];
        row < ids.len() && ids[row as int] == parts[p].feature_gid
    } by {
        lemma_gids(picked(models, ids), ids, metallic, roughness, ids.len(), p);
        assemble::law_vertex_component(parts[p], ids, v);
        ids.index_of_first_ensures(parts[p].feature_gid);
    }
    drawing_laws::law_parts_sound(picked(models, ids), ids, metallic, roughness);
    assert forall|uri: Option<Seq<char>>| #[trigger] merge::drawing_of(tile, uri)
        == merge::drawing_of(all, uri) by {
        merge::law_merge_draws_the_same(all, uri);
    }
    assert(rows_below(all, ids.len())) by {
        assert forall|g: int, v: int|
            0 <= g < all.len() && 0 <= v < all[g].batch_ids.len() implies (
        #[trigger] all[g].batch_ids[v]) < ids.len() by {
            assert(all[g].batch_ids.len() == parts[g].positions.len());
        }
    }
    lemma_grouped_rows(all, ids.len());
}

proof fn lemma_total_remove(s: Seq<usize>, w: spec_fn(usize) -> nat, k: int)
    requires
        0 <= k < s.len(),
    ensures
        octree_laws::total(s, w) == octree_laws::total(s.remove(k), w) + w(s[k]),
    decreases s.len(),
{
    if k == s.len() - 1 {
        assert(s.remove(k) =~= s.drop_last());
    } else {
        lemma_total_remove(s.drop_last(), w, k);
        assert(s.remove(k).drop_last() =~= s.drop_last().remove(k));
        assert(s.remove(k).last() == s.last());
    }
}

/// The weight of meshes does not depend on their order.
proof fn lemma_total_same(a: Seq<usize>, b: Seq<usize>, w: spec_fn(usize) -> nat)
    requires
        a.no_duplicates(),
        b.no_duplicates(),
        forall|x: usize| #[trigger] a.contains(x) <==> b.contains(x),
    ensures
        octree_laws::total(a, w) == octree_laws::total(b, w),
    decreases a.len(),
{
    if a.len() == 0 {
        if b.len() > 0 {
            assert(b.contains(b[0]));
            assert(a.contains(b[0]));
        }
    } else {
        let x = a.last();
        let rest = a.drop_last();
        assert(a[a.len() - 1] == x);
        assert(a.contains(x));
        let k = choose|k: int| 0 <= k < b.len() && b[k] == x;
        let less = b.remove(k);
        assert forall|y: usize| #[trigger] rest.contains(y) <==> less.contains(y) by {
            if rest.contains(y) {
                let i = choose|i: int| 0 <= i < rest.len() && rest[i] == y;
                assert(a[i] == y);
                assert(a.contains(y));
                assert(y != x);
                let j = choose|j: int| 0 <= j < b.len() && b[j] == y;
                if j < k {
                    assert(less[j] == y);
                } else {
                    assert(less[j - 1] == y);
                }
            }
            if less.contains(y) {
                let j = choose|j: int| 0 <= j < less.len() && less[j] == y;
                let o = if j < k {
                    j
                } else {
                    j + 1
                };
                assert(b[o] == y);
                assert(b.contains(y));
                assert(a.contains(y));
                assert(y != x) by {
                    assert(b[o] != b[k]);
                }
                let i = choose|i: int| 0 <= i < a.len() && a[i] == y;
                assert(rest[i] == y);
            }
        }
        assert(less.no_duplicates()) by {
            assert forall|i: int, j: int|
                0 <= i < less.len() && 0 <= j < less.len() && i != j implies less[i] != less[j] by {
                let p = if i < k {
                    i
                } else {
                    i + 1
                };
                let q = if j < k {
                    j
                } else {
                    j + 1
                };
                assert(b[p] != b[q]);
            }
        }
        lemma_total_same(rest, less, w);
        lemma_total_remove(b, w, k);
    }
}

proof fn lemma_triangles_same(tris: Seq<u64>, a: Seq<usize>, b: Seq<usize>)
    requires
        a.no_duplicates(),
        b.no_duplicates(),
        forall|x: usize| #[trigger] a.contains(x) <==> b.contains(x),
    ensures
        octree::triangles(tris, a) == octree::triangles(tris, b),
{
    let w = tile_laws::triangle_weight(tris);
    lemma_total_same(a, b, w);
    tile_laws::lemma_triangle_total(tris, a);
    tile_laws::lemma_triangle_total(tris, b);
}

/// Whether the triangles of the living tiles are those of their meshes, of which none
/// occurs twice.
spec fn counted(plan: Plan, tris: Seq<u64>) -> bool {
    forall|i: int|
        0 <= i < plan.ids.len() && !plan.dead[i] ==> (#[trigger] plan.ids[i]).no_duplicates()
            && plan.tris[i] == octree::triangles(tris, plan.ids[i])
}

/// Whether each tile is as it was, or holds no more than `max_tri` triangles.
spec fn within_limit(plan: Plan, start: Plan, max_tri: u64) -> bool {
    forall|i: int|
        0 <= i < plan.ids.len() ==> (#[trigger] plan.ids[i] == start.ids[i] && plan.tris[i]
            == start.tris[i]) || plan.tris[i] <= max_tri
}

#[verifier::rlimit(60)]
#[verifier::spinoff_prover]
proof fn lemma_merged_counted(
    plan: Plan,
    start: Plan,
    centers: Seq<[F64; 3]>,
    tris: Seq<u64>,
    s: int,
    max_tri: u64,
)
    requires
        plan.wf(centers.len()),
        plan.disjoint(),
        0 <= s < centers.len(),
        counted(plan, tris),
        within_limit(plan, start, max_tri),
    ensures
        counted(plan.merged(centers, s, max_tri), tris),
        within_limit(plan.merged(centers, s, max_tri), start, max_tri),
{
    plan.lemma_host(centers, s, max_tri, centers.len());
    let host = plan.host_of(centers, s, max_tri, centers.len()).0;
    let next = plan.merged(centers, s, max_tri);
    if !plan.dead[s] && host is Some {
        let b = host->0;
        let joint = plan.ids[b] + plan.ids[s];
        tiles::lemma_sorted_set_exists(joint);
        let sorted = order::sorted_set(joint);
        assert(plan.ids[b].no_duplicates() && plan.ids[s].no_duplicates());
        assert(joint.no_duplicates()) by {
            assert forall|i: int, j: int|
                0 <= i < joint.len() && 0 <= j < joint.len() && i != j implies joint[i]
                != joint[j] by {
                let n = plan.ids[b].len();
                if joint[i] == joint[j] {
                    let x = joint[i];
                    if i < n && j >= n {
                        assert(plan.ids[b][i] == x && plan.ids[s][j - n] == x);
                        assert(plan.holds(b, x) && plan.holds(s, x));
                    } else if j < n && i >= n {
                        assert(plan.ids[b][j] == x && plan.ids[s][i - n] == x);
                        assert(plan.holds(b, x) && plan.holds(s, x));
                    } else if i < n {
                        assert(plan.ids[b][i] == plan.ids[b][j]);
                    } else {
                        assert(plan.ids[s][i - n] == plan.ids[s][j - n]);
                    }
                }
            }
        }
        assert(sorted.no_duplicates()) by {
            assert forall|i: int, j: int|
                0 <= i < sorted.len() && 0 <= j < sorted.len() && i != j implies sorted[i]
                != sorted[j] by {
                if i < j {
                    assert(sorted[i] < sorted[j]);
                } else {
                    assert(sorted[j] < sorted[i]);
                }
            }
        }
        lemma_triangles_same(tris, sorted, joint);
        octree::lemma_triangles_add(tris, plan.ids[b], plan.ids[s]);
        assert forall|i: int| 0 <= i < next.ids.len() && !next.dead[i] implies (
        #[trigger] next.ids[i]).no_duplicates() && next.tris[i] == octree::triangles(
            tris,
            next.ids[i],
        ) by {
            assert(!plan.dead[i]);
            assert(plan.ids[i].no_duplicates());
        }
        assert forall|i: int| 0 <= i < next.ids.len() implies (#[trigger] next.ids[i]
            == start.ids[i] && next.tris[i] == start.tris[i]) || next.tris[i] <= max_tri by {
            let was = plan.ids[i];
            assert((was == start.ids[i] && plan.tris[i] == start.tris[i]) || plan.tris[i]
                <= max_tri);
        }
    } else {
        assert(next == plan);
    }
}

proof fn lemma_all_counted(
    start: Plan,
    centers: Seq<[F64; 3]>,
    tris: Seq<u64>,
    small: Seq<usize>,
    max_tri: u64,
)
    requires
        start.wf(centers.len()),
        start.disjoint(),
        octree::below(small, centers.len()),
        counted(start, tris),
    ensures
        counted(start.merged_all(centers, small, max_tri), tris),
        within_limit(start.merged_all(centers, small, max_tri), start, max_tri),
    decreases small.len(),
{
    if small.len() > 0 {
        let rest = small.drop_last();
        assert(small[small.len() - 1] < centers.len());
        assert(octree::below(rest, centers.len()));
        lemma_all_counted(start, centers, tris, rest, max_tri);
        tiles::law_merge_keeps_meshes(start, centers, rest, max_tri);
        lemma_merged_counted(
            start.merged_all(centers, rest, max_tri),
            start,
            centers,
            tris,
            small.last() as int,
            max_tri,
        );
    }
}

proof fn lemma_occurs_once(ids: Seq<usize>)
    requires
        forall|x: usize| #[trigger] octree_laws::occurrences(ids, x) <= 1,
    ensures
        ids.no_duplicates(),
{
    assert forall|i: int, j: int| 0 <= i < ids.len() && 0 <= j < ids.len() && i != j implies ids[i]
        != ids[j] by {
        if ids[i] == ids[j] {
            let x = ids[i];
            let w = octree_laws::mark(x);
            let lo = if i < j {
                i
            } else {
                j
            };
            let hi = if i < j {
                j
            } else {
                i
            };
            lemma_total_remove(ids, w, hi);
            let less = ids.remove(hi);
            assert(less[lo] == x);
            lemma_total_remove(less, w, lo);
            assert(octree_laws::occurrences(ids, x) <= 1);
        }
    }
}

/// A tile of a single layer holds just the meshes of its leaf, or, where it took in
/// others, no more triangles than the limit.
pub proof fn law_absorbed_within_limit(
    builder: OctreeBuilder,
    tree: OctreeNode,
    bounds: Aabb,
    mesh_centers: Seq<[F64; 3]>,
    mesh_tris: Seq<u64>,
    megabytes: F64,
    i: int,
)
    requires
        of_model(builder, tree, bounds, mesh_centers, mesh_tris),
        0 <= i < pipeline::jobs_of(&tree, mesh_tris, 0, megabytes).len(),
    ensures
        ({
            let job = pipeline::jobs_of(&tree, mesh_tris, 0, megabytes)[i];
            order::is_sorted_set(job.ids, job.node.mesh_ids@) || octree::triangles(
                mesh_tris,
                job.ids,
            ) <= tiles::spec_triangle_budget(megabytes)
        }),
{
    let max_tri = tiles::spec_triangle_budget(megabytes);
    let leaves = tiles::filled(tiles::leaf_refs(&tree));
    let centers = tiles::leaf_centers(leaves);
    let start = tiles::seeded(leaves, mesh_tris);
    let small = order::order_of(start.tris, tiles::SMALL_TILE_TRIANGLES as int);
    let plan = tiles::planned(leaves, mesh_tris, max_tri);
    let job = pipeline::jobs_of(&tree, mesh_tris, 0, megabytes)[i];
    lemma_planned(builder, tree, bounds, mesh_centers, mesh_tris, max_tri);
    tile_laws::law_built_countable(builder, tree, bounds, mesh_centers, mesh_tris);
    tile_laws::law_each_mesh_in_one_tile(
        builder,
        tree,
        bounds,
        mesh_centers,
        mesh_tris,
        centers,
        Seq::empty(),
        max_tri,
    );
    assert(start.merged_all(centers, Seq::<usize>::empty(), max_tri) == start);
    assert(counted(start, mesh_tris)) by {
        assert forall|k: int| 0 <= k < start.ids.len() && !start.dead[k] implies (
        #[trigger] start.ids[k]).no_duplicates() && start.tris[k] == octree::triangles(
            mesh_tris,
            start.ids[k],
        ) by {
            assert(leaves[k].mesh_ids@ == start.ids[k]);
            assert forall|x: usize| #[trigger] octree_laws::occurrences(start.ids[k], x) <= 1 by {
                tile_laws::lemma_leaf_occurrences(
                    builder,
                    tree,
                    bounds,
                    mesh_centers,
                    mesh_tris,
                    k,
                    x,
                );
            }
            lemma_occurs_once(start.ids[k]);
        }
    }
    lemma_all_counted(start, centers, mesh_tris, small, max_tri);
    lemma_job(leaves, plan, i, 0);
    let t = tiles::alive(plan.dead, plan.dead.len())[i] as int;
    lemma_alive(plan.dead, plan.dead.len());
    assert(tiles::alive(plan.dead, plan.dead.len()).contains(t as usize));
    assert(plan.ids[t].no_duplicates());
    assert(job.ids.no_duplicates()) by {
        assert forall|a: int, b: int|
            0 <= a < job.ids.len() && 0 <= b < job.ids.len() && a != b implies job.ids[a]
            != job.ids[b] by {
            if a < b {
                assert(job.ids[a] < job.ids[b]);
            } else {
                assert(job.ids[b] < job.ids[a]);
            }
        }
    }
    lemma_triangles_same(mesh_tris, job.ids, plan.ids[t]);
    assert((plan.ids[t] == start.ids[t] && plan.tris[t] == start.tris[t]) || plan.tris[t] <= max_tri);
}

} // verus!
