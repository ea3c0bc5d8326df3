//! From the octree to the tiles that are to be written, and from those that were to the
//! tileset.

use crate::assemble;
use crate::boxes::Bounds;
use crate::float::{F32, F64};
use crate::json::Json;
use crate::lod;
use crate::mesh::MeshView;
use crate::octree::{Aabb, OctreeNode};
use crate::order;
use crate::simplify;
use crate::tiles;
use crate::tiles::{Plan, TileSet};
use crate::tileset;
use crate::tileset::NodeTiles;
use vstd::prelude::*;

verus! {

/// A tile that is to be written.
pub struct TileJob<'a> {
    /// The node that the tile is of.
    pub node: &'a OctreeNode,
    /// The number of the node: among the leaves that hold a mesh where the tiles are of
    /// a single layer, otherwise among all nodes of the octree.
    pub number: usize,
    /// The meshes of the tile, in increasing order.
    pub ids: Vec<usize>,
    /// The share of the triangles that is to be left; all are where it is zero.
    pub keep_ratio: F32,
}

/// What a [`TileJob`] says.
#[verifier::ext_equal]
pub struct JobView {
    pub node: OctreeNode,
    pub number: usize,
    pub ids: Seq<usize>,
    pub keep_ratio: F32,
}

impl View for TileJob<'_> {
    type V = JobView;

    open spec fn view(&self) -> JobView {
        JobView {
            node: *self.node,
            number: self.number,
            ids: self.ids@,
            keep_ratio: self.keep_ratio,
        }
    }
}

/// What the jobs say.
pub open spec fn job_views(jobs: Seq<TileJob>) -> Seq<JobView> {
    Seq::new(jobs.len(), |i: int| jobs[i]@)
}

/// The job for tile `t` of a single layer.
pub open spec fn single_job(leaves: Seq<&OctreeNode>, plan: Plan, t: usize) -> JobView {
    JobView {
        node: *leaves[t as int],
        number: t,
        ids: order::sorted_set(plan.ids[t as int]),
        keep_ratio: F32 { bits: 0 },
    }
}

/// The jobs for a single layer: one for each tile that was not merged away.
pub open spec fn single_jobs(leaves: Seq<&OctreeNode>, plan: Plan) -> Seq<JobView> {
    let living = tiles::alive(plan.dead, plan.dead.len());
    Seq::new(living.len(), |i: int| single_job(leaves, plan, living[i]))
}

/// The job for a node of the levels of detail.
pub open spec fn level_job(n: (usize, &OctreeNode, F32), levels: u32) -> JobView {
    JobView {
        node: *n.1,
        number: n.0,
        ids: order::sorted_set(n.1.subtree_ids()),
        keep_ratio: lod::kept_share(lod::lod_layer(n.1, levels)),
    }
}

/// The jobs for levels of detail: one for each node that holds a mesh somewhere below.
pub open spec fn level_jobs(tree: &OctreeNode, levels: u32) -> Seq<JobView> {
    let nodes = lod::lod_nodes(tree, 0, levels);
    Seq::new(nodes.len(), |i: int| level_job(nodes[i], levels))
}

/// The jobs for an octree: a single layer where no level is asked for.
pub open spec fn jobs_of(
    tree: &OctreeNode,
    mesh_tris: Seq<u64>,
    levels: u32,
    megabytes: F64,
) -> Seq<JobView> {
    if levels == 0 {
        let leaves = tiles::filled(tiles::leaf_refs(tree));
        single_jobs(
            leaves,
            tiles::planned(leaves, mesh_tris, tiles::spec_triangle_budget(megabytes)),
        )
    } else {
        level_jobs(tree, levels)
    }
}

proof fn lemma_alive_below(dead: Seq<bool>, n: nat, i: int)
    requires
        n <= dead.len(),
        dead.len() <= usize::MAX,
        0 <= i < tiles::alive(dead, n).len(),
    ensures
        tiles::alive(dead, n)[i] < n,
    decreases n,
{
    if n > 0 {
        let rest = tiles::alive(dead, (n - 1) as nat);
        if i < rest.len() {
            lemma_alive_below(dead, (n - 1) as nat, i);
        }
    }
}

/// The jobs for a single layer.
fn plan_single<'a>(tree: &'a OctreeNode, mesh_tris: &[u64], max_tri: u64) -> (r: Vec<TileJob<'a>>)
    requires
        tiles::countable(tiles::filled(tiles::leaf_refs(tree)), mesh_tris@),
    ensures
        job_views(r@) == single_jobs(
            tiles::filled(tiles::leaf_refs(tree)),
            tiles::planned(tiles::filled(tiles::leaf_refs(tree)), mesh_tris@, max_tri),
        ),
{
    let leaves: Vec<&'a OctreeNode> = tiles::filled_leaves(tree);
    let set: TileSet = tiles::plan_tiles(&leaves, mesh_tris, max_tri);
    let living: Vec<usize> = tiles::living_tiles(&set);
    let ghost plan = set.plan();
    let mut out: Vec<TileJob<'a>> = Vec::new();
    let mut i: usize = 0;
    proof {
        assert(set.dead.len() == set.dead@.len());
        assert forall|k: int| 0 <= k < living@.len() implies #[trigger] living@[k] < leaves@.len() by {
            lemma_alive_below(plan.dead, plan.dead.len(), k);
        }
    }
    while i < living.len()
        invariant
            i <= living@.len(),
            set.wf(),
            set.plan() == plan,
            set.centers@.len() == leaves@.len(),
            forall|k: int| 0 <= k < living@.len() ==> #[trigger] living@[k] < leaves@.len(),
            out@.len() == i,
            forall|k: int|
                0 <= k < i ==> (#[trigger] out@[k])@ == single_job(leaves@, plan, living@[k]),
        decreases living@.len() - i,
    {
        let t: usize = living[i];
        let job = TileJob {
            node: leaves[t],
            number: t,
            ids: order::sorted_unique(&set.ids[t]),
            keep_ratio: F32 { bits: 0 },
        };
        proof {
            assert(plan.ids[t as int] == set.ids@[t as int]@);
            assert(job@ =~= single_job(leaves@, plan, t));
        }
        out.push(job);
        i = i + 1;
    }
    proof {
        assert(job_views(out@) =~= single_jobs(leaves@, plan));
    }
    out
}

/// The jobs for levels of detail.
fn plan_levels<'a>(tree: &'a OctreeNode, levels: u32) -> (r: Vec<TileJob<'a>>)
    requires
        tree.nodes().len() <= usize::MAX,
    ensures
        job_views(r@) == level_jobs(tree, levels),
{
    let mut nodes: Vec<(usize, &'a OctreeNode, F32)> = Vec::new();
    lod::collect_lod_nodes(tree, 0, levels, &mut nodes);
    proof {
        assert(nodes@ =~= lod::lod_nodes(tree, 0, levels));
    }
    let mut out: Vec<TileJob<'a>> = Vec::new();
    let mut i: usize = 0;
    while i < nodes.len()
        invariant
            i <= nodes@.len(),
            out@.len() == i,
            forall|k: int| 0 <= k < i ==> (#[trigger] out@[k])@ == level_job(nodes@[k], levels),
        decreases nodes@.len() - i,
    {
        let (number, node, _): (usize, &'a OctreeNode, F32) = nodes[i];
        let keep_ratio: F32 = lod::kept_share(lod::lod_layer(node, levels));
        let job = TileJob { node, number, ids: assemble::node_mesh_ids(node), keep_ratio };
        proof {
            assert(job@ =~= level_job(nodes@[i as int], levels));
        }
        out.push(job);
        i = i + 1;
    }
    proof {
        assert(job_views(out@) =~= level_jobs(tree, levels));
    }
    out
}

/// The tiles that are to be written for an octree, of at most about `megabytes` each: a
/// single layer where no level of detail below the finest is asked for.
pub fn plan_jobs<'a>(
    tree: &'a OctreeNode,
    mesh_tris: &[u64],
    levels: u32,
    megabytes: F64,
) -> (r: Vec<TileJob<'a>>)
    requires
        tree.nodes().len() <= usize::MAX,
        tiles::countable(tiles::filled(tiles::leaf_refs(tree)), mesh_tris@),
    ensures
        job_views(r@) == jobs_of(tree, mesh_tris@, levels, megabytes),
{
    if levels == 0 {
        plan_single(tree, mesh_tris, tiles::triangle_budget(megabytes))
    } else {
        plan_levels(tree, levels)
    }
}

/// Whether the jobs are of different nodes below `n`.
pub open spec fn numbered(jobs: Seq<JobView>, n: nat) -> bool {
    &&& forall|i: int| 0 <= i < jobs.len() ==> (#[trigger] jobs[i]).number < n
    &&& forall|i: int, j: int|
        0 <= i < j < jobs.len() ==> (#[trigger] jobs[i]).number < (#[trigger] jobs[j]).number
}

/// Whether `t` holds the tiles that were written, each under the number of its node:
/// its bounds and the name of its file.
pub open spec fn tabulates(
    t: NodeTiles,
    jobs: Seq<JobView>,
    written: Seq<Option<Bounds>>,
) -> bool {
    &&& forall|i: int|
        0 <= i < jobs.len() ==> t.bounds_of((#[trigger] jobs[i]).number as int) == written[i]
            && t.file_of(jobs[i].number as int) == if written[i] is Some {
            Some(tileset::level_file(jobs[i].node.depth as nat, i as nat))
        } else {
            None
        }
    &&& forall|m: int|
        0 <= m && (forall|i: int| 0 <= i < jobs.len() ==> (#[trigger] jobs[i]).number != m)
            ==> (#[trigger] t.bounds_of(m)) is None && t.file_of(m) is None
}

/// The cells of the nodes of the jobs.
pub open spec fn job_cells(jobs: Seq<JobView>) -> Seq<Aabb> {
    Seq::new(jobs.len(), |i: int| jobs[i].node.bounds)
}

/// The tiles that were written, under the numbers of their nodes.
fn tabulate(
    jobs: &Vec<TileJob>,
    written: &Vec<Option<Bounds>>,
    levels: u32,
    n: usize,
) -> (r: NodeTiles)
    requires
        levels > 0,
        written@.len() == jobs@.len(),
        numbered(job_views(jobs@), n as nat),
    ensures
        tabulates(r, job_views(jobs@), written@),
{
    let ghost views = job_views(jobs@);
    let mut bounds: Vec<Option<Bounds>> = Vec::new();
    let mut files: Vec<Option<String>> = Vec::new();
    let mut m: usize = 0;
    let mut i: usize = 0;
    while m < n
        invariant
            m <= n,
            i <= jobs@.len(),
            levels > 0,
            views == job_views(jobs@),
            written@.len() == jobs@.len(),
            numbered(views, n as nat),
            bounds@.len() == m,
            files@.len() == m,
            forall|k: int| 0 <= k < i ==> (#[trigger] views[k]).number < m,
            forall|k: int| i <= k < views.len() ==> (#[trigger] views[k]).number >= m,
            forall|k: int|
                0 <= k < i ==> bounds@[(#[trigger] views[k]).number as int] == written@[k]
                    && file_text(files@[views[k].number as int]) == if written@[k] is Some {
                    Some(tileset::level_file(views[k].node.depth as nat, k as nat))
                } else {
                    None
                },
            forall|p: int|
                0 <= p < m && (forall|k: int| 0 <= k < views.len() ==> (#[trigger] views[k]).number
                    != p) ==> (#[trigger] bounds@[p]) is None && files@[p] is None,
        decreases n - m,
    {
        let ghost old_bounds = bounds@;
        let ghost old_files = files@;
        if i < jobs.len() && jobs[i].number == m {
            proof {
                assert(views[i as int].number == m);
            }
            let given: Option<Bounds> = written[i];
            let file: Option<String> = match given {
                Some(_) => Some(tileset::file_name(levels, jobs[i].node.depth, i)),
                None => None,
            };
            bounds.push(given);
            files.push(file);
            i = i + 1;
            proof {
                assert forall|k: int| i <= k < views.len() implies (#[trigger] views[k]).number
                    >= m + 1 by {
                    assert(views[i - 1].number < views[k].number);
                }
            }
        } else {
            bounds.push(None);
            files.push(None);
            proof {
                assert forall|k: int| i <= k < views.len() implies (#[trigger] views[k]).number
                    >= m + 1 by {
                    assert(views[i as int].number == jobs@[i as int].number);
                    if i < k {
                        assert(views[i as int].number < views[k].number);
                    }
                }
            }
        }
        proof {
            assert forall|k: int| 0 <= k < i && views[k].number < m implies bounds@[(
            #[trigger] views[k]).number as int] == written@[k] by {
                assert(bounds@[views[k].number as int] == old_bounds[views[k].number as int]);
            }
            assert forall|p: int|
                0 <= p < m + 1 && (forall|k: int|
                    0 <= k < views.len() ==> (#[trigger] views[k]).number != p) implies (
            #[trigger] bounds@[p]) is None && files@[p] is None by {
                if p < m {
                    assert(bounds@[p] == old_bounds[p]);
                    assert(files@[p] == old_files[p]);
                }
            }
        }
        m = m + 1;
    }
    let r = NodeTiles { bounds, files };
    proof {
        assert(i == views.len()) by {
            if i < views.len() {
                assert(views[i as int].number < n);
            }
        }
    }
    r
}

/// The name of a file, where there is one.
pub open spec fn file_text(f: Option<String>) -> Option<Seq<char>> {
    match f {
        Some(s) => Some(s@),
        None => None,
    }
}

/// The tileset of the tiles that were written: `written` holds the bounds of each, in
/// the order of the jobs, or `None` where there was nothing to draw. `None` where there
/// is no tile at all among levels of detail.
pub fn finish_tileset(
    tree: &OctreeNode,
    jobs: &Vec<TileJob>,
    written: &Vec<Option<Bounds>>,
    levels: u32,
) -> (r: Option<Json>)
    requires
        tree.nodes().len() <= usize::MAX,
        written@.len() == jobs@.len(),
        levels > 0 ==> numbered(job_views(jobs@), tree.nodes().len()),
    ensures
        levels == 0 ==> (r matches Some(j) && j@ == tileset::tileset_doc(
            job_cells(job_views(jobs@)),
            written@,
        )),
        levels > 0 ==> exists|t: NodeTiles|
            {
                &&& #[trigger] tabulates(t, job_views(jobs@), written@)
                &&& match r {
                    None => tileset::levels_doc(tree, t) is None,
                    Some(j) => tileset::levels_doc(tree, t) == Some(j@),
                }
            },
{
    if levels == 0 {
        let mut cells: Vec<Aabb> = Vec::new();
        let mut i: usize = 0;
        while i < jobs.len()
            invariant
                i <= jobs@.len(),
                cells@.len() == i,
                forall|k: int| 0 <= k < i ==> #[trigger] cells@[k] == jobs@[k].node.bounds,
            decreases jobs@.len() - i,
        {
            cells.push(jobs[i].node.bounds);
            i = i + 1;
        }
        proof {
            assert(cells@ =~= job_cells(job_views(jobs@)));
        }
        Some(tileset::build_tileset(&cells, written))
    } else {
        let n: usize = lod::node_count(tree);
        let t: NodeTiles = tabulate(jobs, written, levels, n);
        tileset::build_tileset_hierarchical(tree, &t)
    }
}

proof fn lemma_level_numbers(node: &OctreeNode, number: int, levels: u32, i: int)
    requires
        0 <= number,
        number + node.nodes().len() <= usize::MAX,
        0 <= i < lod::lod_nodes(node, number, levels).len(),
    ensures
        number <= lod::lod_nodes(node, number, levels)[i].0 < number + node.nodes().len(),
        forall|j: int|
            i < j < lod::lod_nodes(node, number, levels).len() ==> lod::lod_nodes(
                node,
                number,
                levels,
            )[i].0 < (#[trigger] lod::lod_nodes(node, number, levels)[j]).0,
    decreases node, node.children@.len() + 1,
{
    let all = lod::lod_nodes(node, number, levels);
    let n = node.children@.len();
    let below = lod::lod_nodes_below(node, number, levels, n);
    if i > 0 {
        lemma_level_numbers_below(node, number, levels, n, i - 1);
        assert(all[i] == below[i - 1]);
    }
    assert forall|j: int| i < j < all.len() implies all[i].0 < (#[trigger] all[j]).0 by {
        assert(all[j] == below[j - 1]);
        lemma_level_numbers_below(node, number, levels, n, j - 1);
        if i > 0 {
            lemma_level_numbers_below(node, number, levels, n, i - 1);
        }
    }
}

proof fn lemma_level_numbers_below(node: &OctreeNode, number: int, levels: u32, n: nat, i: int)
    requires
        0 <= number,
        number + 1 + node.nodes_below(n).len() <= usize::MAX,
        n <= node.children@.len(),
        0 <= i < lod::lod_nodes_below(node, number, levels, n).len(),
    ensures
        number < lod::lod_nodes_below(node, number, levels, n)[i].0 < number + 1
            + node.nodes_below(n).len(),
        forall|j: int|
            i < j < lod::lod_nodes_below(node, number, levels, n).len() ==> lod::lod_nodes_below(
                node,
                number,
                levels,
                n,
            )[i].0 < (#[trigger] lod::lod_nodes_below(node, number, levels, n)[j]).0,
    decreases node, n,
{
    let all = lod::lod_nodes_below(node, number, levels, n);
    let head = lod::lod_nodes_below(node, number, levels, (n - 1) as nat);
    let child = &*node.children@[n - 1];
    let at = number + 1 + node.nodes_below((n - 1) as nat).len();
    let tail = lod::lod_nodes(child, at, levels);
    if i < head.len() {
        lemma_level_numbers_below(node, number, levels, (n - 1) as nat, i);
        assert(all[i] == head[i]);
    } else {
        lemma_level_numbers(child, at, levels, i - head.len());
        assert(all[i] == tail[i - head.len()]);
    }
    assert forall|j: int| i < j < all.len() implies all[i].0 < (#[trigger] all[j]).0 by {
        if j < head.len() {
            assert(all[j] == head[j]);
        } else {
            assert(all[j] == tail[j - head.len()]);
            if i < head.len() {
                lemma_level_numbers(child, at, levels, j - head.len());
            }
        }
    }
}

/// The tiles of levels of detail are of different nodes of the octree.
pub proof fn law_level_jobs_numbered(tree: &OctreeNode, levels: u32)
    requires
        tree.nodes().len() <= usize::MAX,
    ensures
        numbered(level_jobs(tree, levels), tree.nodes().len()),
{
    let jobs = level_jobs(tree, levels);
    let nodes = lod::lod_nodes(tree, 0, levels);
    assert forall|i: int| 0 <= i < jobs.len() implies (#[trigger] jobs[i]).number
        < tree.nodes().len() by {
        lemma_level_numbers(tree, 0, levels, i);
    }
    assert forall|i: int, j: int| 0 <= i < j < jobs.len() implies (#[trigger] jobs[i]).number < (
    #[trigger] jobs[j]).number by {
        lemma_level_numbers(tree, 0, levels, i);
        assert(nodes[i].0 < nodes[j].0);
    }
}

/// The tile of a leaf keeps all triangles, at whatever depth the leaf stands.
pub proof fn law_leaf_jobs_kept_whole(n: (usize, &OctreeNode, F32), levels: u32, m: MeshView)
    requires
        n.1.children@.len() == 0,
    ensures
        level_job(n, levels).keep_ratio == (F32 { bits: 0 }),
        !simplify::reduces(m, level_job(n, levels).keep_ratio),
{
    assert(lod::deepest(*n.1) == n.1.depth);
    (F32 { bits: 0 }).lemma_zero();
}

/// The tiles of levels of detail are thinned out the more, the coarser they are: that of a
/// leaf keeps all, that of any other node a share that a mesh is reduced to, and no larger
/// one than that of a child above the finest level.
pub proof fn law_level_jobs_thin_out(
    n: (usize, &OctreeNode, F32),
    c: (usize, &OctreeNode, F32),
    i: int,
    levels: u32,
    m: MeshView,
)
    requires
        lod::layered(*n.1),
        levels > 0,
        0 <= i < n.1.children@.len(),
        *c.1 == *n.1.children@[i],
        m.positions.len() > 0,
        m.indices.len() > 0,
    ensures
        simplify::reduces(m, level_job(n, levels).keep_ratio),
        c.1.children@.len() == 0 ==> !simplify::reduces(m, level_job(c, levels).keep_ratio),
        c.1.children@.len() > 0 ==> level_job(n, levels).keep_ratio.le(
            level_job(c, levels).keep_ratio,
        ),
{
    lod::law_levels_rise(*n.1, levels);
    lod::law_levels_rise(*c.1, levels);
    let coarse = lod::lod_layer(n.1, levels);
    let fine = lod::lod_layer(c.1, levels);
    lod::law_shares_shrink(coarse, coarse);
    assert(lod::lod_layer(&*n.1.children@[i], levels) <= coarse);
    if c.1.children@.len() > 0 {
        lod::law_shares_shrink(fine, coarse);
    }
}

} // verus!
