//! Joining the meshes of a tile that share a texture, so that each texture is drawn
//! once.

use crate::float::F32;
use crate::mesh;
use crate::mesh::{MeshData, MeshView};
use vstd::prelude::*;

verus! {

/// The whole triangles of `indices`, each turned round.
pub open spec fn flipped(indices: Seq<u32>) -> Seq<u32> {
    Seq::new(
        indices.len() / 3 * 3,
        |i: int|
            indices[if i % 3 == 1 {
                i + 1
            } else if i % 3 == 2 {
                i - 1
            } else {
                i
            }],
    )
}

/// The indices in the order in which a mesh is drawn.
pub open spec fn drawn(m: MeshView) -> Seq<u32> {
    if m.flip_winding {
        flipped(m.indices)
    } else {
        m.indices
    }
}

/// The corners of triangle `t`, turned round.
proof fn lemma_turned(indices: Seq<u32>, t: int)
    requires
        0 <= t,
        3 * t + 3 <= indices.len(),
    ensures
        3 * t + 3 <= flipped(indices).len(),
        flipped(indices)[3 * t] == indices[3 * t],
        flipped(indices)[3 * t + 1] == indices[3 * t + 2],
        flipped(indices)[3 * t + 2] == indices[3 * t + 1],
{
    assert((3 * t) % 3 == 0 && (3 * t + 1) % 3 == 1 && (3 * t + 2) % 3 == 2);
    assert(t < indices.len() / 3);
}

/// The indices in the order in which a mesh is drawn.
pub fn drawn_indices(m: &MeshData) -> (r: Vec<u32>)
    ensures
        r@ == drawn(m@),
{
    if !m.flip_winding {
        return mesh::copied(&m.indices);
    }
    let mut out: Vec<u32> = Vec::new();
    let len: usize = m.indices.len();
    let n: usize = len / 3;
    let mut t: usize = 0;
    let ghost all = flipped(m.indices@);
    while t < n
        invariant
            t <= n,
            len == m.indices@.len(),
            n == len / 3,
            all == flipped(m.indices@),
            all.len() == 3 * n,
            out@ == all.take(3 * t),
        decreases n - t,
    {
        proof {
            lemma_turned(m.indices@, t as int);
        }
        out.push(m.indices[3 * t]);
        out.push(m.indices[3 * t + 2]);
        out.push(m.indices[3 * t + 1]);
        proof {
            assert(out@ =~= all.take(3 * (t + 1)));
        }
        t = t + 1;
    }
    proof {
        assert(flipped(m.indices@).take(3 * n) =~= flipped(m.indices@));
    }
    out
}

/// A mesh as the first of its group: its triangles in the order in which they are
/// drawn.
pub open spec fn opened(m: MeshView) -> MeshView {
    MeshView { indices: drawn(m), flip_winding: false, ..m }
}

/// A group with one more mesh.
pub open spec fn joined(g: MeshView, m: MeshView) -> MeshView {
    MeshView {
        positions: g.positions + m.positions,
        normals: g.normals + m.normals,
        uvs: g.uvs + m.uvs,
        batch_ids: g.batch_ids + m.batch_ids,
        indices: g.indices + mesh::shifted(drawn(m), g.positions.len()),
        name: g.name + "+"@ + m.name,
        ..g
    }
}

/// The first of `groups` with the texture `uri`; their number where there is none.
pub open spec fn group_of(groups: Seq<MeshView>, uri: Option<Seq<char>>) -> nat
    decreases groups.len(),
{
    if groups.len() == 0 {
        0
    } else {
        let rest = group_of(groups.drop_last(), uri);
        if rest < groups.len() - 1 || groups.last().texture_uri == uri {
            rest
        } else {
            groups.len()
        }
    }
}

/// The groups after one more mesh.
pub open spec fn grouped_with(groups: Seq<MeshView>, m: MeshView) -> Seq<MeshView> {
    let g = group_of(groups, m.texture_uri) as int;
    if g < groups.len() {
        groups.update(g, joined(groups[g], m))
    } else {
        groups.push(opened(m))
    }
}

/// The meshes joined by texture: one mesh for each, in the order in which the
/// textures first occur.
pub open spec fn grouped(meshes: Seq<MeshView>) -> Seq<MeshView>
    decreases meshes.len(),
{
    if meshes.len() == 0 {
        Seq::empty()
    } else {
        grouped_with(grouped(meshes.drop_last()), meshes.last())
    }
}

/// Whether the vertex numbers of the joined meshes fit 32 bits.
pub open spec fn groupable(meshes: Seq<MeshView>) -> bool
    decreases meshes.len(),
{
    if meshes.len() == 0 {
        true
    } else {
        let groups = grouped(meshes.drop_last());
        let g = group_of(groups, meshes.last().texture_uri) as int;
        groupable(meshes.drop_last()) && (g < groups.len() ==> mesh::shiftable(
            drawn(meshes.last()),
            groups[g].positions.len(),
        ))
    }
}

proof fn lemma_group_of(groups: Seq<MeshView>, uri: Option<Seq<char>>, g: int)
    requires
        0 <= g <= groups.len(),
        forall|j: int| 0 <= j < g ==> (#[trigger] groups[j]).texture_uri != uri,
        g < groups.len() ==> groups[g].texture_uri == uri,
    ensures
        group_of(groups, uri) == g,
    decreases groups.len(),
{
    if groups.len() > 0 {
        if g < groups.len() {
            lemma_group_of(groups.drop_last(), uri, g);
        } else {
            assert(groups[groups.len() - 1].texture_uri != uri);
            lemma_group_of(groups.drop_last(), uri, g - 1);
        }
    }
}

proof fn lemma_group_found(groups: Seq<MeshView>, uri: Option<Seq<char>>)
    ensures
        group_of(groups, uri) <= groups.len(),
        group_of(groups, uri) < groups.len() ==> groups[group_of(groups, uri) as int].texture_uri
            == uri,
        forall|j: int|
            0 <= j < group_of(groups, uri) ==> (#[trigger] groups[j]).texture_uri != uri,
    decreases groups.len(),
{
    if groups.len() > 0 {
        lemma_group_found(groups.drop_last(), uri);
        assert forall|j: int| 0 <= j < group_of(groups, uri) implies (#[trigger] groups[j]).texture_uri
            != uri by {
            if j < groups.len() - 1 {
                assert(groups.drop_last()[j] == groups[j]);
            }
        }
    }
}

/// Joins the meshes that share a texture. The triangles of a mesh that is drawn
/// turned round are turned in the result, which is drawn as it is.
pub fn merge_meshes_by_texture(meshes: Vec<MeshData>) -> (r: Vec<MeshData>)
    requires
        groupable(mesh::mesh_views(meshes@)),
    ensures
        mesh::mesh_views(r@) == grouped(mesh::mesh_views(meshes@)),
{
    let mut merged: Vec<MeshData> = Vec::new();
    let ghost views = mesh::mesh_views(meshes@);
    let mut i: usize = 0;
    proof {
        assert(mesh::mesh_views(merged@) =~= grouped(views.take(0)));
    }
    while i < meshes.len()
        invariant
            i <= meshes@.len(),
            views == mesh::mesh_views(meshes@),
            groupable(views),
            mesh::mesh_views(merged@) == grouped(views.take(i as int)),
        decreases meshes@.len() - i,
    {
        let m: &MeshData = &meshes[i];
        let ghost groups = mesh::mesh_views(merged@);
        proof {
            assert(views.take(i + 1).drop_last() =~= views.take(i as int));
            assert(views.take(i + 1).last() == m@);
            lemma_groupable_prefix(views, i + 1);
        }
        let mut g: usize = 0;
        while g < merged.len() && !mesh::same_text(&merged[g].texture_uri, &m.texture_uri)
            invariant
                g <= merged@.len(),
                groups == mesh::mesh_views(merged@),
                forall|j: int| 0 <= j < g ==> (#[trigger] groups[j]).texture_uri != m@.texture_uri,
            ensures
                g <= merged@.len(),
                forall|j: int| 0 <= j < g ==> (#[trigger] groups[j]).texture_uri != m@.texture_uri,
                g < merged@.len() ==> groups[g as int].texture_uri == m@.texture_uri,
            decreases merged@.len() - g,
        {
            proof {
                assert(groups[g as int] == merged@[g as int]@);
            }
            g = g + 1;
        }
        proof {
            lemma_group_of(groups, m@.texture_uri, g as int);
        }
        let order: Vec<u32> = drawn_indices(m);
        if g < merged.len() {
            proof {
                assert(groups[g as int] == merged@[g as int]@);
            }
            join(&mut merged[g], m, &order);
            proof {
                assert(mesh::mesh_views(merged@) =~= groups.update(
                    g as int,
                    joined(groups[g as int], m@),
                ));
            }
        } else {
            let mut first: MeshData = m.clone();
            first.indices = order;
            first.flip_winding = false;
            proof {
                assert(first@ == opened(m@));
            }
            merged.push(first);
            proof {
                assert(mesh::mesh_views(merged@) =~= groups.push(opened(m@)));
            }
        }
        i = i + 1;
    }
    proof {
        assert(views.take(i as int) =~= views);
    }
    merged
}

/// Appends the mesh `m`, drawn in the order `order`, to `dst`.
fn join(dst: &mut MeshData, m: &MeshData, order: &Vec<u32>)
    requires
        order@ == drawn(m@),
        mesh::shiftable(order@, old(dst)@.positions.len()),
    ensures
        final(dst)@ == joined(old(dst)@, m@),
{
    let ghost start = dst@;
    let ghost base = dst.positions@.len();
    let vbase: u64 = dst.positions.len() as u64;
    let mut k: usize = 0;
    let ghost all = mesh::shifted(order@, base);
    while k < order.len()
        invariant
            k <= order@.len(),
            vbase == base,
            all == mesh::shifted(order@, base),
            mesh::shiftable(order@, base),
            dst.indices@ == start.indices + all.take(k as int),
            dst@ == (MeshView { indices: dst.indices@, ..start }),
        decreases order@.len() - k,
    {
        proof {
            assert(order@[k as int] + base <= u32::MAX);
        }
        let x: u32 = (order[k] as u64 + vbase) as u32;
        dst.indices.push(x);
        k = k + 1;
        proof {
            assert(dst.indices@ =~= start.indices + all.take(k as int));
        }
    }
    proof {
        assert(all.take(k as int) =~= all);
    }
    mesh::append_copies(&mut dst.positions, &m.positions);
    mesh::append_copies(&mut dst.normals, &m.normals);
    mesh::append_copies(&mut dst.uvs, &m.uvs);
    mesh::append_copies(&mut dst.batch_ids, &m.batch_ids);
    dst.name.append("+");
    dst.name.append(m.name.as_str());
}

proof fn lemma_groupable_prefix(meshes: Seq<MeshView>, i: int)
    requires
        groupable(meshes),
        0 <= i <= meshes.len(),
    ensures
        groupable(meshes.take(i)),
    decreases meshes.len() - i,
{
    if i < meshes.len() {
        lemma_groupable_prefix(meshes, i + 1);
        assert(meshes.take(i + 1).drop_last() =~= meshes.take(i));
    } else {
        assert(meshes.take(i) =~= meshes);
    }
}

/// Whether the attributes of a mesh are of one length and its indices in range.
pub open spec fn sound(m: MeshView) -> bool {
    &&& m.normals.len() == m.positions.len()
    &&& m.uvs.len() == m.positions.len()
    &&& m.batch_ids.len() == m.positions.len()
    &&& forall|i: int| 0 <= i < m.indices.len() ==> (#[trigger] m.indices[i]) < m.positions.len()
}

/// Whether all meshes are sound.
pub open spec fn all_sound(meshes: Seq<MeshView>) -> bool {
    forall|i: int| 0 <= i < meshes.len() ==> sound(#[trigger] meshes[i])
}

/// A vertex with its attributes.
pub struct Corner {
    pub position: [F32; 3],
    pub normal: [F32; 3],
    pub uv: [F32; 2],
    pub batch_id: u32,
}

/// The vertex `v` of a mesh.
pub open spec fn corner(m: MeshView, v: int) -> Corner {
    Corner {
        position: m.positions[v],
        normal: m.normals[v],
        uv: m.uvs[v],
        batch_id: m.batch_ids[v],
    }
}

/// The vertices in the order in which the mesh draws them.
pub open spec fn drawing(m: MeshView) -> Seq<Corner> {
    Seq::new(drawn(m).len(), |i: int| corner(m, drawn(m)[i] as int))
}

/// The vertices that the meshes with the texture `uri` draw, in order.
pub open spec fn drawing_of(meshes: Seq<MeshView>, uri: Option<Seq<char>>) -> Seq<Corner>
    decreases meshes.len(),
{
    if meshes.len() == 0 {
        Seq::empty()
    } else {
        let rest = drawing_of(meshes.drop_last(), uri);
        if meshes.last().texture_uri == uri {
            rest + drawing(meshes.last())
        } else {
            rest
        }
    }
}

/// Whether no two meshes have the same texture.
pub open spec fn textures_differ(meshes: Seq<MeshView>) -> bool {
    forall|i: int, j: int|
        0 <= i < j < meshes.len() ==> (#[trigger] meshes[i]).texture_uri != (
        #[trigger] meshes[j]).texture_uri
}

proof fn lemma_opened(m: MeshView)
    requires
        sound(m),
    ensures
        sound(opened(m)),
        drawing(opened(m)) == drawing(m),
        opened(m).texture_uri == m.texture_uri,
{
    let o = opened(m);
    assert forall|i: int| 0 <= i < o.indices.len() implies (#[trigger] o.indices[i])
        < o.positions.len() by {
        lemma_drawn_sound(m, i);
    }
    assert(drawing(o) =~= drawing(m)) by {
        assert forall|i: int| 0 <= i < drawn(m).len() implies corner(o, drawn(m)[i] as int)
            == corner(m, drawn(m)[i] as int) by {}
    }
}

proof fn lemma_drawn_sound(m: MeshView, i: int)
    requires
        sound(m),
        0 <= i < drawn(m).len(),
    ensures
        drawn(m)[i] < m.positions.len(),
{
    if m.flip_winding {
        let n = m.indices.len() / 3;
        let j = if i % 3 == 1 {
            i + 1
        } else if i % 3 == 2 {
            i - 1
        } else {
            i
        };
        assert(0 <= j < m.indices.len());
        assert(m.indices[j] < m.positions.len());
    } else {
        assert(m.indices[i] < m.positions.len());
    }
}

proof fn lemma_joined(g: MeshView, m: MeshView)
    requires
        sound(g),
        !g.flip_winding,
        sound(m),
        g.positions.len() + m.positions.len() <= u32::MAX,
    ensures
        sound(joined(g, m)),
        drawing(joined(g, m)) == drawing(g) + drawing(m),
        mesh::shiftable(drawn(m), g.positions.len()),
{
    let r = joined(g, m);
    let base = g.positions.len();
    let moved = mesh::shifted(drawn(m), base);
    assert forall|i: int| 0 <= i < drawn(m).len() implies (#[trigger] drawn(m)[i]) + base
        <= u32::MAX && drawn(m)[i] < m.positions.len() by {
        lemma_drawn_sound(m, i);
    }
    assert forall|i: int| 0 <= i < r.indices.len() implies (#[trigger] r.indices[i])
        < r.positions.len() by {
        if i < g.indices.len() {
            assert(r.indices[i] == g.indices[i]);
            assert(g.indices[i] < g.positions.len());
        } else {
            let j = i - g.indices.len();
            assert(r.indices[i] == moved[j]);
            assert(drawn(m)[j] + base <= u32::MAX);
        }
    }
    let both = drawing(g) + drawing(m);
    assert(drawing(r).len() == both.len());
    assert forall|i: int| 0 <= i < both.len() implies drawing(r)[i] == both[i] by {
        if i < g.indices.len() {
            assert(r.indices[i] == g.indices[i]);
            assert(g.indices[i] < g.positions.len());
        } else {
            let j = i - g.indices.len();
            assert(r.indices[i] == moved[j]);
            assert(drawn(m)[j] + base <= u32::MAX);
            let v = drawn(m)[j] as int;
            assert(r.positions[base + v] == m.positions[v]);
            assert(r.normals[base + v] == m.normals[v]);
            assert(r.uvs[base + v] == m.uvs[v]);
            assert(r.batch_ids[base + v] == m.batch_ids[v]);
        }
    }
    assert(drawing(r) =~= both);
}

/// What is drawn with a texture, when one group changes.
proof fn lemma_drawing_update(
    groups: Seq<MeshView>,
    g: int,
    to: MeshView,
    uri: Option<Seq<char>>,
    more: Seq<Corner>,
)
    requires
        textures_differ(groups),
        0 <= g < groups.len(),
        to.texture_uri == groups[g].texture_uri,
        drawing(to) == drawing(groups[g]) + more,
    ensures
        drawing_of(groups.update(g, to), uri) == if uri == to.texture_uri {
            drawing_of(groups, uri) + more
        } else {
            drawing_of(groups, uri)
        },
    decreases groups.len(),
{
    let last = groups.len() - 1;
    let next = groups.update(g, to);
    if g == last {
        assert(next.drop_last() =~= groups.drop_last());
        if uri == to.texture_uri {
            assert(drawing_of(next, uri) =~= drawing_of(groups, uri) + more);
        }
    } else {
        assert(next.drop_last() =~= groups.drop_last().update(g, to));
        assert(textures_differ(groups.drop_last()));
        lemma_drawing_update(groups.drop_last(), g, to, uri, more);
        assert(groups[g].texture_uri != groups[last].texture_uri);
    }
}

/// Joining by texture changes nothing of what is drawn: for every texture, the
/// joined meshes draw the vertices that the separate meshes draw, in the same order.
/// The result has one mesh for each texture, drawn as it is, and all joined meshes
/// are sound.
pub proof fn law_merge_draws_the_same(meshes: Seq<MeshView>, uri: Option<Seq<char>>)
    requires
        all_sound(meshes),
        mesh::vertex_count(meshes) <= u32::MAX,
    ensures
        groupable(meshes),
        drawing_of(grouped(meshes), uri) == drawing_of(meshes, uri),
        textures_differ(grouped(meshes)),
        all_sound(grouped(meshes)),
        mesh::vertex_count(grouped(meshes)) == mesh::vertex_count(meshes),
        forall|i: int|
            0 <= i < grouped(meshes).len() ==> !(#[trigger] grouped(meshes)[i]).flip_winding,
    decreases meshes.len(),
{
    if meshes.len() > 0 {
        let rest = meshes.drop_last();
        let m = meshes.last();
        assert(meshes[meshes.len() - 1] == m);
        assert forall|i: int| 0 <= i < rest.len() implies sound(#[trigger] rest[i]) by {
            assert(meshes[i] == rest[i]);
        }
        law_merge_draws_the_same(rest, uri);
        let groups = grouped(rest);
        let g = group_of(groups, m.texture_uri) as int;
        lemma_group_found(groups, m.texture_uri);
        let next = grouped(meshes);
        if g < groups.len() {
            lemma_vertex_part(groups, g);
            let to = joined(groups[g], m);
            lemma_joined(groups[g], m);
            lemma_drawing_update(groups, g, to, uri, drawing(m));
            lemma_vertex_update(groups, g, to);
            assert(next == groups.update(g, to));
            assert forall|i: int| 0 <= i < next.len() implies sound(#[trigger] next[i]) && !next[i].flip_winding by {
                if i != g {
                    assert(next[i] == groups[i]);
                }
            }
            assert forall|i: int, j: int| 0 <= i < j < next.len() implies (#[trigger] next[i]).texture_uri != (#[trigger] next[j]).texture_uri by {
                assert(groups[i].texture_uri != groups[j].texture_uri);
            }
        } else {
            lemma_opened(m);
            assert(next == groups.push(opened(m)));
            assert(next.drop_last() =~= groups);
            assert forall|i: int| 0 <= i < next.len() implies sound(#[trigger] next[i]) && !next[i].flip_winding by {
                if i < groups.len() {
                    assert(next[i] == groups[i]);
                }
            }
            assert forall|i: int, j: int| 0 <= i < j < next.len() implies (#[trigger] next[i]).texture_uri != (#[trigger] next[j]).texture_uri by {
                if j < groups.len() {
                    assert(groups[i].texture_uri != groups[j].texture_uri);
                } else {
                    assert(groups[i].texture_uri != m.texture_uri);
                }
            }
        }
    }
}

pub proof fn lemma_vertex_part(meshes: Seq<MeshView>, g: int)
    requires
        0 <= g < meshes.len(),
    ensures
        meshes[g].positions.len() <= mesh::vertex_count(meshes),
    decreases meshes.len(),
{
    if g < meshes.len() - 1 {
        lemma_vertex_part(meshes.drop_last(), g);
    }
}

proof fn lemma_vertex_update(meshes: Seq<MeshView>, g: int, to: MeshView)
    requires
        0 <= g < meshes.len(),
    ensures
        mesh::vertex_count(meshes.update(g, to)) == mesh::vertex_count(meshes)
            - meshes[g].positions.len() + to.positions.len(),
    decreases meshes.len(),
{
    let next = meshes.update(g, to);
    if g < meshes.len() - 1 {
        lemma_vertex_update(meshes.drop_last(), g, to);
        assert(next.drop_last() =~= meshes.drop_last().update(g, to));
    } else {
        assert(next.drop_last() =~= meshes.drop_last());
    }
}

/// Whether the indices of a mesh are in range.
pub open spec fn in_reach(m: MeshView) -> bool {
    forall|i: int| 0 <= i < m.indices.len() ==> (#[trigger] m.indices[i]) < m.positions.len()
}

/// Whether all meshes have their indices in range, and 32 bits number all vertices.
pub open spec fn ready(meshes: Seq<MeshView>) -> bool {
    &&& mesh::vertex_count(meshes) <= u32::MAX
    &&& forall|i: int| 0 <= i < meshes.len() ==> in_reach(#[trigger] meshes[i])
}

/// Meshes that are ready can be joined.
pub proof fn law_ready_groupable(meshes: Seq<MeshView>)
    requires
        ready(meshes),
    ensures
        groupable(meshes),
        mesh::vertex_count(grouped(meshes)) == mesh::vertex_count(meshes),
    decreases meshes.len(),
{
    if meshes.len() > 0 {
        let rest = meshes.drop_last();
        let m = meshes.last();
        assert(meshes[meshes.len() - 1] == m);
        assert forall|i: int| 0 <= i < rest.len() implies in_reach(#[trigger] rest[i]) by {
            assert(meshes[i] == rest[i]);
        }
        law_ready_groupable(rest);
        let groups = grouped(rest);
        let g = group_of(groups, m.texture_uri) as int;
        lemma_group_found(groups, m.texture_uri);
        if g < groups.len() {
            lemma_vertex_part(groups, g);
            let to = joined(groups[g], m);
            lemma_vertex_update(groups, g, to);
            let order = drawn(m);
            let base = groups[g].positions.len();
            assert forall|i: int| 0 <= i < order.len() implies (#[trigger] order[i]) + base
                <= u32::MAX by {
                if m.flip_winding {
                    let j = if i % 3 == 1 {
                        i + 1
                    } else if i % 3 == 2 {
                        i - 1
                    } else {
                        i
                    };
                    assert(0 <= j < m.indices.len());
                    assert(m.indices[j] < m.positions.len());
                } else {
                    assert(m.indices[i] < m.positions.len());
                }
            }
        } else {
            assert(grouped(meshes).drop_last() =~= groups);
        }
    }
}

/// Whether all meshes have their indices in range, and 32 bits number all vertices.
pub fn are_ready(meshes: &Vec<MeshData>) -> (r: bool)
    ensures
        r == ready(mesh::mesh_views(meshes@)),
        r ==> groupable(mesh::mesh_views(meshes@)),
{
    let ghost views = mesh::mesh_views(meshes@);
    let mut total: u64 = 0;
    let mut i: usize = 0;
    while i < meshes.len()
        invariant
            i <= meshes@.len(),
            views == mesh::mesh_views(meshes@),
            total == mesh::vertex_count(views.take(i as int)),
            total <= u32::MAX,
            forall|k: int| 0 <= k < i ==> in_reach(#[trigger] views[k]),
        decreases meshes@.len() - i,
    {
        let m: &MeshData = &meshes[i];
        proof {
            assert(views[i as int] == m@);
            assert(views.take(i + 1).drop_last() =~= views.take(i as int));
            assert(views.take(i + 1).last() == m@);
            lemma_prefix_vertices(views, i + 1);
        }
        if m.positions.len() as u64 > u32::MAX as u64 - total {
            return false;
        }
        total = total + m.positions.len() as u64;
        let mut k: usize = 0;
        while k < m.indices.len()
            invariant
                k <= m.indices@.len(),
                i < views.len(),
                views == mesh::mesh_views(meshes@),
                views[i as int] == m@,
                forall|j: int| 0 <= j < k ==> (#[trigger] m.indices@[j]) < m.positions@.len(),
            decreases m.indices@.len() - k,
        {
            if m.indices[k] as u64 >= m.positions.len() as u64 {
                proof {
                    assert(!(views[i as int].indices[k as int] < m.positions@.len()));
                    assert(!in_reach(views[i as int]));
                }
                return false;
            }
            k = k + 1;
        }
        i = i + 1;
    }
    proof {
        assert(views.take(i as int) =~= views);
        law_ready_groupable(views);
    }
    true
}

proof fn lemma_prefix_vertices(meshes: Seq<MeshView>, i: int)
    requires
        0 <= i <= meshes.len(),
    ensures
        mesh::vertex_count(meshes.take(i)) <= mesh::vertex_count(meshes),
    decreases meshes.len() - i,
{
    if i < meshes.len() {
        lemma_prefix_vertices(meshes, i + 1);
        assert(meshes.take(i + 1).drop_last() =~= meshes.take(i));
    } else {
        assert(meshes.take(i) =~= meshes);
    }
}

} // verus!
