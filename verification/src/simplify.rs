//! Simplification of meshes for the coarser levels of detail.
//!
//! What a mesh is to be reduced to is decided here, and the mesh is rebuilt here
//! from the triangles that are left. Which triangles those are is decided by
//! `meshopt`, between the two.

use crate::float::{F32, ONE32};
use crate::merge;
use crate::mesh;
use crate::mesh::{MeshData, MeshView};
use vstd::prelude::*;

verus! {

/// Pattern of 0.05.
pub const BASE_ERROR: u32 = 0x3d4c_cccd;

/// What a mesh is to be reduced to.
#[derive(Clone, Copy, Debug, PartialEq, Eq, Structural)]
pub struct SimplifyRequest {
    /// How many indices are to be left.
    pub target_count: usize,
    /// The error that is allowed, relative to the size of the mesh.
    pub target_error: F32,
}

/// Whether a mesh is reduced at all.
pub open spec fn reduces(m: MeshView, keep_ratio: F32) -> bool {
    !(F32 { bits: ONE32 }).le(keep_ratio) && !keep_ratio.le(F32 { bits: 0 }) && m.positions.len() > 0
        && m.indices.len() > 0
}

/// What a mesh of `count` indices is to be reduced to.
pub open spec fn spec_request(count: usize, keep_ratio: F32) -> SimplifyRequest {
    let kept = F32::from_uint(count as u64).times(keep_ratio).to_uint(usize::MAX as u64) / 3 * 3;
    SimplifyRequest {
        target_count: if kept < 12 {
            12
        } else {
            kept as usize
        },
        target_error: F32 { bits: BASE_ERROR }.over(keep_ratio).min(F32 { bits: ONE32 }),
    }
}

/// What `m` is to be reduced to where a share of `keep_ratio` of its triangles is to
/// be left; `None` where it stays as it is. The smaller the share, the larger the
/// error that is allowed.
pub fn simplify_request(m: &MeshData, keep_ratio: F32) -> (r: Option<SimplifyRequest>)
    ensures
        r == if reduces(m@, keep_ratio) {
            Some(spec_request(m@.indices.len() as usize, keep_ratio))
        } else {
            None
        },
{
    let one = F32 { bits: ONE32 };
    if one.le(keep_ratio) || keep_ratio.le(F32 { bits: 0 }) || m.positions.len() == 0
        || m.indices.len() == 0 {
        return None;
    }
    let kept: u64 = F32::from_uint(m.indices.len() as u64).times(keep_ratio).to_uint(
        usize::MAX as u64,
    ) / 3 * 3;
    let target_count: usize = if kept < 12 {
        12
    } else {
        kept as usize
    };
    let target_error: F32 = F32 { bits: BASE_ERROR }.over(keep_ratio).min(one);
    Some(SimplifyRequest { target_count, target_error })
}

/// The elements of `s`, each once, in the order in which they first occur.
pub open spec fn first_seen(s: Seq<u32>) -> Seq<u32>
    decreases s.len(),
{
    if s.len() == 0 {
        Seq::empty()
    } else {
        let rest = first_seen(s.drop_last());
        if rest.contains(s.last()) {
            rest
        } else {
            rest.push(s.last())
        }
    }
}

/// Whether `to` numbers the elements of `from` by the order in which they first
/// occur.
pub open spec fn renumbers(from: Seq<u32>, to: Seq<u32>) -> bool {
    to.len() == from.len() && forall|i: int|
        0 <= i < from.len() ==> (#[trigger] to[i]) < first_seen(from).len() && first_seen(
            from,
        )[to[i] as int] == from[i]
}

/// Whether all of `indices` are below `n`.
pub open spec fn in_range(indices: Seq<u32>, n: nat) -> bool {
    forall|i: int| 0 <= i < indices.len() ==> (#[trigger] indices[i]) < n
}

/// Whether all of `indices` are below `n`.
pub fn indices_in_range(indices: &Vec<u32>, n: usize) -> (r: bool)
    ensures
        r == in_range(indices@, n as nat),
{
    let mut i: usize = 0;
    while i < indices.len()
        invariant
            i <= indices@.len(),
            forall|k: int| 0 <= k < i ==> (#[trigger] indices@[k]) < n,
        decreases indices@.len() - i,
    {
        if indices[i] as u64 >= n as u64 {
            return false;
        }
        i = i + 1;
    }
    true
}

/// Drops the vertices that no index names, and sorts the others by their first use.
///
/// Calls `meshopt::optimize::optimize_vertex_fetch` on vertices of nine words. It
/// goes through the indices once: a vertex that has not been named before is copied
/// behind those copied so far, and every index becomes the place of its vertex's
/// copy.
#[verifier::external_body]
fn optimize_vertex_fetch(indices: &mut Vec<u32>, vertices: &Vec<[u32; 9]>) -> (r: Vec<[u32; 9]>)
    requires
        in_range(old(indices)@, vertices@.len()),
        vertices@.len() < u32::MAX,
    ensures
        renumbers(old(indices)@, final(indices)@),
        r@ == Seq::new(
            first_seen(old(indices)@).len(),
            |i: int| vertices@[first_seen(old(indices)@)[i] as int],
        ),
{
    meshopt::optimize::optimize_vertex_fetch(indices, vertices)
}

/// The words of vertex `v`: position, normal, texture coordinates, component. What
/// the mesh lacks is the upward normal, the texture's origin and component 0.
pub open spec fn words_of(m: MeshView, v: int) -> Seq<u32> {
    let p = m.positions[v];
    let n = normal_of(m, v);
    let t = uv_of(m, v);
    seq![
        p[0].bits,
        p[1].bits,
        p[2].bits,
        n[0].bits,
        n[1].bits,
        n[2].bits,
        t[0].bits,
        t[1].bits,
        batch_of(m, v),
    ]
}

/// The normal of vertex `v`, the upward one where the mesh has none.
pub open spec fn normal_of(m: MeshView, v: int) -> [F32; 3] {
    if v < m.normals.len() {
        m.normals[v]
    } else {
        mesh::spec_up()
    }
}

/// The texture coordinates of vertex `v`, zero where the mesh has none.
pub open spec fn uv_of(m: MeshView, v: int) -> [F32; 2] {
    if v < m.uvs.len() {
        m.uvs[v]
    } else {
        [F32 { bits: 0 }, F32 { bits: 0 }]
    }
}

/// The component of vertex `v`, zero where the mesh has none.
pub open spec fn batch_of(m: MeshView, v: int) -> u32 {
    if v < m.batch_ids.len() {
        m.batch_ids[v]
    } else {
        0
    }
}

/// Whether `r` is the mesh `m` with the triangles `indices`, without the vertices
/// that these do not use, the others in the order of their first use.
pub open spec fn is_compacted(m: MeshView, indices: Seq<u32>, r: MeshView) -> bool {
    let used = first_seen(indices);
    &&& renumbers(indices, r.indices)
    &&& r == MeshView {
        positions: Seq::new(used.len(), |i: int| m.positions[used[i] as int]),
        normals: Seq::new(used.len(), |i: int| normal_of(m, used[i] as int)),
        uvs: Seq::new(used.len(), |i: int| uv_of(m, used[i] as int)),
        batch_ids: Seq::new(used.len(), |i: int| batch_of(m, used[i] as int)),
        indices: r.indices,
        ..m
    }
}

/// The words of the vertices of `m`.
fn vertex_words(m: &MeshData) -> (r: Vec<[u32; 9]>)
    ensures
        r@.len() == m@.positions.len(),
        forall|v: int| 0 <= v < r@.len() ==> (#[trigger] r@[v])@ == words_of(m@, v),
{
    let mut out: Vec<[u32; 9]> = Vec::new();
    let mut v: usize = 0;
    while v < m.positions.len()
        invariant
            v <= m.positions@.len(),
            out@.len() == v,
            forall|k: int| 0 <= k < v ==> (#[trigger] out@[k])@ == words_of(m@, k),
        decreases m.positions@.len() - v,
    {
        let p: [F32; 3] = m.positions[v];
        let n: [F32; 3] = if v < m.normals.len() {
            m.normals[v]
        } else {
            mesh::up()
        };
        let t: [F32; 2] = if v < m.uvs.len() {
            m.uvs[v]
        } else {
            [F32 { bits: 0 }, F32 { bits: 0 }]
        };
        let b: u32 = if v < m.batch_ids.len() {
            m.batch_ids[v]
        } else {
            0
        };
        let w: [u32; 9] = [
            p[0].bits,
            p[1].bits,
            p[2].bits,
            n[0].bits,
            n[1].bits,
            n[2].bits,
            t[0].bits,
            t[1].bits,
            b,
        ];
        proof {
            assert(w@ =~= words_of(m@, v as int));
        }
        out.push(w);
        v = v + 1;
    }
    out
}

/// The mesh `m` with the triangles `indices`, without the vertices that these do not
/// use.
fn compact(m: &MeshData, indices: &Vec<u32>) -> (r: MeshData)
    requires
        in_range(indices@, m@.positions.len()),
        m@.positions.len() < u32::MAX,
    ensures
        is_compacted(m@, indices@, r@),
{
    let words: Vec<[u32; 9]> = vertex_words(m);
    let mut new_indices: Vec<u32> = mesh::copied(indices);
    let packed: Vec<[u32; 9]> = optimize_vertex_fetch(&mut new_indices, &words);
    let ghost used = first_seen(indices@);
    let mut positions: Vec<[F32; 3]> = Vec::new();
    let mut normals: Vec<[F32; 3]> = Vec::new();
    let mut uvs: Vec<[F32; 2]> = Vec::new();
    let mut batch_ids: Vec<u32> = Vec::new();
    let mut i: usize = 0;
    proof {
        lemma_first_seen_range(indices@, m@.positions.len());
    }
    while i < packed.len()
        invariant
            i <= packed@.len(),
            used == first_seen(indices@),
            in_range(used, m@.positions.len()),
            words@.len() == m@.positions.len(),
            forall|v: int| 0 <= v < words@.len() ==> (#[trigger] words@[v])@ == words_of(m@, v),
            packed@ == Seq::new(used.len(), |k: int| words@[used[k] as int]),
            positions@ == Seq::new(i as nat, |k: int| m@.positions[used[k] as int]),
            normals@ == Seq::new(i as nat, |k: int| normal_of(m@, used[k] as int)),
            uvs@ == Seq::new(i as nat, |k: int| uv_of(m@, used[k] as int)),
            batch_ids@ == Seq::new(i as nat, |k: int| batch_of(m@, used[k] as int)),
        decreases packed@.len() - i,
    {
        let w: [u32; 9] = packed[i];
        let ghost v = used[i as int] as int;
        let p: [F32; 3] = [F32 { bits: w[0] }, F32 { bits: w[1] }, F32 { bits: w[2] }];
        let n: [F32; 3] = [F32 { bits: w[3] }, F32 { bits: w[4] }, F32 { bits: w[5] }];
        let t: [F32; 2] = [F32 { bits: w[6] }, F32 { bits: w[7] }];
        proof {
            assert(used[i as int] < m@.positions.len());
            assert(w@ == words_of(m@, v));
            assert(w@[0] == w[0] && w@[1] == w[1] && w@[2] == w[2] && w@[3] == w[3] && w@[4] == w[4]
                && w@[5] == w[5] && w@[6] == w[6] && w@[7] == w[7] && w@[8] == w[8]);
            assert(p =~= m@.positions[v]);
            assert(n =~= normal_of(m@, v));
            assert(t =~= uv_of(m@, v));
        }
        positions.push(p);
        normals.push(n);
        uvs.push(t);
        batch_ids.push(w[8]);
        i = i + 1;
        proof {
            assert(positions@ =~= Seq::new(i as nat, |k: int| m@.positions[used[k] as int]));
            assert(normals@ =~= Seq::new(i as nat, |k: int| normal_of(m@, used[k] as int)));
            assert(uvs@ =~= Seq::new(i as nat, |k: int| uv_of(m@, used[k] as int)));
            assert(batch_ids@ =~= Seq::new(i as nat, |k: int| batch_of(m@, used[k] as int)));
        }
    }
    MeshData {
        positions,
        normals,
        uvs,
        indices: new_indices,
        name: m.name.clone(),
        flip_winding: m.flip_winding,
        texture_uri: mesh::copied_text(&m.texture_uri),
        texture_bytes: mesh::copied_bytes(&m.texture_bytes),
        texture_mime: mesh::copied_text(&m.texture_mime),
        texture_has_alpha: m.texture_has_alpha,
        metallic_factor: m.metallic_factor,
        roughness_factor: m.roughness_factor,
        feature_gid: m.feature_gid,
        batch_ids,
    }
}

/// Whether the triangles `reply` that simplifying `m` left are of use: some, and
/// fewer than there were.
pub open spec fn useful(m: MeshView, reply: Seq<u32>) -> bool {
    0 < reply.len() < m.indices.len()
}

/// The mesh `m` reduced to a share of `keep_ratio` of its triangles, where `reply` is
/// what the simplifier left of its indices. Where nothing is to be reduced, or the
/// simplifier left nothing or removed nothing, the mesh stays as it is.
pub fn simplify_mesh(m: &MeshData, keep_ratio: F32, reply: &Vec<u32>) -> (r: MeshData)
    requires
        reduces(m@, keep_ratio) && useful(m@, reply@) ==> in_range(reply@, m@.positions.len())
            && m@.positions.len() < u32::MAX,
    ensures
        reduces(m@, keep_ratio) && useful(m@, reply@) ==> is_compacted(m@, reply@, r@),
        !(reduces(m@, keep_ratio) && useful(m@, reply@)) ==> r@ == m@,
{
    if simplify_request(m, keep_ratio).is_none() || reply.len() == 0 || reply.len()
        >= m.indices.len() {
        return m.clone();
    }
    compact(m, reply)
}

proof fn lemma_first_seen_range(s: Seq<u32>, n: nat)
    requires
        in_range(s, n),
    ensures
        in_range(first_seen(s), n),
    decreases s.len(),
{
    if s.len() > 0 {
        assert(s[s.len() - 1] < n);
        assert(in_range(s.drop_last(), n));
        lemma_first_seen_range(s.drop_last(), n);
    }
}

proof fn lemma_first_seen_members(s: Seq<u32>, x: u32)
    ensures
        first_seen(s).contains(x) <==> s.contains(x),
    decreases s.len(),
{
    if s.len() > 0 {
        let rest = s.drop_last();
        lemma_first_seen_members(rest, x);
        if s.contains(x) {
            let i = choose|i: int| 0 <= i < s.len() && s[i] == x;
            if i < rest.len() {
                assert(rest[i] == x);
            }
        }
        if rest.contains(x) {
            let i = choose|i: int| 0 <= i < rest.len() && rest[i] == x;
            assert(s[i] == x);
        }
        assert(s[s.len() - 1] == s.last());
        let seen = first_seen(rest);
        if !seen.contains(s.last()) {
            assert(seen.push(s.last())[seen.len() as int] == s.last());
            if seen.contains(x) {
                let i = choose|i: int| 0 <= i < seen.len() && seen[i] == x;
                assert(seen.push(s.last())[i] == x);
            }
        }
    }
}

proof fn lemma_first_seen_distinct(s: Seq<u32>)
    ensures
        first_seen(s).no_duplicates(),
    decreases s.len(),
{
    if s.len() > 0 {
        lemma_first_seen_distinct(s.drop_last());
    }
}

/// Compacting a sound mesh keeps what the triangles draw: every corner has the
/// position, the normal, the texture coordinates and the component that it had. The
/// result is sound, and has no vertex that it does not use.
pub proof fn law_compact_keeps_corners(m: MeshView, indices: Seq<u32>, r: MeshView)
    requires
        merge::sound(m),
        in_range(indices, m.positions.len()),
        is_compacted(m, indices, r),
    ensures
        merge::sound(r),
        r.indices.len() == indices.len(),
        forall|i: int|
            0 <= i < indices.len() ==> merge::corner(r, #[trigger] r.indices[i] as int)
                == merge::corner(m, indices[i] as int),
        forall|v: u32| 0 <= v < r.positions.len() ==> #[trigger] r.indices.contains(v),
{
    let used = first_seen(indices);
    lemma_first_seen_range(indices, m.positions.len());
    assert forall|i: int| 0 <= i < indices.len() implies merge::corner(
        r,
        #[trigger] r.indices[i] as int,
    ) == merge::corner(m, indices[i] as int) && r.indices[i] < r.positions.len() by {
        let v = r.indices[i] as int;
        assert(used[v] == indices[i]);
        assert(indices[i] < m.positions.len());
    }
    assert forall|v: u32| 0 <= v < r.positions.len() implies #[trigger] r.indices.contains(v) by {
        let x = used[v as int];
        assert(used.contains(x));
        lemma_first_seen_members(indices, x);
        let i = choose|i: int| 0 <= i < indices.len() && indices[i] == x;
        lemma_first_seen_distinct(indices);
        assert(r.indices[i] < used.len());
        assert(used[r.indices[i] as int] == used[v as int]);
        assert(r.indices[i] == v);
    }
}

} // verus!
