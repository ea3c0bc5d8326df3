//! What the document of a tile shows.

use crate::float::{F64, HALF64};
use crate::gltf;
use crate::json::Doc;
use crate::mesh::MeshView;
use crate::nearness;
use vstd::arithmetic::power2::*;
use vstd::prelude::*;

verus! {

/// Whether the document `d` says `v` under `key`.
pub open spec fn states(d: Doc, key: Seq<char>, v: Doc) -> bool {
    d is Obj && exists|k: int| 0 <= k < d->Obj_0.len() && #[trigger] d->Obj_0[k] == (key, v)
}

/// The document is of version 2.0 and has its parts under their names; all its data is one
/// buffer.
pub proof fn law_document(ms: Seq<MeshView>)
    ensures
        ({
            let d = gltf::gltf_doc(ms);
            &&& states(d, "asset"@, gltf::asset_doc())
            &&& states(gltf::asset_doc(), "version"@, Doc::Str("2.0"@))
            &&& states(d, "meshes"@, Doc::Arr(gltf::mesh_docs(ms)))
            &&& states(d, "materials"@, Doc::Arr(gltf::material_docs(ms)))
            &&& states(d, "textures"@, Doc::Arr(gltf::texture_docs(ms)))
            &&& states(d, "images"@, Doc::Arr(gltf::image_docs(ms)))
            &&& states(d, "accessors"@, Doc::Arr(gltf::accessor_docs(ms)))
            &&& states(d, "bufferViews"@, Doc::Arr(gltf::view_docs(ms)))
            &&& states(d, "buffers"@, Doc::Arr(seq![gltf::buffer_doc(ms)]))
            &&& states(gltf::buffer_doc(ms), "byteLength"@, Doc::Uint(gltf::binary(ms).len()))
        }),
{
    let s = gltf::gltf_doc(ms)->Obj_0;
    assert(s[0].0 == "asset"@);
    assert(s[4].0 == "meshes"@);
    assert(s[5].0 == "materials"@);
    assert(s[6].0 == "textures"@);
    assert(s[7].0 == "images"@);
    assert(s[9].0 == "accessors"@);
    assert(s[10].0 == "bufferViews"@);
    assert(s[11].0 == "buffers"@);
    assert(gltf::asset_doc()->Obj_0[0].0 == "version"@);
    assert(gltf::buffer_doc(ms)->Obj_0[0].0 == "byteLength"@);
}

/// The scene that is shown is the only one. It shows each mesh once, through a node of the
/// mesh's name.
pub proof fn law_scene_shows_each(ms: Seq<MeshView>, i: int)
    requires
        0 <= i < ms.len(),
    ensures
        ({
            let d = gltf::gltf_doc(ms);
            let shown = Seq::new(ms.len(), |k: int| Doc::Uint(k as nat));
            let scene = gltf::scene_doc(ms.len());
            let node = gltf::node_docs(ms)[i];
            &&& states(d, "scene"@, Doc::Uint(0))
            &&& states(d, "scenes"@, Doc::Arr(seq![scene]))
            &&& states(scene, "nodes"@, Doc::Arr(shown))
            &&& states(d, "nodes"@, Doc::Arr(gltf::node_docs(ms)))
            &&& gltf::node_docs(ms).len() == ms.len() == gltf::mesh_docs(ms).len()
            &&& states(node, "mesh"@, Doc::Uint(i as nat))
            &&& states(node, "name"@, Doc::Str(ms[i].name))
        }),
{
    let s = gltf::gltf_doc(ms)->Obj_0;
    assert(s[1].0 == "scene"@);
    assert(s[2].0 == "scenes"@);
    assert(s[3].0 == "nodes"@);
    let scene = gltf::scene_doc(ms.len())->Obj_0;
    assert(scene[0].0 == "nodes"@);
    assert(scene[0].1->Arr_0 =~= Seq::new(ms.len(), |k: int| Doc::Uint(k as nat)));
    let node = gltf::node_docs(ms)[i]->Obj_0;
    assert(node[0].0 == "mesh"@);
    assert(node[1].0 == "name"@);
}

/// Of the runs of bytes of a mesh, that of the indices, which is its fifth, is said to hold
/// the elements (34963), and the others the values of vertices (34962).
pub proof fn law_run_targets(ms: Seq<MeshView>, i: int, a: int)
    requires
        0 <= i < ms.len(),
        0 <= a < 5,
    ensures
        a < 4 ==> states(gltf::view_docs(ms)[5 * i + a], "target"@, Doc::Uint(34962)),
        a == 4 ==> states(gltf::view_docs(ms)[5 * i + a], "target"@, Doc::Uint(34963)),
{
    let j = 5 * i + a;
    assert(j / 5 == i && j % 5 == a);
    assert(gltf::view_docs(ms)[j] == gltf::view_doc(ms, i, a));
    assert(gltf::view_doc(ms, i, a)->Obj_0[3].0 == "target"@);
}

/// Textures are repeated both ways (10497), enlarged between neighbouring pixels (9729) and
/// made smaller between neighbouring pixels and sizes (9987).
pub proof fn law_sampler(ms: Seq<MeshView>)
    ensures
        states(gltf::gltf_doc(ms), "samplers"@, Doc::Arr(seq![gltf::sampler_doc()])),
        states(gltf::sampler_doc(), "wrapS"@, Doc::Uint(10497)),
        states(gltf::sampler_doc(), "wrapT"@, Doc::Uint(10497)),
        states(gltf::sampler_doc(), "magFilter"@, Doc::Uint(9729)),
        states(gltf::sampler_doc(), "minFilter"@, Doc::Uint(9987)),
{
    assert(gltf::gltf_doc(ms)->Obj_0[8].0 == "samplers"@);
    let s = gltf::sampler_doc()->Obj_0;
    assert(s[0].0 == "magFilter"@);
    assert(s[1].0 == "minFilter"@);
    assert(s[2].0 == "wrapS"@);
    assert(s[3].0 == "wrapT"@);
}

/// A material that is cut off is cut off at one half.
pub proof fn law_cut_at_half(ms: Seq<MeshView>, k: int)
    requires
        0 <= k < gltf::material_docs(ms).len(),
        gltf::material_docs(ms)[k]->Obj_0.len() == 5,
    ensures
        exists|x: F64|
            x.finite() && x.rank() * 2 == nearness::one64() && #[trigger] states(
                gltf::material_docs(ms)[k],
                "alphaCutoff"@,
                Doc::Float(x),
            ),
{
    let x = F64 { bits: HALF64 };
    let d = gltf::material_docs(ms)[k];
    assert(d == gltf::material_doc(ms, k));
    assert(d->Obj_0[3] == ("alphaCutoff"@, Doc::Float(x)));
    reveal(F64::rank);
    lemma_pow2_adds(52, 1021);
    lemma_pow2_adds(1073, 1);
    lemma2_to64();
    lemma2_to64_rest();
    assert(x.rank() == pow2(1073));
    assert(states(d, "alphaCutoff"@, Doc::Float(x)));
}

} // verus!
