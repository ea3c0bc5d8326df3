//! What a mesh of a tile is painted with.

use crate::float::F32;
use crate::gltf;
use crate::gltf_laws;
use crate::gltf_writer;
use crate::json::Doc;
use crate::mesh::MeshView;
use vstd::prelude::*;

verus! {

/// Whether two factors are the same number, or the same pattern.
pub open spec fn alike(a: F32, b: F32) -> bool {
    a.same(b) || a == b
}

/// Whether an entry of the materials says the factors and the texture of mesh `m`: the
/// number `t` of its texture, or white where it has none.
pub open spec fn painted(d: Doc, m: MeshView, t: int) -> bool {
    &&& d->Obj_0[1].0 == "pbrMetallicRoughness"@
    &&& ({
        let s = d->Obj_0[1].1->Obj_0;
        &&& s.len() == 3
        &&& exists|x: F32|
            s[0] == ("metallicFactor"@, Doc::Float(#[trigger] x.widen())) && alike(
                x,
                m.metallic_factor,
            )
        &&& exists|x: F32|
            s[1] == ("roughnessFactor"@, Doc::Float(#[trigger] x.widen())) && alike(
                x,
                m.roughness_factor,
            )
        &&& m.texture_uri is Some ==> s[2].0 == "baseColorTexture"@ && s[2].1->Obj_0[0] == (
            "index"@,
            Doc::Uint(t as nat),
        )
        &&& m.texture_uri is None ==> s[2].0 == "baseColorFactor"@
    })
}

/// Whether an entry of the materials is one of translucent parts: they are cut off and seen
/// from both sides.
pub open spec fn cut_off(d: Doc) -> bool {
    let s = d->Obj_0;
    s.len() == 5 && s[2] == ("alphaMode"@, Doc::Str("MASK"@)) && s[3].0 == "alphaCutoff"@ && s[4]
        == ("doubleSided"@, Doc::Bool(true))
}

/// A mesh is painted with its own factors and its own texture. The primitive of mesh `i`
/// names a material that says them; where the mesh has a texture, the material names an
/// entry of the textures, which shows an entry of the images, which is of the first mesh `o`
/// with that texture: its run of bytes holds the texture, or where it is not embedded the
/// entry gives its name. The material is cut off where that texture has translucent parts,
/// and nowhere else.
pub proof fn law_painted(ms: Seq<MeshView>, i: int)
    requires
        0 <= i < ms.len() <= usize::MAX,
        gltf::with_all_images(ms).0.len() <= usize::MAX,
    ensures
        exists|k: int, t: int, o: int|
            {
                let m = ms[i];
                let d = gltf::material_docs(ms)[k];
                &&& #[trigger] paints(ms, i, k, t, o)
                &&& painted(d, m, t)
                &&& m.texture_uri is None ==> d->Obj_0.len() == 2
                &&& m.texture_uri is Some ==> {
                    &&& 0 <= o <= i && ms[o].texture_uri == m.texture_uri
                    &&& forall|j: int| 0 <= j < o ==> (#[trigger] ms[j]).texture_uri
                        != m.texture_uri
                    &&& gltf::texture_docs(ms)[t]->Obj_0[1] == ("source"@, Doc::Uint(t as nat))
                    &&& ms[o].texture_has_alpha ==> cut_off(d)
                    &&& !ms[o].texture_has_alpha ==> d->Obj_0.len() == 2
                    &&& shows(ms, t, o)
                }
            },
{
    let m = ms[i];
    gltf_laws::law_materials(ms, i);
    let k = gltf::material_of(ms, i) as int;
    let d = gltf::material_docs(ms)[k];
    let own = ms[gltf::material_owners(ms, ms.len())[k] as int];
    let t = gltf::texture_number(ms, m.texture_uri) as int;
    assert(d == gltf::material_doc(ms, k));
    let s = d->Obj_0[1].1->Obj_0;
    assert(s[0] == ("metallicFactor"@, Doc::Float(own.metallic_factor.widen())));
    assert(s[1] == ("roughnessFactor"@, Doc::Float(own.roughness_factor.widen())));
    if m.texture_uri is Some {
        gltf_laws::law_textures(ms, i);
        let owners = gltf::texture_owners(ms, ms.len());
        let o = owners[t] as int;
        gltf_writer::lemma_owners_first(ms, ms.len());
        lemma_owner_is_first(ms, ms.len(), t);
        if o > i {
            assert(ms[i].texture_uri == ms[o].texture_uri);
            assert(false);
        }
        lemma_image_shown(ms, t);
        assert(paints(ms, i, k, t, o));
    } else {
        assert(paints(ms, i, k, t, 0));
    }
}

/// Whether the primitive of mesh `i` names material `k`.
pub open spec fn paints(ms: Seq<MeshView>, i: int, k: int, t: int, o: int) -> bool {
    &&& 0 <= k < gltf::material_docs(ms).len()
    &&& gltf::primitive_doc(ms, i)->Obj_0[2] == ("material"@, Doc::Uint(k as nat))
    &&& ms[i].texture_uri is Some ==> 0 <= t < gltf::texture_docs(ms).len()
}

/// Whether entry `t` of the images shows the texture of mesh `o`.
pub open spec fn shows(ms: Seq<MeshView>, t: int, o: int) -> bool {
    let d = gltf::image_docs(ms)[t]->Obj_0;
    let m = ms[o];
    if gltf::embedded(m) {
        &&& d[0].0 == "bufferView"@ && d[0].1 is Uint
        &&& d[1] == ("mimeType"@, Doc::Str(m.texture_mime->0))
        &&& d[0].1->Uint_0 < gltf::view_docs(ms).len()
        &&& ({
            let v = gltf::view_docs(ms)[d[0].1->Uint_0 as int]->Obj_0;
            &&& v[1].0 == "byteOffset"@ && v[1].1 is Uint
            &&& v[2] == ("byteLength"@, Doc::Uint((m.texture_bytes->0).len()))
            &&& v[1].1->Uint_0 + (m.texture_bytes->0).len() <= gltf::binary(ms).len()
            &&& gltf::binary(ms).subrange(
                v[1].1->Uint_0 as int,
                v[1].1->Uint_0 + (m.texture_bytes->0).len() as int,
            ) == m.texture_bytes->0
        })
    } else {
        d[0] == ("uri"@, Doc::Str(m.texture_uri->0))
    }
}

/// The owner of a texture is the first mesh that has it.
proof fn lemma_owner_is_first(ms: Seq<MeshView>, n: nat, t: int)
    requires
        n <= ms.len() <= usize::MAX,
        0 <= t < gltf::texture_owners(ms, n).len(),
    ensures
        ({
            let o = gltf::texture_owners(ms, n)[t] as int;
            &&& 0 <= o < n
            &&& ms[o].texture_uri is Some
            &&& forall|j: int| 0 <= j < o ==> (#[trigger] ms[j]).texture_uri != ms[o].texture_uri
        }),
    decreases n,
{
    let rest = gltf::texture_owners(ms, (n - 1) as nat);
    if t < rest.len() {
        lemma_owner_is_first(ms, (n - 1) as nat, t);
    } else {
        assert(!gltf::texture_seen(ms, n - 1));
    }
}

/// Which images are embedded.
proof fn lemma_image_of(ms: Seq<MeshView>, data: Seq<u8>, owners: Seq<usize>, n: nat, t: int)
    requires
        n <= owners.len(),
        0 <= t < n,
        gltf::embedded(ms[owners[t] as int]),
    ensures
        exists|e: int|
            0 <= e < gltf::with_images(ms, data, owners, n).1.len() && (#[trigger] gltf::with_images(
                ms,
                data,
                owners,
                n,
            ).1[e]).0 == owners[t],
    decreases n,
{
    let before = gltf::with_images(ms, data, owners, (n - 1) as nat).1;
    let all = gltf::with_images(ms, data, owners, n).1;
    if t < n - 1 {
        lemma_image_of(ms, data, owners, (n - 1) as nat, t);
        let e = choose|e: int| 0 <= e < before.len() && (#[trigger] before[e]).0 == owners[t];
        assert(all[e] == before[e]);
    } else {
        assert(all[all.len() - 1].0 == owners[t]);
    }
}

/// Only what is embedded has a run of bytes.
proof fn lemma_image_embedded(ms: Seq<MeshView>, data: Seq<u8>, owners: Seq<usize>, n: nat, e: int)
    requires
        n <= owners.len(),
        0 <= e < gltf::with_images(ms, data, owners, n).1.len(),
    ensures
        gltf::embedded(ms[gltf::with_images(ms, data, owners, n).1[e].0 as int]),
    decreases n,
{
    let before = gltf::with_images(ms, data, owners, (n - 1) as nat).1;
    if e < before.len() {
        lemma_image_embedded(ms, data, owners, (n - 1) as nat, e);
    }
}

proof fn lemma_image_place(images: Seq<(usize, usize)>, o: usize, e: int)
    requires
        0 <= e < images.len(),
        images[e].0 == o,
    ensures
        gltf::image_place(images, o) < images.len(),
    decreases images.len(),
{
    if e < images.len() - 1 {
        assert(images.drop_last()[e] == images[e]);
        lemma_image_place(images.drop_last(), o, e);
    }
    gltf_laws::lemma_image_found(images.drop_last(), o);
}

proof fn lemma_image_shown(ms: Seq<MeshView>, t: int)
    requires
        ms.len() <= usize::MAX,
        gltf::with_all_images(ms).0.len() <= usize::MAX,
        0 <= t < gltf::texture_owners(ms, ms.len()).len(),
    ensures
        shows(ms, t, gltf::texture_owners(ms, ms.len())[t] as int),
{
    let owners = gltf::texture_owners(ms, ms.len());
    let data = gltf::geometry(ms, ms.len());
    let images = gltf::with_all_images(ms).1;
    let o = owners[t];
    let m = ms[o as int];
    gltf_laws::lemma_image_found(images, o);
    let p = gltf::image_place(images, o) as int;
    assert(gltf::image_docs(ms)[t] == gltf::image_doc(ms, t));
    if gltf::embedded(m) {
        lemma_image_of(ms, data, owners, owners.len(), t);
        let e = choose|e: int| 0 <= e < images.len() && (#[trigger] images[e]).0 == o;
        lemma_image_place(images, o, e);
        gltf_laws::law_image_bytes(ms, p);
        assert(gltf::view_docs(ms)[5 * ms.len() + p] == gltf::image_view_doc(ms, p));
    } else if p < images.len() {
        lemma_image_embedded(ms, data, owners, owners.len(), p);
        assert(false);
    }
}

} // verus!
