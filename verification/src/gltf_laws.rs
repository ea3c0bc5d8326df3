//! What holds of the glTF document of every tile: its references lead where they
//! should.

use crate::bytes;
use crate::gltf;
use crate::gltf_writer;
use crate::json::Doc;
use crate::mesh::MeshView;
use vstd::prelude::*;

verus! {

proof fn lemma_attributes_prefix(m: MeshView, a: nat, k: nat)
    requires
        a <= k,
    ensures
        attributes_prefix(m, a, k),
    decreases k,
{
    if a < k {
        lemma_attributes_prefix(m, a, (k - 1) as nat);
        let p = gltf::attributes(m, (k - 1) as nat);
        let q = bytes::words_bytes(gltf::attribute_words(m, k - 1));
        assert((p + q).take(gltf::attributes(m, a).len() as int) =~= p.take(
            gltf::attributes(m, a).len() as int,
        ));
    } else {
        assert(gltf::attributes(m, k).take(gltf::attributes(m, a).len() as int)
            =~= gltf::attributes(m, a));
    }
}

spec fn attributes_prefix(m: MeshView, a: nat, k: nat) -> bool {
    gltf::attributes(m, a).len() <= gltf::attributes(m, k).len() && gltf::attributes(m, k).take(
        gltf::attributes(m, a).len() as int,
    ) == gltf::attributes(m, a)
}

proof fn lemma_geometry_prefix(ms: Seq<MeshView>, i: nat, n: nat)
    requires
        i <= n,
    ensures
        gltf::geometry(ms, i).len() <= gltf::geometry(ms, n).len(),
        gltf::geometry(ms, n).take(gltf::geometry(ms, i).len() as int) == gltf::geometry(ms, i),
    decreases n,
{
    if i < n {
        lemma_geometry_prefix(ms, i, (n - 1) as nat);
        let p = gltf::geometry(ms, (n - 1) as nat);
        assert(gltf::geometry(ms, n).take(gltf::geometry(ms, i).len() as int) =~= p.take(
            gltf::geometry(ms, i).len() as int,
        ));
    } else {
        assert(gltf::geometry(ms, n).take(gltf::geometry(ms, i).len() as int) =~= gltf::geometry(
            ms,
            i,
        ));
    }
}

proof fn lemma_images_prefix(ms: Seq<MeshView>, data: Seq<u8>, owners: Seq<usize>, i: nat, n: nat)
    requires
        i <= n <= owners.len(),
    ensures
        gltf::with_images(ms, data, owners, i).0.len() <= gltf::with_images(
            ms,
            data,
            owners,
            n,
        ).0.len(),
        gltf::with_images(ms, data, owners, n).0.take(
            gltf::with_images(ms, data, owners, i).0.len() as int,
        ) == gltf::with_images(ms, data, owners, i).0,
        gltf::with_images(ms, data, owners, i).1.len() <= gltf::with_images(
            ms,
            data,
            owners,
            n,
        ).1.len(),
        forall|k: int|
            0 <= k < gltf::with_images(ms, data, owners, i).1.len()
                ==> #[trigger] gltf::with_images(ms, data, owners, n).1[k] == gltf::with_images(
                ms,
                data,
                owners,
                i,
            ).1[k],
    decreases n,
{
    let small = gltf::with_images(ms, data, owners, i);
    let big = gltf::with_images(ms, data, owners, n);
    if i < n {
        lemma_images_prefix(ms, data, owners, i, (n - 1) as nat);
        let mid = gltf::with_images(ms, data, owners, (n - 1) as nat);
        assert(big.0.take(small.0.len() as int) =~= mid.0.take(small.0.len() as int));
    } else {
        assert(big.0.take(small.0.len() as int) =~= small.0);
    }
}

/// What a prefix holds, the whole holds at the same place.
proof fn lemma_within(whole: Seq<u8>, part: Seq<u8>, at: int, what: Seq<u8>)
    requires
        part.len() <= whole.len(),
        whole.take(part.len() as int) == part,
        0 <= at,
        at + what.len() <= part.len(),
        part.subrange(at, at + what.len()) == what,
    ensures
        whole.subrange(at, at + what.len()) == what,
{
    assert forall|k: int| 0 <= k < what.len() implies whole.subrange(at, at + what.len())[k]
        == what[k] by {
        assert(part.subrange(at, at + what.len())[k] == part[at + k]);
        assert(whole.take(part.len() as int)[at + k] == whole[at + k]);
    }
    assert(whole.subrange(at, at + what.len()) =~= what);
}

proof fn lemma_data_prefix(ms: Seq<MeshView>)
    ensures
        gltf::geometry(ms, ms.len()).len() <= gltf::binary(ms).len(),
        gltf::binary(ms).take(gltf::geometry(ms, ms.len()).len() as int) == gltf::geometry(
            ms,
            ms.len(),
        ),
        gltf::with_all_images(ms).0.len() <= gltf::binary(ms).len(),
        gltf::binary(ms).take(gltf::with_all_images(ms).0.len() as int) == gltf::with_all_images(
            ms,
        ).0,
{
    let owners = gltf::texture_owners(ms, ms.len());
    let g = gltf::geometry(ms, ms.len());
    let all = gltf::with_all_images(ms).0;
    lemma_images_prefix(ms, g, owners, 0, owners.len());
    bytes::law_padded(all, 0, 4);
    assert(gltf::binary(ms).take(g.len() as int) =~= all.take(g.len() as int));
}

/// The run of bytes that the document gives for an attribute lies within the binary
/// data and holds the attribute's words.
pub proof fn law_attribute_bytes(ms: Seq<MeshView>, i: int, a: int)
    requires
        0 <= i < ms.len(),
        0 <= a < 5,
    ensures
        gltf::attribute_offset(ms, i, a) + gltf::attribute_len(ms, i, a) <= gltf::binary(ms).len(),
        gltf::binary(ms).subrange(
            gltf::attribute_offset(ms, i, a) as int,
            gltf::attribute_offset(ms, i, a) + gltf::attribute_len(ms, i, a) as int,
        ) == bytes::words_bytes(gltf::attribute_words(ms[i], a)),
{
    let m = ms[i];
    let what = bytes::words_bytes(gltf::attribute_words(m, a));
    let before = gltf::attributes(m, a as nat);
    let upto = gltf::attributes(m, (a + 1) as nat);
    let all = gltf::attributes(m, 5);
    assert(upto.subrange(before.len() as int, before.len() as int + what.len()) =~= what);
    lemma_attributes_prefix(m, (a + 1) as nat, 5);
    lemma_within(all, upto, before.len() as int, what);
    let head = gltf::geometry(ms, i as nat);
    let part = gltf::geometry(ms, (i + 1) as nat);
    let at = gltf::attribute_offset(ms, i, a) as int;
    assert(part.subrange(at, at + what.len()) =~= what) by {
        assert forall|k: int| 0 <= k < what.len() implies part.subrange(at, at + what.len())[k]
            == what[k] by {
            assert(part[at + k] == all[before.len() + k]);
            assert(all.subrange(before.len() as int, before.len() as int + what.len())[k]
                == all[before.len() + k]);
        }
    }
    lemma_geometry_prefix(ms, (i + 1) as nat, ms.len());
    lemma_within(gltf::geometry(ms, ms.len()), part, at, what);
    lemma_data_prefix(ms);
    lemma_within(gltf::binary(ms), gltf::geometry(ms, ms.len()), at, what);
}

proof fn lemma_image_at(ms: Seq<MeshView>, data: Seq<u8>, owners: Seq<usize>, n: nat, k: int)
    requires
        n <= owners.len(),
        gltf::with_images(ms, data, owners, n).0.len() <= usize::MAX,
        0 <= k < gltf::with_images(ms, data, owners, n).1.len(),
    ensures
        ({
            let e = gltf::with_images(ms, data, owners, n);
            let at = e.1[k].1 as int;
            let image = ms[e.1[k].0 as int].texture_bytes->0;
            &&& at % 4 == 0
            &&& at >= data.len()
            &&& at + image.len() <= e.0.len()
            &&& e.0.subrange(at, at + image.len()) == image
        }),
    decreases n,
{
    let e = gltf::with_images(ms, data, owners, n);
    let before = gltf::with_images(ms, data, owners, (n - 1) as nat);
    lemma_images_prefix(ms, data, owners, (n - 1) as nat, n);
    lemma_images_prefix(ms, data, owners, 0, (n - 1) as nat);
    let at = e.1[k].1 as int;
    let image = ms[e.1[k].0 as int].texture_bytes->0;
    if k < before.1.len() {
        assert(e.1[k] == before.1[k]);
        lemma_image_at(ms, data, owners, (n - 1) as nat, k);
        lemma_within(e.0, before.0, at, image);
    } else {
        bytes::law_padded(before.0, 0, 4);
        assert(e.0.subrange(at, at + image.len()) =~= image);
    }
}

/// The run of bytes that the document gives for an embedded texture begins at a
/// multiple of four, behind the meshes, lies within the binary data, and holds the
/// encoded texture.
pub proof fn law_image_bytes(ms: Seq<MeshView>, k: int)
    requires
        gltf::with_all_images(ms).0.len() <= usize::MAX,
        0 <= k < gltf::with_all_images(ms).1.len(),
    ensures
        ({
            let image = gltf::with_all_images(ms).1[k];
            let at = image.1 as int;
            let content = ms[image.0 as int].texture_bytes->0;
            &&& at % 4 == 0
            &&& at >= gltf::geometry(ms, ms.len()).len()
            &&& at + content.len() <= gltf::binary(ms).len()
            &&& gltf::binary(ms).subrange(at, at + content.len()) == content
        }),
{
    let owners = gltf::texture_owners(ms, ms.len());
    lemma_image_at(ms, gltf::geometry(ms, ms.len()), owners, owners.len(), k);
    lemma_data_prefix(ms);
    let image = gltf::with_all_images(ms).1[k];
    let content = ms[image.0 as int].texture_bytes->0;
    lemma_within(gltf::binary(ms), gltf::with_all_images(ms).0, image.1 as int, content);
}

proof fn lemma_material_found(ms: Seq<MeshView>, owners: Seq<usize>, i: int)
    ensures
        gltf::material_place(ms, owners, i) <= owners.len(),
        gltf::material_place(ms, owners, i) < owners.len() ==> gltf::same_material(
            ms[owners[gltf::material_place(ms, owners, i) as int] as int],
            ms[i],
        ),
    decreases owners.len(),
{
    if owners.len() > 0 {
        lemma_material_found(ms, owners.drop_last(), i);
    }
}

proof fn lemma_materials_grow(ms: Seq<MeshView>, i: nat, n: nat)
    requires
        i <= n,
    ensures
        gltf::material_owners(ms, i).len() <= gltf::material_owners(ms, n).len(),
        forall|k: int|
            0 <= k < gltf::material_owners(ms, i).len() ==> #[trigger] gltf::material_owners(
                ms,
                n,
            )[k] == gltf::material_owners(ms, i)[k],
    decreases n,
{
    if i < n {
        lemma_materials_grow(ms, i, (n - 1) as nat);
    }
}

/// Every mesh has a material that the document lists, with the mesh's own texture,
/// and with its factors as far as they are numbers. Every mesh has a node, and the
/// scene shows all nodes.
pub proof fn law_materials(ms: Seq<MeshView>, i: int)
    requires
        ms.len() <= usize::MAX,
        0 <= i < ms.len(),
    ensures
        gltf::material_of(ms, i) < gltf::material_docs(ms).len(),
        ({
            let o = ms[gltf::material_owners(ms, ms.len())[gltf::material_of(ms, i) as int] as int];
            &&& o.texture_uri == ms[i].texture_uri
            &&& o.metallic_factor.same(ms[i].metallic_factor) || o.metallic_factor
                == ms[i].metallic_factor
            &&& o.roughness_factor.same(ms[i].roughness_factor) || o.roughness_factor
                == ms[i].roughness_factor
        }),
        gltf::node_docs(ms).len() == gltf::mesh_docs(ms).len(),
{
    let at = gltf::material_owners(ms, i as nat);
    lemma_material_found(ms, at, i);
    lemma_materials_grow(ms, (i + 1) as nat, ms.len());
    let k = gltf::material_of(ms, i) as int;
    let next = gltf::material_owners(ms, (i + 1) as nat);
    assert(k < next.len());
    assert(gltf::material_owners(ms, ms.len())[k] == next[k]);
    if k < at.len() {
        assert(next[k] == at[k]);
    } else {
        assert(next[k] == i);
    }
}

proof fn lemma_owner_found(ms: Seq<MeshView>, owners: Seq<usize>, uri: Option<Seq<char>>)
    ensures
        gltf::owner_place(ms, owners, uri) <= owners.len(),
        gltf::owner_place(ms, owners, uri) < owners.len() ==> ms[owners[gltf::owner_place(
            ms,
            owners,
            uri,
        ) as int] as int].texture_uri == uri,
        gltf::owner_place(ms, owners, uri) == owners.len() ==> forall|k: int|
            0 <= k < owners.len() ==> ms[#[trigger] owners[k] as int].texture_uri != uri,
    decreases owners.len(),
{
    if owners.len() > 0 {
        lemma_owner_found(ms, owners.drop_last(), uri);
        if gltf::owner_place(ms, owners, uri) == owners.len() {
            assert forall|k: int| 0 <= k < owners.len() implies ms[#[trigger] owners[k] as int].texture_uri
                != uri by {
                if k < owners.len() - 1 {
                    assert(owners.drop_last()[k] == owners[k]);
                }
            }
        }
    }
}

/// The number that a material gives for its texture leads, through the list of
/// textures, to the image of that texture.
pub proof fn law_textures(ms: Seq<MeshView>, i: int)
    requires
        ms.len() <= usize::MAX,
        0 <= i < ms.len(),
        ms[i].texture_uri is Some,
    ensures
        ({
            let t = gltf::texture_number(ms, ms[i].texture_uri) as int;
            &&& t < gltf::texture_docs(ms).len()
            &&& gltf::texture_docs(ms)[t] == gltf::texture_doc(t as nat)
            &&& t < gltf::image_docs(ms).len()
            &&& ms[gltf::texture_owners(ms, ms.len())[t] as int].texture_uri == ms[i].texture_uri
        }),
{
    let owners = gltf::texture_owners(ms, ms.len());
    let uri = ms[i].texture_uri;
    gltf_writer::lemma_owner_exists(ms, ms.len(), i);
    lemma_owner_found(ms, owners, uri);
}

/// There is one image, and one texture that shows it, for each texture that a mesh has:
/// every image is of a mesh with a texture, and no two are of the same.
pub proof fn law_one_image_each(ms: Seq<MeshView>)
    requires
        ms.len() <= usize::MAX,
    ensures
        ({
            let owners = gltf::texture_owners(ms, ms.len());
            &&& gltf::image_docs(ms).len() == owners.len()
            &&& gltf::texture_docs(ms).len() == owners.len()
            &&& forall|k: int|
                0 <= k < owners.len() ==> (#[trigger] owners[k]) < ms.len()
                    && ms[owners[k] as int].texture_uri is Some
            &&& forall|j: int, k: int|
                0 <= j < k < owners.len() ==> ms[#[trigger] owners[j] as int].texture_uri
                    != ms[#[trigger] owners[k] as int].texture_uri
        }),
{
    gltf_writer::lemma_owners_first(ms, ms.len());
    lemma_owners_differ(ms, ms.len());
}

proof fn lemma_owners_differ(ms: Seq<MeshView>, n: nat)
    requires
        n <= ms.len() <= usize::MAX,
    ensures
        forall|j: int, k: int|
            0 <= j < k < gltf::texture_owners(ms, n).len() ==> ms[#[trigger] gltf::texture_owners(
                ms,
                n,
            )[j] as int].texture_uri != ms[#[trigger] gltf::texture_owners(
                ms,
                n,
            )[k] as int].texture_uri,
    decreases n,
{
    if n > 0 {
        lemma_owners_differ(ms, (n - 1) as nat);
        gltf_writer::lemma_owners_first(ms, (n - 1) as nat);
        let rest = gltf::texture_owners(ms, (n - 1) as nat);
        let all = gltf::texture_owners(ms, n);
        assert forall|j: int, k: int| 0 <= j < k < all.len() implies ms[#[trigger] all[j] as int].texture_uri
            != ms[#[trigger] all[k] as int].texture_uri by {
            assert(all[j] == rest[j]);
            assert(rest[j] < n - 1);
            if k < rest.len() {
                assert(all[k] == rest[k]);
            }
        }
    }
}

pub proof fn lemma_image_found(images: Seq<(usize, usize)>, o: usize)
    ensures
        gltf::image_place(images, o) <= images.len(),
        gltf::image_place(images, o) < images.len() ==> images[gltf::image_place(
            images,
            o,
        ) as int].0 == o,
    decreases images.len(),
{
    if images.len() > 0 {
        lemma_image_found(images.drop_last(), o);
    }
}

/// The run of bytes that an embedded image refers to is its own: it comes behind those
/// of the meshes, and holds the image's texture.
pub proof fn law_image_views(ms: Seq<MeshView>, k: int)
    requires
        0 <= k < gltf::image_docs(ms).len(),
        ({
            let images = gltf::with_all_images(ms).1;
            gltf::image_place(images, gltf::texture_owners(ms, ms.len())[k]) < images.len()
        }),
    ensures
        ({
            let images = gltf::with_all_images(ms).1;
            let o = gltf::texture_owners(ms, ms.len())[k];
            let p = gltf::image_place(images, o) as int;
            &&& images[p].0 == o
            &&& 5 * ms.len() + p < gltf::view_docs(ms).len()
            &&& gltf::view_docs(ms)[5 * ms.len() + p] == gltf::image_view_doc(ms, p)
        }),
{
    let images = gltf::with_all_images(ms).1;
    let o = gltf::texture_owners(ms, ms.len())[k];
    lemma_image_found(images, o);
}

/// Attribute `a` of mesh `i` is read through the run of bytes that is its own, which no
/// other attribute is read through: in particular the indices never share one with
/// the components. All attributes but the indices are floating-point numbers.
pub proof fn law_accessor_views(ms: Seq<MeshView>, i: int, a: int)
    requires
        0 <= i < ms.len(),
        0 <= a < 5,
    ensures
        5 * i + a < gltf::accessor_docs(ms).len(),
        gltf::accessor_docs(ms)[5 * i + a] == gltf::accessor_doc(ms, i, a),
        gltf::accessor_doc(ms, i, a)->Obj_0[0] == ("bufferView"@, Doc::Uint((5 * i + a) as nat)),
        gltf::accessor_doc(ms, i, a)->Obj_0[1] == (
            "componentType"@,
            Doc::Uint(
                if a == 4 {
                    5125
                } else {
                    5126
                },
            ),
        ),
        5 * i + a < gltf::view_docs(ms).len(),
        gltf::view_docs(ms)[5 * i + a] == gltf::view_doc(ms, i, a),
{
    assert((5 * i + a) / 5 == i && (5 * i + a) % 5 == a);
}

/// Whether no key of an object occurs twice.
pub open spec fn keys_once(d: Doc) -> bool {
    forall|i: int, j: int|
        0 <= i < j < d->Obj_0.len() ==> (#[trigger] d->Obj_0[i]).0 != (#[trigger] d->Obj_0[j]).0
}

/// No key of a primitive occurs twice, nor does a key of its attributes.
pub proof fn law_primitive_keys(ms: Seq<MeshView>, i: int)
    requires
        0 <= i < ms.len(),
    ensures
        keys_once(gltf::primitive_doc(ms, i)),
        gltf::primitive_doc(ms, i)->Obj_0[0].0 == "attributes"@,
        keys_once(gltf::primitive_doc(ms, i)->Obj_0[0].1),
{
    reveal_strlit("attributes");
    reveal_strlit("indices");
    reveal_strlit("material");
    reveal_strlit("mode");
    reveal_strlit("POSITION");
    reveal_strlit("NORMAL");
    reveal_strlit("TEXCOORD_0");
    reveal_strlit("_BATCHID");
    assert("POSITION"@[0] != "_BATCHID"@[0]);
    let p = gltf::primitive_doc(ms, i)->Obj_0;
    assert(p.len() == 4);
    assert(p[0].0 == "attributes"@ && p[0].0.len() == 10);
    assert(p[1].0 == "indices"@ && p[1].0.len() == 7);
    assert(p[2].0 == "material"@ && p[2].0.len() == 8);
    assert(p[3].0 == "mode"@ && p[3].0.len() == 4);
    let q = p[0].1->Obj_0;
    assert(q.len() == 4);
    assert(q[0].0 == "POSITION"@ && q[0].0.len() == 8);
    assert(q[1].0 == "NORMAL"@ && q[1].0.len() == 6);
    assert(q[2].0 == "TEXCOORD_0"@ && q[2].0.len() == 10);
    assert(q[3].0 == "_BATCHID"@ && q[3].0.len() == 8);
}

/// Where the `r`-th run of bytes begins, and its length: five for each mesh, then one for
/// each embedded texture.
pub open spec fn run(ms: Seq<MeshView>, r: int) -> (nat, nat) {
    if r < 5 * ms.len() {
        (gltf::attribute_offset(ms, r / 5, r % 5), gltf::attribute_len(ms, r / 5, r % 5))
    } else {
        let image = gltf::with_all_images(ms).1[r - 5 * ms.len()];
        (image.1 as nat, (ms[image.0 as int].texture_bytes->0).len())
    }
}

/// Where an attribute ends.
proof fn lemma_attribute_end(ms: Seq<MeshView>, i: int, a: int)
    requires
        0 <= i < ms.len(),
        0 <= a < 5,
    ensures
        gltf::attribute_offset(ms, i, a) + gltf::attribute_len(ms, i, a) == gltf::geometry(
            ms,
            i as nat,
        ).len() + gltf::attributes(ms[i], (a + 1) as nat).len(),
        gltf::attribute_offset(ms, i, a) + gltf::attribute_len(ms, i, a) <= gltf::geometry(
            ms,
            (i + 1) as nat,
        ).len(),
{
    let words = gltf::attribute_words(ms[i], a);
    law_attribute_bytes(ms, i, a);
    assert(bytes::words_bytes(words).len() == gltf::attribute_len(ms, i, a));
    lemma_attributes_prefix(ms[i], (a + 1) as nat, 5);
}

proof fn lemma_images_apart(
    ms: Seq<MeshView>,
    data: Seq<u8>,
    owners: Seq<usize>,
    n: nat,
    k: int,
    l: int,
)
    requires
        n <= owners.len(),
        gltf::with_images(ms, data, owners, n).0.len() <= usize::MAX,
        0 <= k < l < gltf::with_images(ms, data, owners, n).1.len(),
    ensures
        ({
            let e = gltf::with_images(ms, data, owners, n).1;
            e[k].1 + (ms[e[k].0 as int].texture_bytes->0).len() <= e[l].1
        }),
    decreases n,
{
    let e = gltf::with_images(ms, data, owners, n);
    let before = gltf::with_images(ms, data, owners, (n - 1) as nat);
    lemma_images_prefix(ms, data, owners, (n - 1) as nat, n);
    assert(e.1[k] == before.1[k]);
    if l < before.1.len() {
        assert(e.1[l] == before.1[l]);
        lemma_images_apart(ms, data, owners, (n - 1) as nat, k, l);
    } else {
        lemma_image_at(ms, data, owners, (n - 1) as nat, k);
        bytes::law_padded(before.0, 0, 4);
    }
}

/// The runs of bytes of the meshes and of the embedded textures do not overlap: each ends
/// before the next begins. They are those that the document gives.
pub proof fn law_runs_apart(ms: Seq<MeshView>, r: int, s: int)
    requires
        gltf::with_all_images(ms).0.len() <= usize::MAX,
        0 <= r < s < gltf::view_docs(ms).len(),
    ensures
        run(ms, r).0 + run(ms, r).1 <= run(ms, s).0,
        run(ms, s).0 + run(ms, s).1 <= gltf::binary(ms).len(),
        gltf::view_docs(ms)[r]->Obj_0[1] == ("byteOffset"@, Doc::Uint(run(ms, r).0)),
        gltf::view_docs(ms)[r]->Obj_0[2] == ("byteLength"@, Doc::Uint(run(ms, r).1)),
        gltf::view_docs(ms)[s]->Obj_0[1] == ("byteOffset"@, Doc::Uint(run(ms, s).0)),
        gltf::view_docs(ms)[s]->Obj_0[2] == ("byteLength"@, Doc::Uint(run(ms, s).1)),
{
    let n = ms.len();
    let owners = gltf::texture_owners(ms, n);
    let data = gltf::geometry(ms, n);
    if r < 5 * n {
        let i = r / 5;
        let a = r % 5;
        lemma_attribute_end(ms, i, a);
        if s < 5 * n {
            let j = s / 5;
            let b = s % 5;
            law_attribute_bytes(ms, j, b);
            if i == j {
                lemma_attributes_prefix(ms[i], (a + 1) as nat, b as nat);
            } else {
                lemma_geometry_prefix(ms, (i + 1) as nat, j as nat);
            }
        } else {
            lemma_geometry_prefix(ms, (i + 1) as nat, n);
            law_image_bytes(ms, s - 5 * n);
        }
    } else {
        law_image_bytes(ms, s - 5 * n);
        lemma_images_apart(ms, data, owners, owners.len(), r - 5 * n, s - 5 * n);
    }
}

} // verus!
