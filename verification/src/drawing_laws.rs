//! What a tile draws of the meshes that it is made of.

use crate::assemble;
use crate::assemble::ModelMesh;
use crate::extract;
use crate::extract::{PartSettings, Placement, SourceMesh, Texture};
use crate::float::F64;
use crate::merge;
use crate::mesh;
use crate::mesh::MeshView;
use vstd::prelude::*;

verus! {

/// A placement that turns no triangle.
pub open spec fn unmirrored(place: Option<Placement>) -> Option<Placement> {
    match place {
        Some(x) => Some(Placement { flip_winding: false, ..x }),
        None => None,
    }
}

/// The parts with the mark whether their triangles are yet to be turned.
pub open spec fn marked(parts: Seq<MeshView>, flip: bool) -> Seq<MeshView> {
    Seq::new(parts.len(), |i: int| MeshView { flip_winding: flip, ..parts[i] })
}

/// The parts of the first `n` of `models` with their triangles as they are in the file;
/// those of the mirrored meshes are marked as yet to be turned.
pub open spec fn filed_parts(
    models: Seq<ModelMesh>,
    ids: Seq<usize>,
    metallic: F64,
    roughness: F64,
    n: nat,
) -> Seq<MeshView>
    decreases n,
{
    if n == 0 {
        Seq::empty()
    } else {
        let m = models[n - 1];
        filed_parts(models, ids, metallic, roughness, (n - 1) as nat) + marked(
            extract::parts_of(
                m.source,
                m.textures@,
                unmirrored(m.place),
                assemble::settings_of(metallic, roughness, ids[n - 1]),
                extract::material_numbers(m.source),
            ),
            extract::flips(m.place),
        )
    }
}

/// A mirrored mesh is turned exactly once: a tile draws, with every texture, the
/// triangles of the file, each turned round if its mesh is mirrored, and none of them
/// is left to be turned.
pub proof fn law_mirrored_turned_once(
    models: Seq<ModelMesh>,
    ids: Seq<usize>,
    metallic: F64,
    roughness: F64,
    uri: Option<Seq<char>>,
)
    requires
        models.len() == ids.len(),
        mesh::vertex_count(
            assemble::all_parts(models, ids, metallic, roughness, ids.len()),
        ) <= u32::MAX,
    ensures
        ({
            let parts = assemble::all_parts(models, ids, metallic, roughness, ids.len());
            let filed = filed_parts(models, ids, metallic, roughness, ids.len());
            let tile = merge::grouped(assemble::numbered_parts(parts, ids));
            &&& merge::groupable(assemble::numbered_parts(parts, ids))
            &&& merge::drawing_of(tile, uri) == merge::drawing_of(
                assemble::numbered_parts(filed, ids),
                uri,
            )
            &&& forall|i: int| 0 <= i < tile.len() ==> !(#[trigger] tile[i]).flip_winding
        }),
{
    let parts = assemble::all_parts(models, ids, metallic, roughness, ids.len());
    let filed = filed_parts(models, ids, metallic, roughness, ids.len());
    let all = assemble::numbered_parts(parts, ids);
    lemma_all_turned(models, ids, metallic, roughness, ids.len());
    law_parts_sound(models, ids, metallic, roughness);
    merge::law_merge_draws_the_same(all, uri);
    lemma_drawing_opened(all, assemble::numbered_parts(filed, ids), uri);
}

/// The parts of a tile, with the vertices' components, are sound: their attributes are of
/// one length, and their indices in range.
pub proof fn law_parts_sound(
    models: Seq<ModelMesh>,
    ids: Seq<usize>,
    metallic: F64,
    roughness: F64,
)
    requires
        models.len() == ids.len(),
        mesh::vertex_count(
            assemble::all_parts(models, ids, metallic, roughness, ids.len()),
        ) <= u32::MAX,
    ensures
        ({
            let parts = assemble::all_parts(models, ids, metallic, roughness, ids.len());
            let all = assemble::numbered_parts(parts, ids);
            merge::all_sound(all) && mesh::vertex_count(all) == mesh::vertex_count(parts)
        }),
{
    let parts = assemble::all_parts(models, ids, metallic, roughness, ids.len());
    let all = assemble::numbered_parts(parts, ids);
    lemma_all_extracted(models, ids, metallic, roughness, ids.len());
    assemble::lemma_numbered_count(parts, ids);
    assert forall|i: int| 0 <= i < all.len() implies merge::sound(#[trigger] all[i]) by {
        merge::lemma_vertex_part(parts, i);
        assert(from_faces(parts[i]));
        lemma_from_faces(parts[i]);
        assert forall|k: int| 0 <= k < all[i].indices.len() implies (#[trigger] all[i].indices[k])
            < all[i].positions.len() by {
            assert(parts[i].indices[k] < parts[i].positions.len());
        }
    }
}

proof fn lemma_corners_unmirrored(
    src: SourceMesh,
    place: Option<Placement>,
    verts: Seq<extract::Vertex>,
    begin: int,
    n: nat,
)
    ensures
        extract::with_corners(src, unmirrored(place), verts, begin, n) == extract::with_corners(
            src,
            place,
            verts,
            begin,
            n,
        ),
        extract::with_corners(src, place, verts, begin, n).1.len() == n,
    decreases n,
{
    if n > 0 {
        lemma_corners_unmirrored(src, place, verts, begin, (n - 1) as nat);
        assert(extract::vertex_at(src, unmirrored(place), begin + n - 1) == extract::vertex_at(
            src,
            place,
            begin + n - 1,
        ));
    }
}

proof fn lemma_fan_turned(corners: Seq<u32>)
    requires
        corners.len() >= 3,
    ensures
        extract::fan(corners, true) == merge::flipped(extract::fan(corners, false)),
        extract::fan(corners, false).len() % 3 == 0,
{
    let a = extract::fan(corners, true);
    let b = merge::flipped(extract::fan(corners, false));
    let n = corners.len() - 2;
    assert((3 * n) / 3 * 3 == 3 * n);
    assert forall|k: int| 0 <= k < a.len() implies a[k] == b[k] by {
        if k % 3 == 1 {
            assert((k + 1) % 3 == 2 && (k + 1) / 3 == k / 3);
        } else if k % 3 == 2 {
            assert((k - 1) % 3 == 1 && (k - 1) / 3 == k / 3);
        }
    }
    assert(a =~= b);
}

proof fn lemma_flipped_concat(a: Seq<u32>, b: Seq<u32>)
    requires
        a.len() % 3 == 0,
        b.len() % 3 == 0,
    ensures
        merge::flipped(a + b) == merge::flipped(a) + merge::flipped(b),
        (a + b).len() % 3 == 0,
{
    let l = merge::flipped(a + b);
    let r = merge::flipped(a) + merge::flipped(b);
    assert(l.len() == r.len());
    assert forall|k: int| 0 <= k < l.len() implies l[k] == r[k] by {
        let n = a.len() as int;
        if k >= n {
            assert((k - n) % 3 == k % 3);
        }
    }
    assert(l =~= r);
}

proof fn lemma_extracted_turned(
    src: SourceMesh,
    place: Option<Placement>,
    flip: bool,
    faces: Seq<usize>,
)
    ensures
        ({
            let turned = extract::extracted(src, place, flip, faces);
            let filed = extract::extracted(src, unmirrored(place), false, faces);
            &&& turned.0 == filed.0
            &&& turned.1 == if flip {
                merge::flipped(filed.1)
            } else {
                filed.1
            }
            &&& filed.1.len() % 3 == 0
        }),
    decreases faces.len(),
{
    let filed = extract::extracted(src, unmirrored(place), false, faces);
    if faces.len() == 0 {
        assert(merge::flipped(filed.1) =~= filed.1);
    } else {
        let rest = faces.drop_last();
        lemma_extracted_turned(src, place, flip, rest);
        let before = extract::extracted(src, unmirrored(place), false, rest);
        let f = src.faces@[faces.last() as int];
        if f.count >= 3 {
            lemma_corners_unmirrored(src, place, before.0, f.begin as int, f.count as nat);
            let c = extract::with_corners(src, place, before.0, f.begin as int, f.count as nat).1;
            lemma_fan_turned(c);
            lemma_flipped_concat(before.1, extract::fan(c, false));
        }
    }
}

/// What the parts of the file are when they are drawn.
proof fn lemma_parts_turned(
    src: SourceMesh,
    textures: Seq<Option<Texture>>,
    place: Option<Placement>,
    settings: PartSettings,
    mats: Seq<usize>,
)
    ensures
        opens(
            extract::parts_of(src, textures, place, settings, mats),
            marked(
                extract::parts_of(src, textures, unmirrored(place), settings, mats),
                extract::flips(place),
            ),
        ),
    decreases mats.len(),
{
    if mats.len() > 0 {
        let mat = mats.last();
        let flip = extract::flips(place);
        lemma_parts_turned(src, textures, place, settings, mats.drop_last());
        lemma_extracted_turned(src, place, flip, extract::part_faces(src, mat));
        let turned = extract::extracted(src, place, flip, extract::part_faces(src, mat));
        let filed = extract::extracted(
            src,
            unmirrored(place),
            false,
            extract::part_faces(src, mat),
        );
        assert(flip ==> turned.1.len() == filed.1.len());
        let a = extract::part_of(src, textures, place, settings, mat);
        let b = extract::part_of(src, textures, unmirrored(place), settings, mat);
        assert(a is Some == b is Some);
        if a is Some {
            let c = MeshView { flip_winding: flip, ..b->0 };
            assert(a->0 =~= merge::opened(c));
        }
        let old_parts = extract::parts_of(src, textures, place, settings, mats.drop_last());
        let old_filed = marked(
            extract::parts_of(src, textures, unmirrored(place), settings, mats.drop_last()),
            flip,
        );
        let parts = extract::parts_of(src, textures, place, settings, mats);
        let all = marked(
            extract::parts_of(src, textures, unmirrored(place), settings, mats),
            flip,
        );
        assert forall|i: int| 0 <= i < parts.len() implies #[trigger] parts[i] == merge::opened(
            all[i],
        ) by {
            if i < old_parts.len() {
                assert(parts[i] == old_parts[i]);
                assert(all[i] == old_filed[i]);
            }
        }
    }
}

/// Whether `a` are the meshes `b` with their triangles as they are drawn.
spec fn opens(a: Seq<MeshView>, b: Seq<MeshView>) -> bool {
    &&& a.len() == b.len()
    &&& forall|i: int| 0 <= i < a.len() ==> #[trigger] a[i] == merge::opened(b[i])
}

proof fn lemma_all_turned(
    models: Seq<ModelMesh>,
    ids: Seq<usize>,
    metallic: F64,
    roughness: F64,
    n: nat,
)
    ensures
        opens(
            assemble::all_parts(models, ids, metallic, roughness, n),
            filed_parts(models, ids, metallic, roughness, n),
        ),
    decreases n,
{
    if n > 0 {
        lemma_all_turned(models, ids, metallic, roughness, (n - 1) as nat);
        let m = models[n - 1];
        lemma_parts_turned(
            m.source,
            m.textures@,
            m.place,
            assemble::settings_of(metallic, roughness, ids[n - 1]),
            extract::material_numbers(m.source),
        );
    }
}

proof fn lemma_drawing_opened(all: Seq<MeshView>, filed: Seq<MeshView>, uri: Option<Seq<char>>)
    requires
        all.len() == filed.len(),
        forall|i: int| 0 <= i < all.len() ==> #[trigger] all[i] == merge::opened(filed[i]),
    ensures
        merge::drawing_of(all, uri) == merge::drawing_of(filed, uri),
    decreases all.len(),
{
    if all.len() > 0 {
        let rest = all.drop_last();
        assert forall|i: int| 0 <= i < rest.len() implies #[trigger] rest[i] == merge::opened(
            filed.drop_last()[i],
        ) by {
            assert(rest[i] == all[i]);
        }
        lemma_drawing_opened(rest, filed.drop_last(), uri);
        let last = all.len() - 1;
        assert(all[last] == merge::opened(filed[last]));
        assert(merge::drawing(all[last]) =~= merge::drawing(filed[last]));
    }
}

/// Whether a part is what faces give.
spec fn from_faces(p: MeshView) -> bool {
    exists|src: SourceMesh, place: Option<Placement>, flip: bool, faces: Seq<usize>|
        made_of(p, #[trigger] extract::extracted(src, place, flip, faces))
}

/// Whether a part has these vertices and triangles.
spec fn made_of(p: MeshView, e: (Seq<extract::Vertex>, Seq<u32>)) -> bool {
    &&& p.positions.len() == e.0.len()
    &&& p.normals.len() == e.0.len()
    &&& p.uvs.len() == e.0.len()
    &&& p.indices == e.1
}

proof fn lemma_from_faces(p: MeshView)
    requires
        from_faces(p),
        p.positions.len() <= u32::MAX,
    ensures
        p.normals.len() == p.positions.len(),
        p.uvs.len() == p.positions.len(),
        extract::within(p.indices, p.positions.len()),
{
    let (src, place, flip, faces) = choose|
        src: SourceMesh,
        place: Option<Placement>,
        flip: bool,
        faces: Seq<usize>,
    |
        made_of(p, #[trigger] extract::extracted(src, place, flip, faces));
    extract::law_extracted_sound(src, place, flip, faces);
}

proof fn lemma_parts_extracted(
    src: SourceMesh,
    textures: Seq<Option<Texture>>,
    place: Option<Placement>,
    settings: PartSettings,
    mats: Seq<usize>,
)
    ensures
        forall|i: int|
            0 <= i < extract::parts_of(src, textures, place, settings, mats).len() ==> from_faces(
                #[trigger] extract::parts_of(src, textures, place, settings, mats)[i],
            ),
    decreases mats.len(),
{
    if mats.len() > 0 {
        lemma_parts_extracted(src, textures, place, settings, mats.drop_last());
        let rest = extract::parts_of(src, textures, place, settings, mats.drop_last());
        let all = extract::parts_of(src, textures, place, settings, mats);
        let e = extract::extracted(
            src,
            place,
            extract::flips(place),
            extract::part_faces(src, mats.last()),
        );
        assert forall|i: int| 0 <= i < all.len() implies from_faces(#[trigger] all[i]) by {
            if i < rest.len() {
                assert(all[i] == rest[i]);
            } else {
                assert(made_of(all[i], e));
            }
        }
    }
}

proof fn lemma_all_extracted(
    models: Seq<ModelMesh>,
    ids: Seq<usize>,
    metallic: F64,
    roughness: F64,
    n: nat,
)
    ensures
        forall|i: int|
            0 <= i < assemble::all_parts(models, ids, metallic, roughness, n).len() ==> from_faces(
                #[trigger] assemble::all_parts(models, ids, metallic, roughness, n)[i],
            ),
    decreases n,
{
    if n > 0 {
        lemma_all_extracted(models, ids, metallic, roughness, (n - 1) as nat);
        let m = models[n - 1];
        let settings = assemble::settings_of(metallic, roughness, ids[n - 1]);
        lemma_parts_extracted(
            m.source,
            m.textures@,
            m.place,
            settings,
            extract::material_numbers(m.source),
        );
        let rest = assemble::all_parts(models, ids, metallic, roughness, (n - 1) as nat);
        let all = assemble::all_parts(models, ids, metallic, roughness, n);
        let more = assemble::model_parts(m, metallic, roughness, ids[n - 1]);
        assert forall|i: int| 0 <= i < all.len() implies from_faces(#[trigger] all[i]) by {
            if i < rest.len() {
                assert(all[i] == rest[i]);
            } else {
                assert(all[i] == more[i - rest.len()]);
            }
        }
    }
}

} // verus!
