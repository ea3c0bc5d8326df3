use tile3d::extract::{
    extract_faces, extract_mesh_parts, placed_normal, placed_position, turned_uv,
    wanted_textures, Face, PartSettings, Placement, SourceMesh, Stream2, Stream3, Texture, VKey,
    Vertex,
};
use tile3d::float::{F32, F64};
use tile3d::mesh::up;

fn d(x: f64) -> F64 {
    F64 { bits: x.to_bits() }
}

fn s(x: f32) -> F32 {
    F32 { bits: x.to_bits() }
}

fn d3(x: f64, y: f64, z: f64) -> [F64; 3] {
    [d(x), d(y), d(z)]
}

fn v3(x: f32, y: f32, z: f32) -> [F32; 3] {
    [s(x), s(y), s(z)]
}

fn settings() -> PartSettings {
    PartSettings { metallic: d(0.25), roughness: d(0.45), feature_gid: 12 }
}

/// A square and a triangle beside it, which share an edge.
fn house() -> SourceMesh {
    SourceMesh {
        name: "house".to_string(),
        faces: vec![Face { begin: 0, count: 4 }, Face { begin: 4, count: 3 }],
        face_material: vec![1, 0],
        positions: Stream3 {
            values: vec![
                d3(0.0, 0.0, 0.0),
                d3(1.0, 0.0, 0.0),
                d3(1.0, 1.0, 0.0),
                d3(0.0, 1.0, 0.0),
                d3(0.5, 2.0, 0.0),
            ],
            indices: vec![0, 1, 2, 3, 3, 2, 4],
        },
        normals: Some(Stream3 { values: vec![d3(0.0, 0.0, 1.0)], indices: vec![0; 7] }),
        uvs: None,
    }
}

fn wall(name: &str) -> Option<Texture> {
    Some(Texture {
        name: name.to_string(),
        has_alpha: true,
        bytes: vec![1, 2, 3],
        mime: "image/png".to_string(),
    })
}

#[test]
fn positions_are_scaled_and_moved() {
    let place = Some(Placement { scale: d(0.01), off: d3(1.0, 2.0, 3.0), flip_winding: false });
    let p = placed_position(d3(100.0, 300.0, 1234.5), &place);
    let want = [100.0 * 0.01 - 1.0, 300.0 * 0.01 - 2.0, 1234.5 * 0.01 - 3.0];
    for k in 0..3 {
        assert_eq!(f32::from_bits(p[k].bits), want[k] as f32);
    }
    assert_eq!(placed_position(d3(1.5, 2.5, 3.5), &None), v3(1.5, 2.5, 3.5));
}

#[test]
fn normals_have_length_one() {
    let place = Some(Placement { scale: d(1.0), off: d3(0.0, 0.0, 0.0), flip_winding: false });
    assert_eq!(placed_normal(d3(0.0, 3.0, 4.0), &place), v3(0.0, 0.6, 0.8));
    assert_eq!(placed_normal(d3(0.0, 0.0, 1.0e-13), &place), up());
    assert_eq!(placed_normal(d3(0.0, 3.0, 4.0), &None), v3(0.0, 3.0, 4.0));
    assert_eq!(up(), v3(0.0, 1.0, 0.0));
}

#[test]
fn texture_coordinates_are_turned() {
    let uv = turned_uv([d(0.25), d(0.75)]);
    assert_eq!(uv, [s(0.25), s(0.25)]);
}

#[test]
fn keys_tell_a_tenth_of_a_millimetre_apart() {
    let at = |x: f32| VKey::new(&Vertex { position: v3(x, 0.0, 0.0), normal: up(), uv: [s(0.0), s(1.0)] });
    assert_eq!(at(1.0).parts, [10000, 0, 0, 0, 10000, 0, 0, 10000]);
    assert!(at(1.0).same(&at(1.00004)));
    assert!(!at(1.0).same(&at(1.0001)));
    assert_eq!(at(1.0e30).parts[0], i32::MAX);
}

#[test]
fn faces_become_fans() {
    let src = house();
    let m = extract_faces(&src, &vec![0, 1], &None, &None, false, "all".to_string()).unwrap();
    // The shared edge is stored once.
    assert_eq!(m.positions.len(), 5);
    assert_eq!(m.indices, vec![0, 1, 2, 0, 2, 3, 3, 2, 4]);
    assert_eq!(m.normals, vec![v3(0.0, 0.0, 1.0); 5]);
    assert_eq!(m.uvs, vec![[s(0.0), s(0.0)]; 5]);
    assert_eq!(m.name, "all");
    assert!(m.batch_ids.is_empty());
    assert!(m.texture_uri.is_none());
}

#[test]
fn a_mirrored_mesh_is_wound_the_other_way() {
    let src = house();
    let m = extract_faces(&src, &vec![0], &None, &None, true, "m".to_string()).unwrap();
    assert_eq!(m.indices, vec![0, 2, 1, 0, 3, 2]);
    assert!(!m.flip_winding);
}

#[test]
fn lines_and_points_are_left_out() {
    let mut src = house();
    src.faces[0].count = 2;
    assert!(extract_faces(&src, &vec![0], &None, &None, false, "l".to_string()).is_none());
    assert!(extract_faces(&src, &vec![], &None, &None, false, "n".to_string()).is_none());
    let m = extract_faces(&src, &vec![0, 1], &None, &None, false, "t".to_string()).unwrap();
    assert_eq!(m.indices, vec![0, 1, 2]);
}

#[test]
fn a_mesh_falls_apart_by_material() {
    let textures = vec![None, wall("wall.png")];
    let parts = extract_mesh_parts(&house(), &textures, &None, &settings());
    assert_eq!(parts.len(), 2);
    assert_eq!(parts[0].name, "house_m0");
    assert_eq!(parts[0].indices, vec![0, 1, 2]);
    assert!(parts[0].texture_uri.is_none());
    assert_eq!(parts[1].name, "house_m1");
    assert_eq!(parts[1].indices, vec![0, 1, 2, 0, 2, 3]);
    assert_eq!(parts[1].texture_uri.as_deref(), Some("wall.png"));
    assert_eq!(parts[1].texture_bytes, Some(vec![1, 2, 3]));
    assert_eq!(parts[1].texture_mime.as_deref(), Some("image/png"));
    assert!(parts[1].texture_has_alpha);
    for p in &parts {
        assert_eq!(p.feature_gid, 12);
        assert_eq!(p.metallic_factor, s(0.25));
        assert_eq!(p.roughness_factor, s(0.45));
    }
}

#[test]
fn a_missing_material_is_the_first() {
    let mut src = house();
    src.face_material = vec![7, 0];
    let parts = extract_mesh_parts(&src, &vec![wall("a.png"), wall("b.png")], &None, &settings());
    assert_eq!(parts.len(), 2);
    assert_eq!(parts[0].name, "house_m0");
    assert_eq!(parts[1].name, "house_m7");
    assert_eq!(parts[1].texture_uri.as_deref(), Some("a.png"));
}

#[test]
fn without_face_materials_a_mesh_is_one_part() {
    for told in [vec![], vec![1]] {
        let mut src = house();
        src.face_material = told;
        let parts = extract_mesh_parts(&src, &vec![], &None, &settings());
        assert_eq!(parts.len(), 1);
        assert_eq!(parts[0].name, "house_m0");
        assert_eq!(parts[0].indices.len(), 9);
        assert!(parts[0].texture_uri.is_none());
    }
}

#[test]
fn every_corner_of_a_face_is_drawn() {
    let mut src = house();
    src.uvs = Some(Stream2 {
        values: vec![[d(0.0), d(0.0)], [d(0.5), d(0.25)]],
        indices: vec![0, 0, 0, 0, 1, 1, 1],
    });
    let m = extract_faces(&src, &vec![0, 1], &None, &None, false, "uv".to_string()).unwrap();
    // With other texture coordinates the shared edge is no longer shared.
    assert_eq!(m.positions.len(), 7);
    assert_eq!(m.uvs[0], [s(0.0), s(1.0)]);
    assert_eq!(m.uvs[6], [s(0.5), s(0.75)]);
    let corners: Vec<[F32; 3]> = m.indices.iter().map(|i| m.positions[*i as usize]).collect();
    assert_eq!(corners[0], v3(0.0, 0.0, 0.0));
    assert_eq!(corners[2], v3(1.0, 1.0, 0.0));
    assert_eq!(corners[8], v3(0.5, 2.0, 0.0));
}

#[test]
fn a_mesh_with_gaps_is_not_whole() {
    assert!(house().is_whole());
    let mut src = house();
    src.positions.indices[2] = 5;
    assert!(!src.is_whole());
    let mut src = house();
    src.faces[1].count = 4;
    assert!(!src.is_whole());
    // What is left out need not be there.
    src.faces[1] = Face { begin: 100, count: 2 };
    assert!(src.is_whole());
    let mut src = house();
    src.normals = Some(Stream3 { values: vec![], indices: vec![0; 7] });
    assert!(!src.is_whole());
    let mut src = house();
    src.uvs = Some(Stream2 { values: vec![[d(0.0), d(0.0)]], indices: vec![0; 6] });
    assert!(!src.is_whole());
}

#[test]
fn only_drawn_materials_want_their_texture() {
    let mut src = house();
    src.face_material = vec![2, 2];
    assert_eq!(wanted_textures(&src, 4), vec![false, false, true, false]);
    // A material that is not there has the texture of the first.
    assert_eq!(wanted_textures(&src, 2), vec![true, false]);
    src.face_material = vec![];
    assert_eq!(wanted_textures(&src, 2), vec![true, false]);
    assert_eq!(wanted_textures(&src, 0), Vec::<bool>::new());
    src.face_material = vec![2, 2];
    let textures = vec![wall("a.png"), None, wall("c.png")];
    let part = &extract_mesh_parts(&src, &textures, &None, &settings())[0];
    assert_eq!(part.texture_uri.as_deref(), Some("c.png"));
    let only = vec![None, None, wall("c.png")];
    let same = &extract_mesh_parts(&src, &only, &None, &settings())[0];
    assert_eq!(same.texture_uri, part.texture_uri);
}
