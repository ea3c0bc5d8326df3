use tile3d::float::F32;
use tile3d::merge::{are_ready, drawn_indices, merge_meshes_by_texture};
use tile3d::mesh::{copied, mesh_radius, same_text, MeshData, TileGeometry};
use tile3d::simplify::{indices_in_range, simplify_mesh, simplify_request};

fn s(x: f32) -> F32 {
    F32 { bits: x.to_bits() }
}

fn v3(x: f32, y: f32, z: f32) -> [F32; 3] {
    [s(x), s(y), s(z)]
}

/// A mesh of one triangle whose vertices stand at `x`.
fn triangle(name: &str, x: f32, texture: Option<&str>) -> MeshData {
    MeshData {
        positions: vec![v3(x, 0.0, 0.0), v3(x + 1.0, 0.0, 0.0), v3(x, 2.0, 0.0)],
        normals: vec![v3(0.0, 0.0, 1.0); 3],
        uvs: vec![[s(0.0), s(0.0)], [s(1.0), s(0.0)], [s(0.0), s(1.0)]],
        indices: vec![0, 1, 2],
        name: name.to_string(),
        flip_winding: false,
        texture_uri: texture.map(|t| t.to_string()),
        texture_bytes: None,
        texture_mime: None,
        texture_has_alpha: false,
        metallic_factor: s(0.0),
        roughness_factor: s(0.5),
        feature_gid: 0,
        batch_ids: vec![7, 7, 7],
    }
}

fn geometry(meshes: Vec<MeshData>) -> TileGeometry {
    TileGeometry { meshes, batch_names: Vec::new(), batch_gids: Vec::new() }
}

#[test]
fn totals_count_all_meshes() {
    let mut b = triangle("b", 5.0, None);
    b.indices = vec![0, 1, 2, 2, 1, 0, 1];
    let g = geometry(vec![triangle("a", 0.0, None), b]);
    assert_eq!(g.total_vertices(), 6);
    assert_eq!(g.total_triangles(), 3);
    assert_eq!(geometry(vec![]).total_vertices(), 0);
    assert_eq!(geometry(vec![]).total_triangles(), 0);
}

#[test]
fn merged_data_follows_on() {
    let g = geometry(vec![triangle("a", 0.0, None), triangle("b", 5.0, None)]);
    let (p, nr, uv, ix) = g.merged();
    assert_eq!(p.len(), 6);
    assert_eq!(p[3], v3(5.0, 0.0, 0.0));
    assert_eq!(nr.len(), 6);
    assert_eq!(uv.len(), 6);
    assert_eq!(ix, vec![0, 1, 2, 3, 4, 5]);
}

#[test]
fn the_box_is_that_of_all_vertices() {
    let g = geometry(vec![triangle("a", 0.0, None), triangle("b", -5.0, None)]);
    let (lo, hi) = g.compute_aabb_all().unwrap();
    assert_eq!(lo, v3(-5.0, 0.0, 0.0));
    assert_eq!(hi, v3(1.0, 2.0, 0.0));
    assert!(geometry(vec![]).compute_aabb_all().is_none());
    let (lo, hi) = TileGeometry::compute_aabb(&[]);
    assert_eq!(lo, [s(f32::INFINITY); 3]);
    assert_eq!(hi, [s(f32::NEG_INFINITY); 3]);
    let (lo, hi) = TileGeometry::compute_aabb(&[v3(1.0, f32::NAN, 2.0), v3(3.0, 4.0, -2.0)]);
    assert_eq!(lo, v3(1.0, 4.0, -2.0));
    assert_eq!(hi, v3(3.0, 4.0, 2.0));
}

#[test]
fn the_radius_is_half_the_diagonal() {
    let r = mesh_radius(&[v3(0.0, 0.0, 0.0), v3(2.0, 3.0, 6.0)]);
    assert_eq!(f32::from_bits(r.bits), 3.5);
    assert_eq!(f32::from_bits(mesh_radius(&[v3(9.0, 9.0, 9.0)]).bits), 0.0);
    assert_eq!(f32::from_bits(mesh_radius(&[]).bits), f32::INFINITY);
}

#[test]
fn copies_are_equal() {
    assert_eq!(copied(&vec![3, 1, 2]), vec![3, 1, 2]);
    assert!(same_text(&None, &None));
    assert!(same_text(&Some("a".to_string()), &Some("a".to_string())));
    assert!(!same_text(&Some("a".to_string()), &None));
    assert!(!same_text(&Some("a".to_string()), &Some("b".to_string())));
    let m = triangle("a", 1.0, Some("t"));
    let c = m.clone();
    assert_eq!(c.positions, m.positions);
    assert_eq!(c.indices, m.indices);
    assert_eq!(c.name, m.name);
    assert_eq!(c.texture_uri, m.texture_uri);
    assert_eq!(c.batch_ids, m.batch_ids);
}

#[test]
fn meshes_of_one_texture_are_joined() {
    let mut b = triangle("b", 5.0, Some("wall.jpg"));
    b.batch_ids = vec![8, 8, 8];
    let out = merge_meshes_by_texture(vec![
        triangle("a", 0.0, Some("wall.jpg")),
        triangle("x", 0.0, None),
        b,
        triangle("y", 9.0, None),
        triangle("z", 9.0, Some("roof.jpg")),
    ]);
    assert_eq!(out.len(), 3);
    assert_eq!(out[0].name, "a+b");
    assert_eq!(out[0].texture_uri.as_deref(), Some("wall.jpg"));
    assert_eq!(out[0].indices, vec![0, 1, 2, 3, 4, 5]);
    assert_eq!(out[0].batch_ids, vec![7, 7, 7, 8, 8, 8]);
    assert_eq!(out[0].positions[3], v3(5.0, 0.0, 0.0));
    assert_eq!(out[1].name, "x+y");
    assert_eq!(out[1].texture_uri, None);
    assert_eq!(out[2].name, "z");
}

#[test]
fn mirrored_meshes_are_turned_when_joined() {
    let mut a = triangle("a", 0.0, None);
    a.flip_winding = true;
    let mut b = triangle("b", 5.0, None);
    b.flip_winding = true;
    assert_eq!(drawn_indices(&a), vec![0, 2, 1]);
    let out = merge_meshes_by_texture(vec![a, b]);
    assert_eq!(out.len(), 1);
    assert_eq!(out[0].indices, vec![0, 2, 1, 3, 5, 4]);
    assert!(!out[0].flip_winding);
}

#[test]
fn joining_draws_the_same_corners() {
    let mut meshes: Vec<MeshData> = Vec::new();
    for i in 0..6 {
        let mut m = triangle("m", i as f32, if i % 2 == 0 { None } else { Some("t") });
        m.flip_winding = i % 3 == 0;
        meshes.push(m);
    }
    let corners = |ms: &Vec<MeshData>| -> Vec<[F32; 3]> {
        let mut v: Vec<[F32; 3]> = Vec::new();
        for texture in [None, Some("t")] {
            for m in ms {
                if m.texture_uri.as_deref() == texture {
                    for i in drawn_indices(m) {
                        v.push(m.positions[i as usize]);
                    }
                }
            }
        }
        v
    };
    let before = corners(&meshes);
    let after = merge_meshes_by_texture(meshes);
    assert_eq!(corners(&after), before);
}

#[test]
fn an_incomplete_triangle_is_not_drawn_turned() {
    let mut a = triangle("a", 0.0, None);
    a.indices = vec![0, 1, 2, 1, 2];
    assert_eq!(drawn_indices(&a), vec![0, 1, 2, 1, 2]);
    a.flip_winding = true;
    assert_eq!(drawn_indices(&a), vec![0, 2, 1]);
}

/// A strip of `n` squares.
fn strip(n: u32) -> MeshData {
    let mut m = triangle("strip", 0.0, Some("t"));
    m.positions = Vec::new();
    m.normals = Vec::new();
    m.uvs = Vec::new();
    m.indices = Vec::new();
    m.batch_ids = Vec::new();
    for i in 0..n + 1 {
        for y in 0..2 {
            m.positions.push(v3(i as f32, y as f32, 0.0));
            m.normals.push(v3(0.0, i as f32, 1.0));
            m.uvs.push([s(i as f32), s(y as f32)]);
            m.batch_ids.push(100 + i);
        }
    }
    for i in 0..n {
        m.indices.extend_from_slice(&[2 * i, 2 * i + 2, 2 * i + 1]);
        m.indices.extend_from_slice(&[2 * i + 1, 2 * i + 2, 2 * i + 3]);
    }
    m
}

#[test]
fn what_is_asked_of_the_simplifier() {
    let m = strip(10);
    let r = simplify_request(&m, s(0.35)).unwrap();
    assert_eq!(r.target_count, ((60.0_f32 * 0.35) as usize / 3 * 3).max(12));
    assert_eq!(r.target_count, 21);
    assert_eq!(f32::from_bits(r.target_error.bits), (0.05_f32 / 0.35).min(1.0));
    let low = simplify_request(&m, s(0.01)).unwrap();
    assert_eq!(low.target_count, 12);
    assert_eq!(f32::from_bits(low.target_error.bits), 1.0);
    assert!(simplify_request(&m, s(0.0)).is_none());
    assert!(simplify_request(&m, s(-1.0)).is_none());
    assert!(simplify_request(&m, s(1.0)).is_none());
    assert!(simplify_request(&m, s(24.0)).is_none());
    let mut empty = strip(1);
    empty.indices = Vec::new();
    assert!(simplify_request(&empty, s(0.5)).is_none());
}

#[test]
fn unused_vertices_are_dropped() {
    let m = strip(4);
    // The first and the last square, drawn with vertices from the back.
    let reply = vec![9, 8, 6, 0, 2, 1];
    assert!(indices_in_range(&reply, m.positions.len()));
    let r = simplify_mesh(&m, s(0.5), &reply);
    assert_eq!(r.indices.len(), 6);
    assert_eq!(r.positions.len(), 6);
    for k in 0..6 {
        let was = reply[k] as usize;
        let is = r.indices[k] as usize;
        assert_eq!(r.positions[is], m.positions[was]);
        assert_eq!(r.normals[is], m.normals[was]);
        assert_eq!(r.uvs[is], m.uvs[was]);
        assert_eq!(r.batch_ids[is], m.batch_ids[was]);
    }
    // In the order in which they are first drawn.
    assert_eq!(r.indices, vec![0, 1, 2, 3, 4, 5]);
    assert_eq!(r.name, "strip");
    assert_eq!(r.texture_uri.as_deref(), Some("t"));
}

#[test]
fn a_vertex_that_is_drawn_twice_is_kept_once() {
    let m = strip(2);
    let r = simplify_mesh(&m, s(0.5), &vec![4, 0, 2, 2, 0, 4, 4, 2, 1]);
    assert_eq!(r.indices, vec![0, 1, 2, 2, 1, 0, 0, 2, 3]);
    assert_eq!(r.positions.len(), 4);
    assert_eq!(r.positions[0], m.positions[4]);
}

#[test]
fn missing_attributes_are_filled_in() {
    let mut m = strip(2);
    m.normals = Vec::new();
    m.uvs = Vec::new();
    m.batch_ids = Vec::new();
    let r = simplify_mesh(&m, s(0.5), &vec![0, 2, 1]);
    assert_eq!(r.normals, vec![v3(0.0, 1.0, 0.0); 3]);
    assert_eq!(r.uvs, vec![[s(0.0), s(0.0)]; 3]);
    assert_eq!(r.batch_ids, vec![0, 0, 0]);
}

#[test]
fn a_useless_reply_changes_nothing() {
    let m = strip(2);
    let all: Vec<u32> = m.indices.clone();
    for (ratio, reply) in [(0.5, Vec::new()), (0.5, all), (0.0, vec![0, 2, 1]), (2.0, vec![0, 2, 1])] {
        let r = simplify_mesh(&m, s(ratio), &reply);
        assert_eq!(r.indices, m.indices);
        assert_eq!(r.positions, m.positions);
        assert_eq!(r.batch_ids, m.batch_ids);
    }
}

#[test]
fn indices_beyond_the_vertices_are_seen() {
    assert!(indices_in_range(&vec![0, 1, 2], 3));
    assert!(!indices_in_range(&vec![0, 3, 2], 3));
    assert!(indices_in_range(&vec![], 0));
}

#[test]
fn only_meshes_in_reach_are_ready() {
    assert!(are_ready(&vec![]));
    assert!(are_ready(&vec![triangle("a", 0.0, None), strip(3)]));
    let mut m = triangle("a", 0.0, None);
    m.indices = vec![0, 1, 3];
    assert!(!are_ready(&vec![strip(3), m]));
}
