use tile3d::assemble::{assemble_tile, gather_parts, measure_tile, node_mesh_ids, ModelMesh};
use tile3d::extract::{placed_position, Face, Placement, SourceMesh, Stream3, Texture};
use tile3d::float::{F32, F64};
use tile3d::mesh::TileGeometry;
use tile3d::model::{
    box_corners, buried_count, ground, linear_determinant, mean_point, mirrors, model_frame,
    model_scale, octree_builder, octree_centers, points_box, root_cell, survey, Survey,
};
use tile3d::octree::{Aabb, OctreeNode};
use tile3d::scenetree::frame_point;

fn d(x: f64) -> F64 {
    F64 { bits: x.to_bits() }
}

fn n(x: F64) -> f64 {
    f64::from_bits(x.bits)
}

fn d3(x: f64, y: f64, z: f64) -> [F64; 3] {
    [d(x), d(y), d(z)]
}

fn n3(p: [F64; 3]) -> [f64; 3] {
    [n(p[0]), n(p[1]), n(p[2])]
}

#[test]
fn corners_are_numbered_by_bits() {
    let b = points_box(&vec![d3(0.0, 5.0, 2.0), d3(1.0, 4.0, 3.0)]);
    assert_eq!(n3(b.min), [0.0, 4.0, 2.0]);
    assert_eq!(n3(b.max), [1.0, 5.0, 3.0]);
    let c = box_corners(&b);
    assert_eq!(c.len(), 8);
    assert_eq!(n3(c[0]), [0.0, 4.0, 2.0]);
    assert_eq!(n3(c[1]), [1.0, 4.0, 2.0]);
    assert_eq!(n3(c[2]), [0.0, 5.0, 2.0]);
    assert_eq!(n3(c[4]), [0.0, 4.0, 3.0]);
    assert_eq!(n3(c[7]), [1.0, 5.0, 3.0]);
}

#[test]
fn a_survey_tells_the_lowest_of_each_mesh() {
    let s = survey(&vec![
        vec![d3(0.0, 3.0, 0.0), d3(1.0, 2.0, 9.0)],
        vec![d3(-4.0, f64::NAN, 0.0)],
        vec![d3(0.0, -1.0, 0.0), d3(0.0, 7.0, 0.0)],
        vec![],
    ]);
    assert_eq!(n3(s.bounds.min), [-4.0, -1.0, 0.0]);
    assert_eq!(n3(s.bounds.max), [1.0, 7.0, 9.0]);
    assert_eq!(s.lowest.iter().map(|y| n(*y)).collect::<Vec<f64>>(), vec![2.0, -1.0]);
}

#[test]
fn the_scale_falls_back_to_centimetres() {
    assert_eq!(n(model_scale(d(1.0))), 1.0);
    assert_eq!(n(model_scale(d(0.0254))), 0.0254);
    for bad in [0.0, -1.0, f64::NAN, f64::INFINITY] {
        assert_eq!(n(model_scale(d(bad))), 0.01);
    }
}

#[test]
fn one_mesh_in_twenty_may_be_buried() {
    for len in [1_usize, 19, 20, 39, 40, 100, 2217] {
        assert_eq!(buried_count(len), (((len as f64) * 0.05) as usize).min(len - 1));
    }
    assert_eq!(buried_count(2217), 110);
}

#[test]
fn the_ground_is_not_the_lowest_point() {
    let mut heights: Vec<F64> = (0..40).map(|i| d(8.5 + ((i * 17) % 40) as f64)).collect();
    heights[3] = d(-100.0);
    let s = Survey { bounds: Aabb::empty(), lowest: heights.clone() };
    let g = n(ground(&s));
    let mut sorted: Vec<f64> = heights.iter().map(|y| n(*y)).collect();
    sorted.sort_by(|a, b| a.partial_cmp(b).unwrap());
    assert_eq!(g, sorted[2]);
    assert_eq!(g, 9.5);
    assert_eq!(heights.iter().filter(|y| n(**y) < g).count(), 2);
    let none = Survey {
        bounds: Aabb { min: d3(1.0, -7.0, 2.0), max: d3(3.0, 4.0, 5.0) },
        lowest: vec![],
    };
    assert_eq!(n(ground(&none)), -7.0);
}

#[test]
fn the_frame_stands_on_the_ground() {
    let f = model_frame(d(850.0), d(-1.5), d(0.01), d(70.9), d(-3.0));
    let level = 850.0 - -1.5 / 0.01;
    assert_eq!(n3(f.off), [70.9, level * 0.01, -3.0]);
    let p = frame_point(d3(100.0, 850.0, 0.0), &f);
    assert_eq!(n3(p), [100.0 * 0.01 - 70.9, 850.0 * 0.01 - level * 0.01, 3.0]);
    // A negative offset sinks the model, a positive one lifts it.
    assert!((n(p[1]) - -1.5).abs() < 1e-9);
    let lifted = model_frame(d(850.0), d(1.0), d(0.01), d(0.0), d(0.0));
    assert!((n(frame_point(d3(0.0, 850.0, 0.0), &lifted)[1]) - 1.0).abs() < 1e-9);
}

#[test]
fn the_offset_is_in_metres() {
    for scale in [1.0, 0.01, 0.0254, 1000.0] {
        for offset in [-1.5, 0.0, 0.25, 12.0, -300.0] {
            for y in [850.0, -3.25, 1e6] {
                let on_ground = model_frame(d(850.0), d(0.0), d(scale), d(0.5), d(-3.0));
                let moved = model_frame(d(850.0), d(offset), d(scale), d(0.5), d(-3.0));
                let (a, b) = (
                    frame_point(d3(7.0, y, 9.0), &on_ground),
                    frame_point(d3(7.0, y, 9.0), &moved),
                );
                let reach = [y * scale, 850.0 * scale, 850.0 * scale - offset, offset]
                    .iter()
                    .fold(0.0_f64, |m, x| m.max(x.abs()));
                let off = (n(b[1]) - n(a[1]) - offset).abs();
                assert!(off <= 14.0 * reach * 2.0_f64.powi(-53));
                assert_eq!((n(a[0]), n(a[2])), (n(b[0]), n(b[2])));
                // So do the vertices, which are narrowed.
                let vertex = |off: [F64; 3]| {
                    let place = Placement { scale: d(scale), off, flip_winding: false };
                    placed_position(d3(7.0, y, 9.0), &Some(place)).map(|x| f32::from_bits(x.bits))
                };
                let (low, high) = (vertex(on_ground.off), vertex(moved.off));
                assert_eq!((low[1], high[1]), (n(a[1]) as f32, n(b[1]) as f32));
                assert_eq!((low[0], low[2]), (high[0], high[2]));
                let lost = (n(a[1]).abs() + n(b[1]).abs()) * 2.0_f64.powi(-24);
                let missed = (high[1] as f64 - low[1] as f64 - offset).abs();
                assert!(missed <= lost + 14.0 * reach * 2.0_f64.powi(-53));
            }
        }
    }
}

#[test]
fn centers_are_means() {
    let c = mean_point(&vec![d3(0.0, 1.0, 2.0), d3(3.0, 1.0, 0.5)]).unwrap();
    assert_eq!(n3(c), [1.5, 1.0, 1.25]);
    assert!(mean_point(&vec![]).is_none());
}

#[test]
fn the_root_cell_holds_every_center() {
    let centers = vec![Some(d3(0.0, 0.0, 0.0)), None, Some(d3(10.0, 4.0, 2.0)), Some(d3(5.0, -4.0, 1.0))];
    let cell = root_cell(&centers);
    assert_eq!(n3(cell.min), [-0.01, -4.0 - 0.01, -0.01]);
    assert_eq!(n3(cell.max), [10.0 + 0.01, 4.0 + 0.01, 2.0 + 0.01]);
    for c in &centers {
        if let Some(p) = c {
            assert!(cell.contains_point(p));
        }
    }
    let all = octree_centers(&centers);
    assert_eq!(all.len(), 4);
    assert_eq!(n3(all[1]), [0.0, 0.0, 0.0]);
    assert_eq!(n3(all[2]), [10.0, 4.0, 2.0]);
}

#[test]
fn the_builder_is_set_up_for_a_tile_size() {
    let b = octree_builder(6, 200, d(20.0));
    assert_eq!(b.max_depth, 6);
    assert_eq!(b.max_meshes_per_leaf, 200);
    assert_eq!(n(b.min_extent), 0.5);
    assert_eq!(b.max_triangles_per_tile, 317460);
}

#[test]
fn a_negative_determinant_mirrors() {
    let m = [d3(2.0, 1.0, 0.5), d3(0.0, 3.0, 4.0), d3(1.0, -1.0, 2.0)];
    let r = [[2.0, 1.0, 0.5], [0.0, 3.0, 4.0], [1.0, -1.0, 2.0]];
    let want = r[0][0] * (r[1][1] * r[2][2] - r[1][2] * r[2][1])
        - r[0][1] * (r[1][0] * r[2][2] - r[1][2] * r[2][0])
        + r[0][2] * (r[1][0] * r[2][1] - r[1][1] * r[2][0]);
    assert_eq!(n(linear_determinant(&m)), want);
    assert_eq!(want, 22.5);
    assert!(!mirrors(&m));
    let t = [d3(0.0, 3.0, 4.0), d3(2.0, 1.0, 0.5), d3(1.0, -1.0, 2.0)];
    assert!(mirrors(&t));
    assert!(!mirrors(&[d3(0.0, 0.0, 0.0); 3]));
}

fn source(name: &str, x: f64) -> SourceMesh {
    SourceMesh {
        name: name.to_string(),
        faces: vec![Face { begin: 0, count: 3 }],
        face_material: vec![0],
        positions: Stream3 {
            values: vec![d3(x, 0.0, 0.0), d3(x + 1.0, 0.0, 0.0), d3(x, 1.0, 0.0)],
            indices: vec![0, 1, 2],
        },
        normals: None,
        uvs: None,
    }
}

fn model(name: &str, x: f64, texture: Option<&str>) -> ModelMesh {
    ModelMesh {
        source: source(name, x),
        textures: vec![texture.map(|t| Texture {
            name: t.to_string(),
            has_alpha: false,
            bytes: vec![9],
            mime: "image/jpeg".to_string(),
        })],
        place: None,
    }
}

#[test]
fn a_node_collects_its_subtree_once() {
    let leaf = |ids: Vec<usize>| {
        Box::new(OctreeNode { bounds: Aabb::empty(), mesh_ids: ids, children: Vec::new(), depth: 1 })
    };
    let node = OctreeNode {
        bounds: Aabb::empty(),
        mesh_ids: Vec::new(),
        children: vec![leaf(vec![5, 2]), leaf(vec![]), leaf(vec![3, 2])],
        depth: 0,
    };
    assert_eq!(node_mesh_ids(&node), vec![2, 3, 5]);
}

#[test]
fn a_tile_is_put_together() {
    let models = vec![
        model("a", 0.0, Some("t.jpg")),
        model("c", 20.0, None),
        model("d", 30.0, Some("t.jpg")),
    ];
    let names: Vec<String> =
        vec!["A".to_string(), "B".to_string(), "C".to_string(), "D".to_string()];
    let ids = vec![0, 2, 3];
    let parts = gather_parts(&models, &ids, d(0.0), d(0.45));
    assert_eq!(parts.len(), 3);
    assert_eq!(parts[1].name, "c_m0");
    assert_eq!(parts[1].feature_gid, 2);
    let tile = assemble_tile(parts, &ids, &names);
    assert_eq!(tile.batch_names, vec!["A", "C", "D"]);
    assert_eq!(tile.batch_gids, vec![0, 2, 3]);
    assert_eq!(tile.meshes.len(), 2);
    assert_eq!(tile.meshes[0].name, "a_m0+d_m0");
    // A vertex leads to its component.
    assert_eq!(tile.meshes[0].batch_ids, vec![0, 0, 0, 2, 2, 2]);
    assert_eq!(tile.meshes[1].batch_ids, vec![1, 1, 1]);
    let b = measure_tile(&tile).unwrap();
    assert_eq!(f32::from_bits(b.min[0].bits), 0.0);
    assert_eq!(f32::from_bits(b.max[0].bits), 31.0);
    assert_eq!(f32::from_bits(b.max[1].bits), 1.0);
}

#[test]
fn a_part_of_no_listed_component_is_the_first() {
    let models = vec![model("b", 10.0, None)];
    let names: Vec<String> = vec!["A".to_string(), "B".to_string()];
    let mut parts = gather_parts(&models, &vec![1], d(0.0), d(0.45));
    parts[0].feature_gid = 77;
    let tile = assemble_tile(parts, &vec![0, 1], &names);
    assert_eq!(tile.meshes[0].batch_ids, vec![0, 0, 0]);
}

#[test]
fn nothing_to_draw_is_no_tile() {
    let blank = TileGeometry { meshes: vec![], batch_names: vec![], batch_gids: vec![] };
    assert!(measure_tile(&blank).is_none());
    let models = vec![model("a", 0.0, None)];
    let mut parts = gather_parts(&models, &vec![0], d(0.0), d(0.45));
    parts[0].indices = vec![0, 1];
    let g = TileGeometry { meshes: parts, batch_names: vec![], batch_gids: vec![] };
    assert!(measure_tile(&g).is_none());
}

#[test]
fn a_tile_without_numbers_has_an_empty_box() {
    let models = vec![model("a", f64::NAN, None)];
    let parts = gather_parts(&models, &vec![0], d(0.0), d(0.45));
    let g = TileGeometry { meshes: parts, batch_names: vec![], batch_gids: vec![] };
    let b = measure_tile(&g).unwrap();
    assert_eq!(b.min[0], F32 { bits: f32::INFINITY.to_bits() });
    assert_eq!(f32::from_bits(b.max[1].bits), 1.0);
}
