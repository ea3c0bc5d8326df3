use std::collections::HashMap;
use tile3d::assemble::{assemble_tile, gather_parts, measure_tile, ModelMesh};
use tile3d::b3dm::batch_json;
use tile3d::boxes::widen_bounds;
use tile3d::extract::{Face, Placement, SourceMesh, Stream3};
use tile3d::float::F64;
use tile3d::json::{collect_fractions, to_text, Json};
use tile3d::merge::{are_ready, drawn_indices};
use tile3d::octree::{Aabb, OctreeBuilder, OctreeNode};
use tile3d::pipeline::plan_jobs;
use tile3d::scenetree::{build_scenetree, name_component, Angle, Frame, SceneMesh, Stand};

fn d(x: f64) -> F64 {
    F64 { bits: x.to_bits() }
}

fn d3(x: f64, y: f64, z: f64) -> [F64; 3] {
    [d(x), d(y), d(z)]
}

fn value(j: &Json) -> serde_json::Value {
    let mut patterns: Vec<u64> = Vec::new();
    collect_fractions(j, &mut patterns);
    let table: HashMap<u64, serde_json::Value> =
        patterns.into_iter().map(|p| (p, serde_json::Value::from(f64::from_bits(p)))).collect();
    serde_json::from_str(&to_text(j, &table).unwrap()).unwrap()
}

/// A triangle that stands at `x`.
fn model(x: f64) -> ModelMesh {
    ModelMesh {
        source: SourceMesh {
            name: String::new(),
            faces: vec![Face { begin: 0, count: 3 }],
            face_material: vec![],
            positions: Stream3 {
                values: vec![d3(x, 0.0, 0.0), d3(x + 1.0, 3.0, 0.0), d3(x, 1.0, -7.5)],
                indices: vec![0, 1, 2],
            },
            normals: None,
            uvs: None,
        },
        textures: vec![],
        place: None,
    }
}

#[test]
fn a_picked_component_is_found_in_the_scene_tree() {
    let names: Vec<String> = vec![
        name_component("tank", "", 0),
        name_component("", "pump node", 1),
        name_component("", "", 2),
    ];
    let ids = vec![1, 2];
    let models = vec![model(10.0), model(20.0)];
    let tile = assemble_tile(gather_parts(&models, &ids, d(0.0), d(1.0)), &ids, &names);
    let table = value(&batch_json(&tile.batch_names, &tile.batch_gids));

    let meshes: Vec<SceneMesh> = names
        .iter()
        .map(|n| SceneMesh { name: n.clone(), positions: vec![d3(0.0, 0.0, 0.0)] })
        .collect();
    let north = Angle { sin: d(0.0), cos: d(1.0) };
    let stand = Stand { longitude: north, latitude: north, heading: north };
    let frame = Frame { scale: d(1.0), off: d3(0.0, 0.0, 0.0) };
    let tree = value(&build_scenetree(&meshes, &frame, &stand));
    let children = tree["scenes"][0]["children"].as_array().unwrap();

    // The fourth vertex is of the second mesh of the tile, which is the third of all.
    let row = tile.meshes[0].batch_ids[3] as usize;
    let id = &table["id"][row];
    let found: Vec<&serde_json::Value> = children.iter().filter(|c| &c["id"] == id).collect();
    assert_eq!(found.len(), 1);
    assert_eq!(found[0]["name"], "mesh_2");
    assert_eq!(table["name"][row], "mesh_2");
}

#[test]
fn a_mirrored_mesh_is_turned_once() {
    let names: Vec<String> = vec!["a".to_string(), "b".to_string(), "c".to_string()];
    let ids = vec![0, 1, 2];
    for mirrored in [[false, true, false], [true, false, true], [true, true, true]] {
        let models: Vec<ModelMesh> = mirrored
            .iter()
            .map(|m| {
                let mut x = model(0.0);
                let off = d3(0.0, 0.0, 0.0);
                x.place = Some(Placement { scale: d(1.0), off, flip_winding: *m });
                x
            })
            .collect();
        let tile = assemble_tile(gather_parts(&models, &ids, d(0.0), d(1.0)), &ids, &names);
        assert_eq!(tile.meshes.len(), 1);
        let drawn = drawn_indices(&tile.meshes[0]);
        for (i, m) in mirrored.iter().enumerate() {
            let at = 3 * i as u32;
            let want = if *m { [at, at + 2, at + 1] } else { [at, at + 1, at + 2] };
            assert_eq!(drawn[3 * i..3 * i + 3], want);
        }
    }
}

#[test]
fn a_volume_holds_every_vertex() {
    let names: Vec<String> = vec!["a".to_string(), "b".to_string()];
    let ids = vec![0, 1];
    let models = vec![model(-1.0e7), model(0.125)];
    let parts = gather_parts(&models, &ids, d(0.0), d(1.0));
    assert!(are_ready(&parts));
    let tile = assemble_tile(parts, &ids, &names);
    let volume = widen_bounds(measure_tile(&tile).unwrap());
    for m in &tile.meshes {
        for p in &m.positions {
            for k in 0..3 {
                assert!(volume.min[k].le(p[k]));
                assert!(p[k].le(volume.max[k]));
            }
        }
        for i in drawn_indices(m) {
            assert!((i as usize) < m.positions.len());
        }
    }
}

#[test]
fn a_leaf_has_reached_a_limit() {
    let mut centers: Vec<[F64; 3]> = Vec::new();
    let mut tris: Vec<u64> = Vec::new();
    for i in 0..60_u64 {
        let t = (i * 37 % 60) as f64;
        centers.push(d3(t, (i * 11 % 60) as f64, (i * 23 % 60) as f64));
        tris.push(1 + i * i % 50);
    }
    let builder = OctreeBuilder {
        max_depth: 4,
        max_meshes_per_leaf: 3,
        min_extent: d(6.0),
        max_triangles_per_tile: 40,
    };
    let cell = Aabb { min: d3(-1.0, -1.0, -1.0), max: d3(60.0, 60.0, 60.0) };
    let tree = builder.build(cell, &centers, &tris);
    let mut leaves: Vec<&OctreeNode> = Vec::new();
    tree.collect_leaves(&mut leaves);
    assert!(leaves.len() > 8);
    for leaf in leaves {
        let held: u64 = leaf.mesh_ids.iter().map(|id| tris[*id]).sum();
        let width = f64::from_bits(leaf.bounds.horizontal_extent().bits);
        assert!(leaf.depth == 4 || leaf.mesh_ids.len() <= 1 || held <= 40 || width < 6.0);
        for id in &leaf.mesh_ids {
            assert!(leaf.bounds.contains_point(&centers[*id]));
        }
        assert!(leaf.mesh_ids.windows(2).all(|w| w[0] < w[1]));
    }
}

#[test]
fn every_mesh_with_a_triangle_is_written_once() {
    let count = 12;
    let models: Vec<ModelMesh> = (0..count)
        .map(|i| {
            let mut m = model(3.0 * i as f64);
            // Two of them have nothing to draw.
            if i % 6 == 5 {
                m.source.faces[0].count = 2;
            }
            m
        })
        .collect();
    let centers: Vec<[F64; 3]> = (0..count).map(|i| d3(3.0 * i as f64, 1.0, 1.0)).collect();
    let tris: Vec<u64> = (0..count as u64).map(|i| 1000 + 9000 * (i * 5 % 7)).collect();
    let builder = OctreeBuilder {
        max_depth: 5,
        max_meshes_per_leaf: 1,
        min_extent: d(1.0),
        max_triangles_per_tile: 40000,
    };
    let cell = Aabb { min: d3(-1.0, -1.0, -1.0), max: d3(40.0, 40.0, 40.0) };
    let tree = builder.build(cell, &centers, &tris);
    let names: Vec<String> = (0..count).map(|i| i.to_string()).collect();
    for megabytes in [0.5, 4.0, 20.0] {
        let mut seen = vec![0; count];
        for job in plan_jobs(&tree, &tris, 0, d(megabytes)) {
            let picked: Vec<ModelMesh> = job
                .ids
                .iter()
                .map(|id| {
                    let mut m = model(3.0 * *id as f64);
                    m.source.faces[0].count = models[*id].source.faces[0].count;
                    m
                })
                .collect();
            let parts = gather_parts(&picked, &job.ids, d(0.0), d(1.0));
            let tile = assemble_tile(parts, &job.ids, &names);
            assert!(tile.batch_gids.windows(2).all(|w| w[0] < w[1]));
            let total: u64 = job.ids.iter().map(|id| tris[*id]).sum();
            let budget = tile3d::tiles::triangle_budget(d(megabytes));
            assert!(job.ids.len() == job.node.mesh_ids.len() || total <= budget);
            if measure_tile(&tile).is_none() {
                continue;
            }
            for id in &tile.batch_gids {
                seen[*id] += 1;
            }
            for m in &tile.meshes {
                for (p, row) in m.positions.iter().zip(&m.batch_ids) {
                    // A vertex stands where its own mesh does.
                    let x = f32::from_bits(p[0].bits) as f64;
                    let own = tile.batch_gids[*row as usize] as f64;
                    assert!(x == 3.0 * own || x == 3.0 * own + 1.0);
                }
            }
        }
        for i in 0..count {
            assert!(seen[i] == 1 || (i % 6 == 5 && seen[i] == 0));
        }
    }
}
