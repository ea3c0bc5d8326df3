use std::collections::HashMap;
use tile3d::float::F64;
use tile3d::lod::{collect_lod_nodes, kept_share, lod_cell_size, node_count, subtree_leaf_depth};
use tile3d::octree::{count_triangles, Aabb, OctreeBuilder, OctreeNode};

fn d(x: f64) -> F64 {
    F64 { bits: x.to_bits() }
}

fn n(x: F64) -> f64 {
    f64::from_bits(x.bits)
}

fn point(x: f64, y: f64, z: f64) -> [F64; 3] {
    [d(x), d(y), d(z)]
}

fn cube(lo: f64, hi: f64) -> Aabb {
    Aabb { min: point(lo, lo, lo), max: point(hi, hi, hi) }
}

fn builder(max_depth: u32, budget: u64) -> OctreeBuilder {
    OctreeBuilder {
        max_depth,
        max_meshes_per_leaf: 200,
        min_extent: d(0.5),
        max_triangles_per_tile: budget,
    }
}

/// Sixteen meshes on a grid of four by four by one.
fn grid() -> (Vec<[F64; 3]>, Vec<u64>) {
    let mut centers = Vec::new();
    let mut tris = Vec::new();
    for x in 0..4 {
        for y in 0..4 {
            centers.push(point(x as f64 + 0.5, y as f64 + 0.5, 0.5));
            tris.push(10);
        }
    }
    (centers, tris)
}

#[test]
fn an_empty_box_is_inside_out() {
    let b = Aabb::empty();
    for k in 0..3 {
        assert_eq!(n(b.min[k]), f64::INFINITY);
        assert_eq!(n(b.max[k]), f64::NEG_INFINITY);
    }
    assert!(!b.contains_point(&point(0.0, 0.0, 0.0)));
    assert_eq!(n(b.max_extent()), 0.0);
}

#[test]
fn a_box_grows_to_hold_points() {
    let mut b = Aabb::empty();
    b.expand_point(point(1.0, -2.0, 3.0));
    b.expand_point(point(-1.0, 5.0, 3.5));
    b.expand_point(point(0.0, f64::NAN, 3.25));
    assert_eq!([n(b.min[0]), n(b.min[1]), n(b.min[2])], [-1.0, -2.0, 3.0]);
    assert_eq!([n(b.max[0]), n(b.max[1]), n(b.max[2])], [1.0, 5.0, 3.5]);
    assert!(b.contains_point(&point(1.0, -2.0, 3.0)));
    assert!(!b.contains_point(&point(1.5, 0.0, 3.0)));
    assert!(!b.contains_point(&point(f64::NAN, 0.0, 3.0)));
    let c = b.center();
    assert_eq!([n(c[0]), n(c[1]), n(c[2])], [0.0, 1.5, 3.25]);
    assert_eq!(n(b.max_extent()), 7.0);
}

#[test]
fn only_two_axes_count_for_the_width() {
    let b = Aabb { min: point(0.0, 0.0, 0.0), max: point(1.0, 2.0, 30.0) };
    assert_eq!(n(b.horizontal_extent()), 2.0);
    assert_eq!(n(b.max_extent()), 30.0);
}

#[test]
fn octants_are_numbered_by_bits() {
    let parts = cube(0.0, 2.0).split();
    for i in 0..8 {
        for k in 0..3 {
            let upper = i >> k & 1 == 1;
            assert_eq!(n(parts[i].min[k]), if upper { 1.0 } else { 0.0 });
            assert_eq!(n(parts[i].max[k]), if upper { 2.0 } else { 1.0 });
        }
    }
}

#[test]
fn octants_cover_the_box() {
    let b = Aabb { min: point(-1.0, 0.25, 3.0), max: point(7.0, 0.5, 3.0) };
    let parts = b.split();
    for i in 0..50 {
        let t = i as f64 / 49.0;
        let p = point(-1.0 + 8.0 * t, 0.25 + 0.25 * t, 3.0);
        assert!(b.contains_point(&p));
        assert!(parts.iter().any(|c| c.contains_point(&p)));
    }
}

#[test]
fn a_light_model_is_one_leaf() {
    let (centers, tris) = grid();
    let tree = builder(6, 160).build(cube(0.0, 4.0), &centers, &tris);
    assert!(tree.is_leaf());
    assert_eq!(tree.mesh_ids, (0..16).collect::<Vec<usize>>());
    assert_eq!(tree.leaf_count(), 1);
}

#[test]
fn a_heavy_model_is_split() {
    let (centers, tris) = grid();
    let tree = builder(6, 40).build(cube(0.0, 4.0), &centers, &tris);
    assert!(!tree.is_leaf());
    assert!(tree.mesh_ids.is_empty());
    assert_eq!(tree.children.len(), 8);
    assert_eq!(tree.leaf_count(), 8);
    assert_eq!(tree.total_mesh_count(), 16);
    // The lower left quarter.
    assert_eq!(tree.children[0].mesh_ids, vec![0, 1, 4, 5]);
    assert_eq!(tree.children[3].mesh_ids, vec![10, 11, 14, 15]);
    assert!(tree.children[4].mesh_ids.is_empty());
    let mut count: HashMap<u32, usize> = HashMap::new();
    count.insert(7, 3);
    tree.depth_histogram(&mut count);
    assert_eq!(count[&0], 1);
    assert_eq!(count[&1], 8);
    assert_eq!(count[&7], 3);
}

#[test]
fn each_mesh_is_in_one_leaf() {
    let (centers, tris) = grid();
    for budget in [1, 10, 20, 40, 100] {
        for depth in 0..5 {
            let tree = builder(depth, budget).build(cube(0.0, 4.0), &centers, &tris);
            let mut leaves: Vec<&OctreeNode> = Vec::new();
            tree.collect_leaves(&mut leaves);
            assert_eq!(leaves.len(), tree.leaf_count());
            let mut ids: Vec<usize> = Vec::new();
            for l in &leaves {
                assert!(l.is_leaf());
                assert!(l.depth <= depth);
                ids.extend_from_slice(&l.mesh_ids);
            }
            let mut all: Vec<usize> = Vec::new();
            tree.collect_subtree_mesh_ids(&mut all);
            assert_eq!(all, ids);
            ids.sort();
            assert_eq!(ids, (0..16).collect::<Vec<usize>>());
        }
    }
}

#[test]
fn a_mesh_outside_goes_to_the_nearest_octant() {
    let centers = vec![point(-5.0, 1.0, 1.0), point(9.0, 9.0, 9.0), point(f64::NAN, 0.0, 0.0)];
    let tris = vec![5, 5, 5];
    let tree = builder(1, 1).build(cube(0.0, 4.0), &centers, &tris);
    assert_eq!(tree.children[0].mesh_ids, vec![0, 2]);
    assert_eq!(tree.children[7].mesh_ids, vec![1]);
    assert_eq!(tree.total_mesh_count(), 3);
}

#[test]
fn a_narrow_cell_is_not_split() {
    let centers = vec![point(0.1, 0.1, 0.0), point(0.2, 0.2, 30.0)];
    let tris = vec![5, 5];
    let thin = Aabb { min: point(0.0, 0.0, 0.0), max: point(0.4, 0.4, 40.0) };
    assert!(builder(6, 1).build(thin, &centers, &tris).is_leaf());
    let wide = Aabb { min: point(0.0, 0.0, 0.0), max: point(0.5, 0.4, 40.0) };
    assert!(!builder(6, 1).build(wide, &centers, &tris).is_leaf());
}

#[test]
fn triangles_are_counted() {
    assert_eq!(count_triangles(&[5, 7, 11], &[2, 0, 2]), 27);
    assert_eq!(count_triangles(&[5], &[]), 0);
}

#[test]
fn layers_have_their_cell_sizes() {
    let sizes: Vec<f32> = (0..6).map(|i| f32::from_bits(lod_cell_size(i).bits)).collect();
    assert_eq!(sizes, vec![0.0, 0.35, 1.5, 6.0, 24.0, 24.0]);
}

#[test]
fn coarser_layers_keep_less() {
    let shares: Vec<f32> = (0..6).map(|i| f32::from_bits(kept_share(i).bits)).collect();
    let quarters: [f32; 6] = [0.0, 0.35, 0.0875, 0.021875, 0.00546875, 0.00546875];
    assert_eq!(shares, quarters.to_vec());
}

/// A root of which one octant is split once more.
fn uneven() -> OctreeNode {
    let centers = vec![
        point(0.2, 0.2, 0.2),
        point(0.8, 0.8, 0.8),
        point(1.5, 0.5, 0.5),
        point(0.5, 1.5, 1.5),
    ];
    let tris = vec![10, 10, 10, 10];
    builder(6, 10).build(cube(0.0, 2.0), &centers, &tris)
}

#[test]
fn the_deepest_leaf_is_found() {
    let tree = uneven();
    assert_eq!(subtree_leaf_depth(&tree), 2);
    assert_eq!(subtree_leaf_depth(&tree.children[0]), 2);
    assert_eq!(subtree_leaf_depth(&tree.children[1]), 1);
}

fn below(node: &OctreeNode) -> Vec<&OctreeNode> {
    let mut all = vec![node];
    for c in &node.children {
        all.extend(below(c));
    }
    all
}

#[test]
fn no_node_has_smaller_cells_than_one_below_it() {
    let tree = uneven();
    let cell = |x: &OctreeNode, levels: u32| {
        let layer = subtree_leaf_depth(x) - x.depth;
        f32::from_bits(lod_cell_size(layer.min(levels)).bits)
    };
    for levels in [0, 1, 2, 5] {
        for a in below(&tree) {
            for b in below(a) {
                assert!(cell(b, levels) <= cell(a, levels));
            }
        }
    }
}

#[test]
fn every_filled_node_has_a_layer() {
    let tree = uneven();
    assert_eq!(node_count(&tree), 17);
    let mut out: Vec<(usize, &OctreeNode, tile3d::float::F32)> = Vec::new();
    collect_lod_nodes(&tree, 0, 2, &mut out);
    let seen: Vec<(usize, u32, f32)> =
        out.iter().map(|(i, node, c)| (*i, node.depth, f32::from_bits(c.bits))).collect();
    // The root is two layers above its leaves, the split octant one; leaves are kept
    // as they are, at whatever depth they stand.
    assert_eq!(
        seen,
        vec![(0, 0, 1.5), (1, 1, 0.35), (2, 2, 0.0), (9, 2, 0.0), (10, 1, 0.0), (15, 1, 0.0)]
    );
    let mut coarse: Vec<(usize, &OctreeNode, tile3d::float::F32)> = Vec::new();
    collect_lod_nodes(&tree, 0, 1, &mut coarse);
    assert_eq!(f32::from_bits(coarse[0].2.bits), 0.35);
}

#[test]
fn an_empty_tree_has_no_layers() {
    let tree = builder(3, 1).build(cube(0.0, 1.0), &[], &[]);
    let mut out: Vec<(usize, &OctreeNode, tile3d::float::F32)> = Vec::new();
    collect_lod_nodes(&tree, 0, 2, &mut out);
    assert!(out.is_empty());
}
