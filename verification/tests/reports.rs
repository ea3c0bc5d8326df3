use tile3d::float::F64;
use tile3d::names::group_names;
use tile3d::report::{
    count_of, count_used, histogram, judge_faces, largest_first, report_materials, report_sizes,
    spread, total, FaceMaterials, MaterialReport, MaterialUse, Spread,
};

fn n(x: F64) -> f64 {
    f64::from_bits(x.bits)
}

fn faces(face_material: Vec<u32>, faces: usize, materials: usize) -> MaterialUse {
    MaterialUse { face_material, faces, materials }
}

#[test]
fn counts_are_summed() {
    assert_eq!(total(&vec![]), 0);
    assert_eq!(total(&vec![3, 4, 5]), 12);
    assert_eq!(total(&vec![usize::MAX, usize::MAX]), 2 * usize::MAX as u128);
}

#[test]
fn values_are_tallied() {
    assert_eq!(count_of(&vec![1, 2, 1], 1), 2);
    assert_eq!(histogram(&vec![3, 1, 3, 0, 3]), vec![(0, 1), (1, 1), (3, 3)]);
    assert_eq!(histogram(&vec![]), vec![]);
}

#[test]
fn faces_are_judged() {
    assert_eq!(judge_faces(&faces(vec![], 4, 2)), FaceMaterials::Untold);
    assert_eq!(judge_faces(&faces(vec![], 0, 2)), FaceMaterials::Untold);
    assert_eq!(judge_faces(&faces(vec![0, 1], 4, 2)), FaceMaterials::Uneven);
    assert_eq!(judge_faces(&faces(vec![0, 1], 2, 2)), FaceMaterials::Told);
    assert_eq!(judge_faces(&faces(vec![0, 2], 2, 2)), FaceMaterials::Beyond);
    assert_eq!(judge_faces(&faces(vec![0], 1, 0)), FaceMaterials::Beyond);
}

#[test]
fn used_materials_are_counted() {
    assert_eq!(count_used(&faces(vec![0, 2, 0], 3, 3)), Some(2));
    assert_eq!(count_used(&faces(vec![1, 1], 2, 2)), Some(1));
    assert_eq!(count_used(&faces(vec![0, 0], 2, 1)), None);
    assert_eq!(count_used(&faces(vec![0], 2, 2)), None);
    assert_eq!(count_used(&faces(vec![], 0, 2)), None);
}

#[test]
fn meshes_are_counted_by_their_faces() {
    let meshes = vec![
        faces(vec![0, 1], 2, 2),
        faces(vec![0, 5], 2, 2),
        faces(vec![1, 1, 1], 3, 2),
        faces(vec![], 3, 2),
        faces(vec![0], 3, 2),
        faces(vec![0], 1, 1),
    ];
    assert_eq!(
        report_materials(&meshes),
        MaterialReport { told: 3, beyond: 1, untold: 1, uneven: 1, varied: 2, flat: 1 }
    );
}

#[test]
fn a_spread_has_a_middle() {
    assert_eq!(spread(&vec![]), Spread { min: 0, median: 0, max: 0 });
    assert_eq!(spread(&vec![9, 1, 5]), Spread { min: 1, median: 5, max: 9 });
    // Of an even number the upper one of the two in the middle.
    assert_eq!(spread(&vec![4, 0, 2, 8]), Spread { min: 0, median: 4, max: 8 });
}

#[test]
fn the_largest_comes_first() {
    assert_eq!(largest_first(&vec![2, 7, 2, 9, 7]), vec![3, 1, 4, 0, 2]);
    assert_eq!(largest_first(&vec![]), Vec::<usize>::new());
}

#[test]
fn sizes_are_reported_in_mebibytes() {
    let mb = 1048576_u64;
    let sizes = vec![3 * mb, mb / 2, 20 * mb, 20 * mb + 1, 2 * mb];
    let r = report_sizes(&sizes).unwrap();
    assert_eq!(n(r.min), 0.5);
    assert_eq!(n(r.max), (20 * mb + 1) as f64 / 1048576.0);
    let mut all: Vec<f64> = sizes.iter().map(|b| *b as f64 / 1048576.0).collect();
    all.sort_by(|a, b| a.partial_cmp(b).unwrap());
    assert_eq!(n(r.mean), all.iter().sum::<f64>() / 5.0);
    assert_eq!((r.inside, r.over, r.under), (3, 1, 1));
    assert!(report_sizes(&vec![]).is_none());
}

fn grouped(names: &[&str]) -> Vec<Vec<usize>> {
    group_names(&names.iter().map(|s| s.to_string()).collect())
}

#[test]
fn names_are_grouped_in_order() {
    assert_eq!(grouped(&[]), Vec::<Vec<usize>>::new());
    assert_eq!(
        grouped(&["b", "a", "b", "", "ab", "a", "b"]),
        vec![vec![3], vec![1, 5], vec![4], vec![0, 2, 6]]
    );
}

#[test]
fn names_are_ordered_as_strings_are() {
    let names = ["é", "z", "Z", "贴图", "e", "zz", "✓", "z", "", "🙂"];
    let groups = grouped(&names);
    let mut sorted = names.to_vec();
    sorted.sort();
    sorted.dedup();
    assert_eq!(groups.iter().map(|g| names[g[0]]).collect::<Vec<_>>(), sorted);
    assert_eq!(groups.iter().map(|g| g.len()).sum::<usize>(), names.len());
}
