use tile3d::float::F64;
use tile3d::order::{order_below, sort_key, sorted_pairs, sorted_unique};

fn d(x: f64) -> F64 {
    F64 { bits: x.to_bits() }
}

#[test]
fn pairs_come_out_sorted() {
    let v = sorted_pairs(vec![(3, 1), (1, 9), (3, 0), (1, 9), (0, 4)]);
    assert_eq!(v, vec![(0, 4), (1, 9), (1, 9), (3, 0), (3, 1)]);
}

#[test]
fn ids_come_out_once_and_sorted() {
    assert_eq!(sorted_unique(&vec![5, 1, 5, 2, 1, 9]), vec![1, 2, 5, 9]);
    assert_eq!(sorted_unique(&vec![]), Vec::<usize>::new());
}

#[test]
fn keys_below_a_bound_are_ordered() {
    // Equal keys as they stand; those at the bound are left out.
    assert_eq!(order_below(&vec![7, 3, 9, 3, 8], 9), vec![1, 3, 0, 4]);
    assert_eq!(order_below(&vec![7, 3], 0), Vec::<usize>::new());
    assert_eq!(order_below(&vec![u64::MAX, 0], 1 << 64), vec![1, 0]);
}

#[test]
fn sort_keys_order_as_numbers_do() {
    let xs: Vec<f64> = vec![
        f64::NEG_INFINITY,
        -1.0e300,
        -2.0,
        -1.0,
        -1.0e-310,
        -0.0,
        0.0,
        1.0e-310,
        1.0,
        2.0,
        1.0e300,
        f64::INFINITY,
    ];
    for a in &xs {
        for b in &xs {
            assert_eq!(sort_key(d(*a)) < sort_key(d(*b)), a < b, "{} {}", a, b);
            assert_eq!(sort_key(d(*a)) == sort_key(d(*b)), a == b, "{} {}", a, b);
        }
    }
}
