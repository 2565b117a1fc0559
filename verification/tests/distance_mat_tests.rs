use genetic_algo::distance_mat::DistanceMat;

fn test_dist_mat() -> DistanceMat {
    DistanceMat::new(vec![vec![0, 1, 2], vec![1, 0, 3], vec![2, 3, 0]])
}

#[test]
fn test_constructor() {
    let dist_mat = DistanceMat::new(vec![vec![0, 1], vec![1, 0]]);
    assert_eq!(*dist_mat.table(), vec![vec![0, 1], vec![1, 0]]);
}

#[test]
fn test_dist_same_node() {
    assert_eq!(test_dist_mat().get_distance(&vec![0, 0]), 0);
}

#[test]
fn test_dist_two_nodes() {
    assert_eq!(test_dist_mat().get_distance(&vec![0, 1]), 2);
    assert_eq!(test_dist_mat().get_distance(&vec![0, 2]), 4);
    assert_eq!(test_dist_mat().get_distance(&vec![1, 2]), 6);
}

#[test]
fn test_dist_three_nodes() {
    assert_eq!(test_dist_mat().get_distance(&vec![0, 1, 2]), 6);
    assert_eq!(test_dist_mat().get_distance(&vec![0, 2, 1]), 6);
}

#[test]
fn test_dist_repeat_visit() {
    assert_eq!(test_dist_mat().get_distance(&vec![0, 2, 1, 2]), 10);
}

#[test]
fn test_n_units() {
    assert_eq!(test_dist_mat().n_units(), 3);
    assert_eq!(DistanceMat::new(vec![vec![0, 1], vec![1, 0]]).n_units(), 2);
}

#[test]
fn test_dist_formula_spec_example() {
    // d[s[k-1]][s[0]] + sum of consecutive pairs: 3 + 1 + 2 == 6
    assert_eq!(test_dist_mat().get_distance(&vec![1, 0, 2]), 6);
}

#[test]
fn test_dist_single_node_is_diagonal() {
    assert_eq!(test_dist_mat().get_distance(&vec![1]), 0);
}

#[test]
fn test_dist_reversed_tour_same_length() {
    let d = test_dist_mat();
    assert_eq!(d.get_distance(&vec![0, 1, 2]), d.get_distance(&vec![2, 1, 0]));
    let e = DistanceMat::new(vec![
        vec![0, 1, 2, 3],
        vec![1, 0, 4, 5],
        vec![2, 4, 0, 6],
        vec![3, 5, 6, 0],
    ]);
    assert_eq!(
        e.get_distance(&vec![2, 0, 3, 1]),
        e.get_distance(&vec![1, 3, 0, 2])
    );
}
