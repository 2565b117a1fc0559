use genetic_algo::route::Route;

fn is_permutation_of_n(indexes: &[usize], n: usize) -> bool {
    let mut seen = vec![false; n];
    if indexes.len() != n {
        return false;
    }
    for &v in indexes {
        if v >= n || seen[v] {
            return false;
        }
        seen[v] = true;
    }
    true
}

#[test]
fn test_mutate_swaps_two_positions() {
    let r = Route::new(vec![0, 1, 2, 3]);
    assert_eq!(r.mutate(1, 3).indexes, vec![0, 3, 2, 1]);
}

#[test]
fn test_mutate_same_position_is_noop() {
    let r = Route::new(vec![2, 0, 3, 1]);
    assert_eq!(r.mutate(2, 2).indexes, vec![2, 0, 3, 1]);
}

#[test]
fn test_mutate_twice_restores_route() {
    let r = Route::new(vec![4, 2, 0, 1, 3]);
    assert_eq!(r.mutate(0, 4).mutate(0, 4).indexes, r.indexes);
}

#[test]
fn test_mutate_preserves_permutation() {
    let r = Route::new(vec![4, 2, 0, 1, 3]);
    for a in 0..5 {
        for b in 0..5 {
            assert!(is_permutation_of_n(&r.mutate(a, b).indexes, 5));
        }
    }
}

#[test]
fn test_crossover_middle_span() {
    // keep [1, 2] of the first parent; walk the second from the cut on:
    // 1, 2, 0, 3 -> collect 0, 3 -> fill position 3, then position 0
    let p1 = Route::new(vec![0, 1, 2, 3]);
    let p2 = Route::new(vec![2, 0, 3, 1]);
    let child = p1.crossover(&p2, 1, 3);
    assert_eq!(child.indexes, vec![3, 1, 2, 0]);
}

#[test]
fn test_crossover_full_span_copies_first_parent() {
    let p1 = Route::new(vec![3, 0, 2, 1]);
    let p2 = Route::new(vec![1, 2, 3, 0]);
    assert_eq!(p1.crossover(&p2, 0, 4).indexes, p1.indexes);
}

#[test]
fn test_crossover_empty_span_copies_second_parent() {
    let p1 = Route::new(vec![3, 0, 2, 1]);
    let p2 = Route::new(vec![1, 2, 3, 0]);
    for i in 0..5 {
        assert_eq!(p1.crossover(&p2, i, i).indexes, p2.indexes);
    }
}

#[test]
fn test_crossover_preserves_permutation() {
    let p1 = Route::new(vec![5, 3, 0, 7, 1, 6, 2, 4]);
    let p2 = Route::new(vec![7, 6, 5, 4, 3, 2, 1, 0]);
    for i in 0..9 {
        for j in i..9 {
            let child = p1.crossover(&p2, i, j);
            assert!(is_permutation_of_n(&child.indexes, 8));
            let other_way = p2.crossover(&p1, i, j);
            assert!(is_permutation_of_n(&other_way.indexes, 8));
        }
    }
}

#[test]
fn test_duplicate_is_identical() {
    let r = Route::new(vec![1, 0, 2]);
    assert_eq!(r.duplicate().indexes, vec![1, 0, 2]);
}
