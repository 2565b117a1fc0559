use genetic_algo::distance_mat::DistanceMat;
use genetic_algo::routes::Routes;

// Four nodes whose edges pair up as 0-1/2-3 (cheap), 0-2/1-3 and 0-3/1-2
// (dear): a four-node tour omits exactly one of the pairings, so the two
// tours through both cheap edges cost 23 and the remaining one costs 40.
fn four_node_mat() -> DistanceMat {
    DistanceMat::new(vec![
        vec![0, 1, 10, 10],
        vec![1, 0, 10, 10],
        vec![10, 10, 0, 2],
        vec![10, 10, 2, 0],
    ])
}

fn sorted(mut v: Vec<usize>) -> Vec<usize> {
    v.sort();
    v
}

#[test]
fn test_new_population_holds_valid_permutations() {
    let dist = four_node_mat();
    let pop = Routes::new(&dist, 10, 80, 20, true, 7);
    let best = pop.best(&dist);
    assert_eq!(sorted(best.0.indexes), vec![0, 1, 2, 3]);
}

#[test]
fn test_best_matches_distance_of_its_tour() {
    let dist = four_node_mat();
    let pop = Routes::new(&dist, 10, 80, 20, true, 11);
    let best = pop.best(&dist);
    assert_eq!(dist.get_distance(&best.0.indexes), best.1);
}

#[test]
fn test_evolve_with_elitism_never_worsens() {
    let dist = four_node_mat();
    let mut pop = Routes::new(&dist, 10, 80, 30, true, 3);
    let mut last = pop.best(&dist).1;
    for _ in 0..25 {
        pop.evolve(&dist);
        let now = pop.best(&dist).1;
        assert!(now <= last);
        last = now;
    }
}

#[test]
fn test_run_result_not_worse_than_first_generation() {
    let dist = four_node_mat();
    let mut pop = Routes::new(&dist, 12, 80, 30, false, 19);
    let first = pop.best(&dist).1;
    let best = pop.run(&dist, 30);
    assert!(best.1 <= first);
    assert_eq!(dist.get_distance(&best.0.indexes), best.1);
    assert_eq!(sorted(best.0.indexes), vec![0, 1, 2, 3]);
}

#[test]
fn test_run_converges_to_known_optimum() {
    let dist = four_node_mat();
    let mut pop = Routes::new(&dist, 12, 80, 30, true, 42);
    let best = pop.run(&dist, 60);
    assert_eq!(sorted(best.0.indexes.clone()), vec![0, 1, 2, 3]);
    assert_eq!(best.1, 23);
}

#[test]
fn test_same_seed_reproduces_run() {
    let dist = four_node_mat();
    let mut a = Routes::new(&dist, 8, 70, 25, true, 5);
    let mut b = Routes::new(&dist, 8, 70, 25, true, 5);
    let ra = a.run(&dist, 12);
    let rb = b.run(&dist, 12);
    assert_eq!(ra.0.indexes, rb.0.indexes);
    assert_eq!(ra.1, rb.1);
}
