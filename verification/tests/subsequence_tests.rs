use genetic_algo::rng::Rng;
use genetic_algo::subsequence::Subsequence;

#[test]
fn test_spans_concatenate_to_tour() {
    let tour = vec![4, 1, 3, 0, 2];
    let span = Subsequence::new(1, 3);
    let mut rebuilt = span.before(&tour);
    rebuilt.extend(span.within(&tour));
    rebuilt.extend(span.after(&tour));
    assert_eq!(rebuilt, tour);
}

#[test]
fn test_degenerate_spans_are_empty() {
    let tour = vec![4, 1, 3, 0, 2];
    assert!(Subsequence::new(0, 5).before(&tour).is_empty());
    assert!(Subsequence::new(0, 5).after(&tour).is_empty());
    assert!(Subsequence::new(2, 2).within(&tour).is_empty());
}

#[test]
fn test_within_contains() {
    let tour = vec![4, 1, 3, 0, 2];
    let span = Subsequence::new(1, 3);
    assert!(span.within_contains(&tour, 1));
    assert!(span.within_contains(&tour, 3));
    assert!(!span.within_contains(&tour, 4));
    assert!(!span.within_contains(&tour, 0));
    assert!(!span.within_contains(&tour, 2));
}

#[test]
fn test_rng_draws_below_bound() {
    let mut rng = Rng::new(123);
    for bound in 1..40 {
        let draw = rng.below(bound);
        assert!(draw < bound);
    }
}

#[test]
fn test_rng_same_seed_same_draws() {
    let mut a = Rng::new(9);
    let mut b = Rng::new(9);
    for _ in 0..20 {
        assert_eq!(a.below(17), b.below(17));
    }
}
