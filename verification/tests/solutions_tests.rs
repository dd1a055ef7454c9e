use genetic_algorithm_fn::function::Function;
use genetic_algorithm_fn::random::RandomSource;
use genetic_algorithm_fn::scalar::SCALE;
use genetic_algorithm_fn::solution::Solution;
use genetic_algorithm_fn::solutions::{rank_by_score, Solutions};
use genetic_algorithm_fn::test_objects::triple_multiplication;

/// Convert a plain decimal number into a canonical fixed-point scalar.
fn s(x: f64) -> i64 {
    (x * SCALE as f64).round() as i64
}

/// Convert plain decimal numbers into a solution of canonical scalars.
fn sol(values: &[f64]) -> Solution {
    Solution::new(values.iter().map(|v| s(*v)).collect())
}

#[test]
fn from_deduplicates_equal_solutions() {
    // Two canonically equal members collapse to one.
    let population = Solutions::from(vec![
        sol(&[1.0, 2.0, 3.0]),
        sol(&[1.0, 2.0, 4.0]),
        sol(&[1.00000000001, 2.0, 3.0]),
    ]);
    assert_eq!(population.len(), 2);
}

#[test]
fn from_keeps_distinct_solutions() {
    let population = Solutions::from(vec![sol(&[1.0]), sol(&[2.0]), sol(&[3.0])]);
    assert_eq!(population.len(), 3);
}

#[test]
fn random_population_is_unique_and_full() {
    let mut rng = RandomSource::from_seed(11);
    let population = Solutions::random(30, s(1.0), s(10.0), 3, &mut rng);
    assert_eq!(population.len(), 30);
    let members = population.members();
    for i in 0..members.len() {
        for j in (i + 1)..members.len() {
            assert!(!(members[i] == members[j]));
        }
        assert_eq!(members[i].len(), 3);
        for v in members[i].get_arguments() {
            assert!(s(1.0) <= v && v < s(10.0));
        }
    }
}

#[test]
fn fittest_are_sorted_and_truncated() {
    let population = Solutions::from(vec![
        sol(&[1.0, 1.0, 1.0]),
        sol(&[3.0, 1.0, 1.0]),
        sol(&[2.0, 1.0, 1.0]),
    ]);
    let function = triple_multiplication();
    let top = population.get_n_fittest(2, &function).unwrap();
    assert_eq!(top.len(), 2);
    assert_eq!(top[0].get_arguments(), vec![s(3.0), s(1.0), s(1.0)]);
    assert_eq!(top[1].get_arguments(), vec![s(2.0), s(1.0), s(1.0)]);
}

#[test]
fn fittest_with_large_n_returns_all() {
    let population = Solutions::from(vec![sol(&[1.0, 1.0, 1.0]), sol(&[2.0, 1.0, 1.0])]);
    let function = triple_multiplication();
    let top = population.get_n_fittest(10, &function).unwrap();
    assert_eq!(top.len(), 2);
}

#[test]
fn fittest_fails_on_wrong_dimensionality() {
    let population = Solutions::from(vec![sol(&[1.0, 1.0])]);
    let function = triple_multiplication();
    assert!(population.get_n_fittest(1, &function).is_err());
}

#[test]
fn rank_by_score_orders_descending() {
    let scored = vec![
        (s(1.0), sol(&[1.0])),
        (s(5.0), sol(&[5.0])),
        (s(3.0), sol(&[3.0])),
    ];
    let top = rank_by_score(scored, 3);
    assert_eq!(top[0].0, s(5.0));
    assert_eq!(top[1].0, s(3.0));
    assert_eq!(top[2].0, s(1.0));
    assert_eq!(top[0].1.get_arguments(), vec![s(5.0)]);
}

#[test]
fn evolve_keeps_parents_and_averages() {
    // With mutation probability zero the evolved population is exactly the
    // parents plus every pair's average.
    let mut rng = RandomSource::from_seed(9);
    let population = Solutions::from(vec![sol(&[1.0, 1.0, 1.0]), sol(&[3.0, 1.0, 1.0])]);
    let evolved = population.evolve(0, &mut rng).unwrap();
    assert_eq!(evolved.len(), 3);
    let views: Vec<Vec<i64>> = evolved
        .members()
        .iter()
        .map(|m| m.get_arguments())
        .collect();
    assert!(views.contains(&vec![s(1.0), s(1.0), s(1.0)]));
    assert!(views.contains(&vec![s(3.0), s(1.0), s(1.0)]));
    assert!(views.contains(&vec![s(2.0), s(1.0), s(1.0)]));
}

#[test]
fn evolve_fails_on_mixed_dimensionality() {
    let mut rng = RandomSource::from_seed(9);
    let population = Solutions::from(vec![sol(&[1.0, 1.0]), sol(&[3.0, 1.0, 1.0])]);
    assert!(population.evolve(0, &mut rng).is_err());
}

#[test]
fn fitnesses_pair_members_with_scores() {
    let population = Solutions::from(vec![sol(&[2.0, 1.0, 1.0]), sol(&[4.0, 1.0, 1.0])]);
    let function = triple_multiplication();
    let scored = population.fitnesses(&function).unwrap();
    assert_eq!(scored.len(), 2);
    assert_eq!(scored[0].0, s(2.0));
    assert_eq!(scored[1].0, s(4.0));
}
