use std::collections::hash_map::DefaultHasher;
use std::hash::{Hash, Hasher};

use genetic_algorithm_fn::function::Function;
use genetic_algorithm_fn::random::RandomSource;
use genetic_algorithm_fn::scalar::{avg, canonical_string, to_rounded_string, SCALE};
use genetic_algorithm_fn::solution::{get_random_elem_from_range, Solution, SolutionError};
use genetic_algorithm_fn::test_objects::triple_multiplication;

/// Convert a plain decimal number into a canonical fixed-point scalar.
fn s(x: f64) -> i64 {
    (x * SCALE as f64).round() as i64
}

/// Convert plain decimal numbers into a solution of canonical scalars.
fn sol(values: &[f64]) -> Solution {
    Solution::new(values.iter().map(|v| s(*v)).collect())
}

fn create_hash(solution: Solution) -> u64 {
    let mut h = DefaultHasher::new();
    solution.hash(&mut h);
    h.finish()
}

#[test]
fn no_rounding_fewer_digts() {
    assert_eq!(to_rounded_string(s(1.57), 3), String::from("1.570"))
}

#[test]
fn no_rounding_same_digts() {
    assert_eq!(to_rounded_string(s(1.572), 3), String::from("1.572"))
}

#[test]
fn actual_rounding() {
    assert_eq!(to_rounded_string(s(2.38493), 2), String::from("2.38"))
}

#[test]
fn negative_rounding_keeps_sign() {
    assert_eq!(to_rounded_string(s(-2.38493), 2), String::from("-2.38"))
}

#[test]
fn integration_f64_to_floating_point_precision_string() {
    // The full-precision rendering is the canonical ten-decimal form.
    assert_eq!(canonical_string(s(0.1323)), String::from("0.1323000000"));
}

#[test]
fn solution_test_constructor() {
    // Ensure the constructor is working.
    Solution::new(vec![s(1.0), s(2.0), s(3.0)]);
}

#[test]
fn fitness() {
    assert_eq!(
        sol(&[2.0, 3.0, 5.0]).fitness(&triple_multiplication()),
        Ok(s(30.0))
    )
}

#[test]
fn test_int_average() {
    assert_eq!(avg(s(1.0), s(2.0)), s(1.5))
}

#[test]
fn test_int_average_same_value() {
    assert_eq!(avg(s(0.0), s(0.0)), s(0.0))
}

#[test]
fn test_float_average() {
    assert_eq!(avg(s(1.0), s(2.0)), s(1.5))
}

#[test]
fn test_float_average_same_value() {
    assert_eq!(avg(s(0.0), s(0.0)), s(0.0))
}

#[test]
fn equal_solution_no_record() {
    assert!(Solution::new(Vec::new()) == Solution::new(Vec::new()));
}

#[test]
fn equal_solutions() {
    assert!(sol(&[1.0, 2.0, 3.0]) == sol(&[1.0, 2.0, 3.0]));
}

#[test]
fn non_equal_solutions() {
    assert!(!(sol(&[1.0, 3.0, 3.0]) == sol(&[1.0, 2.0, 3.0])));
}

#[test]
fn non_equal_before_rounding() {
    // An eleventh-decimal difference vanishes at the canonical resolution.
    assert!(sol(&[1.00000000001, 2.0, 3.0]) == sol(&[1.0, 2.0, 3.0]));
}

#[test]
fn non_equal_before_and_after_rounding() {
    // A tenth-decimal difference is preserved by the canonical resolution.
    assert!(!(sol(&[1.0000000001, 2.0, 3.0]) == sol(&[1.0, 2.0, 3.0])));
}

#[test]
fn non_equal_solutions_different_length() {
    assert!(!(sol(&[1.0000000001]) == sol(&[1.0, 2.0, 3.0])));
}

#[test]
fn sample_int_range() {
    let mut rng = RandomSource::from_seed(7);
    get_random_elem_from_range(0, 10, &mut rng);
}

#[test]
fn sample_float_range() {
    let mut rng = RandomSource::from_seed(7);
    get_random_elem_from_range(s(0.0), s(1.0), &mut rng);
}

#[test]
fn sample_empty_range() {
    let mut rng = RandomSource::from_seed(7);
    assert_eq!(get_random_elem_from_range(0, 0, &mut rng), None);
}

#[test]
fn sample_singleton_range_yields_its_value() {
    // Would fail if the generator ignored the requested range.
    let mut rng = RandomSource::from_seed(7);
    assert_eq!(get_random_elem_from_range(5, 6, &mut rng), Some(5));
}

#[test]
fn same_seed_same_draws() {
    let mut a = RandomSource::from_seed(42);
    let mut b = RandomSource::from_seed(42);
    for _ in 0..16 {
        assert_eq!(
            get_random_elem_from_range(0, 1_000_000, &mut a),
            get_random_elem_from_range(0, 1_000_000, &mut b)
        );
    }
}

#[test]
fn hash_same_solution() {
    assert!(create_hash(sol(&[1.0, 2.0, 3.0])) == create_hash(sol(&[1.0, 2.0, 3.0])));
}

#[test]
fn hash_different_solution() {
    assert!(!(create_hash(sol(&[1.0, 3.0, 3.0])) == create_hash(sol(&[1.0, 2.0, 3.0]))));
}

#[test]
fn hash_different_solution_but_rounding_makes_them_similiar() {
    assert!(create_hash(sol(&[1.00000000001, 2.0, 3.0])) == create_hash(sol(&[1.0, 2.0, 3.0])));
}

#[test]
fn hash_solutions_different_length() {
    assert!(!(create_hash(sol(&[1.00000000001, 2.0])) == create_hash(sol(&[1.0, 2.0, 3.0]))));
}

#[test]
fn no_mutation_applied() {
    let mut rng = RandomSource::from_seed(3);
    assert_eq!(
        sol(&[1.0, 2.0, 3.0]).mutate(0, &mut rng),
        sol(&[1.0, 2.0, 3.0])
    )
}

#[test]
fn mutation_applied() {
    // Run several rounds; each must change exactly one coordinate.
    for seed in 0..6 {
        let mut rng = RandomSource::from_seed(seed);
        let original_solution = sol(&[1.0, 2.0, 3.0]);
        let mutated_solution = original_solution.clone().mutate(SCALE, &mut rng);
        let original_parameters = original_solution.get_arguments();
        let mutated_parameters = mutated_solution.get_arguments();
        assert_eq!(
            original_parameters
                .iter()
                .zip(mutated_parameters.iter())
                .map(|(original_parameter, mutated_parameter)| {
                    (*original_parameter == *mutated_parameter) as usize
                })
                .sum::<usize>(),
            2
        )
    }
}

#[test]
fn mutation_of_zero_coordinates_is_invisible() {
    // A coordinate of exactly zero stays zero under every factor.
    let mut rng = RandomSource::from_seed(5);
    assert_eq!(sol(&[0.0, 0.0]).mutate(SCALE, &mut rng), sol(&[0.0, 0.0]));
}

#[test]
fn same_inidividual_result_in_same_individual() {
    let solution = sol(&[1.0, 4.0, 7.0]);
    assert_eq!(solution.crossover(&solution.clone()), Ok(solution));
}

#[test]
fn average_correctly_applied() {
    let solution_to_crossover = sol(&[12.0, 3.0, 9.0]);
    let solution_to_crossover_with = sol(&[7.0, 6.0, 13.0]);
    assert_eq!(
        solution_to_crossover.crossover(&solution_to_crossover_with),
        Ok(sol(&[9.5, 4.5, 11.0]))
    );
}

#[test]
fn crossover_solution_different_length() {
    let solution_to_crossover = sol(&[12.0, 3.0]);
    let solution_to_crossover_with = sol(&[7.0, 6.0, 13.0]);
    assert_eq!(
        solution_to_crossover.crossover(&solution_to_crossover_with),
        Err(SolutionError::DimensionMismatch {
            left_number_of_entries: 2,
            right_number_of_entries: 3,
        })
    );
}

#[test]
fn simple_test() {
    let function_to_maximize = triple_multiplication();
    let solution = sol(&[1.0, 4.0, 7.0]);
    assert_eq!(solution.fitness(&function_to_maximize), Ok(s(28.0)));
}
