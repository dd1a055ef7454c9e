use genetic_algorithm_fn::function::{Function, FunctionError};
use genetic_algorithm_fn::random::RandomSource;
use genetic_algorithm_fn::scalar::SCALE;
use genetic_algorithm_fn::solutions::{evolve_population, Solutions};

/// Convert a plain decimal number into a canonical fixed-point scalar.
fn s(x: f64) -> i64 {
    (x * SCALE as f64).round() as i64
}

/// Convert a canonical fixed-point scalar back to a plain decimal number.
fn from_s(v: i64) -> f64 {
    v as f64 / SCALE as f64
}

/// The inner part of the three-dimensional Hartman function.
fn hartman_inner_function(idx_i: usize, x: f64, y: f64, z: f64) -> f64 {
    let a_x = [3.0, 0.1, 3.0, 0.1];
    let a_y = [10.0, 10.0, 10.0, 10.0];
    let a_z = [30.0, 35.0, 30.0, 35.0];
    let p_x = [0.3689, 0.4699, 0.1091, 0.0381];
    let p_y = [0.1170, 0.4387, 0.8732, 0.5743];
    let p_z = [0.2673, 0.7470, 0.5547, 0.8828];
    -(a_x[idx_i] * (x - p_x[idx_i]).powi(2)
        + a_y[idx_i] * (y - p_y[idx_i]).powi(2)
        + a_z[idx_i] * (z - p_z[idx_i]).powi(2))
}

/// The three-dimensional Hartman benchmark function.
fn hartman_3_dimensional(x: f64, y: f64, z: f64) -> f64 {
    -(1.0 * hartman_inner_function(0, x, y, z).exp()
        + 1.2 * hartman_inner_function(1, x, y, z).exp()
        + 3.0 * hartman_inner_function(2, x, y, z).exp()
        + 3.2 * hartman_inner_function(3, x, y, z).exp())
}

/// The objective that maximizes the negated Hartman function.
struct NegatedHartman;

impl Function for NegatedHartman {
    fn get_function_value(&self, function_values: &Vec<i64>) -> Result<i64, FunctionError> {
        if function_values.len() != 3 {
            return Err(FunctionError::WrongNumberOfEntries {
                expected_number_of_entries: 3,
                actual_number_of_entries: function_values.len(),
            });
        }
        let score = -hartman_3_dimensional(
            from_s(function_values[0]),
            from_s(function_values[1]),
            from_s(function_values[2]),
        );
        Ok(s(score))
    }
}

fn best_fitness<F: Function>(population: &Solutions, function: &F) -> i64 {
    let top = population.get_n_fittest(1, function).unwrap();
    top[0].fitness(function).unwrap()
}

#[test]
fn test_end_to_end() {
    // Use the hartman function to test whether a realistic function can be
    // maximized.
    let function_to_optimize = NegatedHartman;
    let mut rng = RandomSource::from_seed(20);
    let solutions = Solutions::random(50, s(-10.0), s(10.0), 3, &mut rng);
    let max_fit_initial = best_fitness(&solutions, &function_to_optimize);
    let optimized_solutions =
        evolve_population(solutions, 100, 20, &function_to_optimize, 0, 21).unwrap();
    let max_fit_optimized = best_fitness(&optimized_solutions, &function_to_optimize);

    // After optimizing, the population is fitter than before.
    assert!(max_fit_initial < max_fit_optimized);
}

#[test]
fn serial_run_keeps_best_fitness() {
    // A single-worker run never regresses the best fitness of the start.
    let function_to_optimize = NegatedHartman;
    let mut rng = RandomSource::from_seed(33);
    let solutions = Solutions::random(25, s(-10.0), s(10.0), 3, &mut rng);
    let max_fit_initial = best_fitness(&solutions, &function_to_optimize);
    let evolved = evolve_population(solutions, 12, 10, &function_to_optimize, 0, 34).unwrap();
    assert!(best_fitness(&evolved, &function_to_optimize) >= max_fit_initial);
}

#[test]
fn parallel_run_keeps_best_fitness() {
    // A multi-worker run never regresses the best fitness of the start
    // either, and merges the workers' results into one population.
    let function_to_optimize = NegatedHartman;
    let mut rng = RandomSource::from_seed(33);
    let solutions = Solutions::random(25, s(-10.0), s(10.0), 3, &mut rng);
    let max_fit_initial = best_fitness(&solutions, &function_to_optimize);
    let evolved = evolve_population(solutions, 12, 10, &function_to_optimize, 2, 34).unwrap();
    assert!(evolved.len() <= 2 * 10);
    assert!(best_fitness(&evolved, &function_to_optimize) >= max_fit_initial);
}

#[test]
fn zero_generations_zero_workers_returns_start() {
    let function_to_optimize = NegatedHartman;
    let mut rng = RandomSource::from_seed(8);
    let solutions = Solutions::random(5, s(-10.0), s(10.0), 3, &mut rng);
    let before: Vec<Vec<i64>> = solutions
        .members()
        .iter()
        .map(|m| m.get_arguments())
        .collect();
    let evolved = evolve_population(solutions, 0, 4, &function_to_optimize, 0, 9).unwrap();
    let after: Vec<Vec<i64>> = evolved
        .members()
        .iter()
        .map(|m| m.get_arguments())
        .collect();
    assert_eq!(before, after);
}
