use genetic_algorithm_fn::function::{Function, FunctionError};
use genetic_algorithm_fn::scalar::SCALE;
use genetic_algorithm_fn::test_objects::triple_multiplication;

/// Convert a plain decimal number into a canonical fixed-point scalar.
fn s(x: f64) -> i64 {
    (x * SCALE as f64).round() as i64
}

#[test]
fn function_test_constructor() {
    // Ensure the objective can be constructed.
    let _ = triple_multiplication();
}

#[test]
fn test_simple_computation() {
    let my_func = triple_multiplication();
    assert_eq!(
        my_func.get_function_value(&vec![s(1.0), s(2.0), s(3.0)]),
        Ok(s(6.0))
    );
}

#[test]
fn test_simple_computation_wrong_arguments() {
    let my_func = triple_multiplication();
    assert_eq!(
        my_func.get_function_value(&vec![s(1.0), s(2.0)]),
        Err(FunctionError::WrongNumberOfEntries {
            expected_number_of_entries: 3,
            actual_number_of_entries: 2
        })
    );
}

#[test]
fn error_message_names_both_counts() {
    let e = FunctionError::WrongNumberOfEntries {
        expected_number_of_entries: 3,
        actual_number_of_entries: 2,
    };
    assert_eq!(e.message(), "Expected 3 entries, but got 2");
}
