//! A simple built-in objective, mainly for exercising the engine.

use vstd::prelude::*;

use crate::function::{Function, FunctionError};
use crate::scalar::{mul_fixed, spec_mul_fixed};

verus! {

/// The objective that maximizes the product of exactly three coordinates.
#[derive(Debug, Clone, Copy)]
pub struct TripleMultiplication {}

impl Function for TripleMultiplication {
    open spec fn arity(&self) -> usize {
        3
    }

    open spec fn score(&self, values: Seq<i64>) -> i64 {
        spec_mul_fixed(
            spec_mul_fixed(values[0] as int, values[1] as int),
            values[2] as int,
        ) as i64
    }

    fn get_function_value(&self, function_values: &Vec<i64>) -> (r: Result<i64, FunctionError>) {
        if function_values.len() == 3 {
            Ok(
                mul_fixed(
                    mul_fixed(function_values[0], function_values[1]),
                    function_values[2],
                ),
            )
        } else {
            Err(FunctionError::WrongNumberOfEntries {
                expected_number_of_entries: 3,
                actual_number_of_entries: function_values.len(),
            })
        }
    }
}

/// The product-of-three-coordinates objective.
pub fn triple_multiplication() -> (r: TripleMultiplication)
    ensures
        r.arity() == 3,
{
    TripleMultiplication {  }
}

} // verus!
