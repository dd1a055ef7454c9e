//! The objective function abstraction.
//!
//! The optimizer maximizes a caller-supplied scalar objective. An objective
//! accepts coordinate vectors of one fixed arity and is pure: the score is a
//! function of the coordinates alone. Calling it with a vector of any other
//! length yields a `FunctionError`.

use vstd::prelude::*;

verus! {

/// Error raised when an objective function is handed a coordinate vector
/// whose length does not match the objective's arity.
#[derive(Debug, Clone, Copy, PartialEq, Eq, Structural)]
pub enum FunctionError {
    /// The vector provided does not have the right number of entries.
    WrongNumberOfEntries {
        /// Expected number of entries.
        expected_number_of_entries: usize,
        /// Actual number of entries.
        actual_number_of_entries: usize,
    },
}

impl FunctionError {
    /// A human-readable description of the error.
    pub fn message(&self) -> (r: String)
        ensures
            *self matches FunctionError::WrongNumberOfEntries {
                expected_number_of_entries: e,
                actual_number_of_entries: a,
            } ==> r@ == "Expected "@ + crate::scalar::spec_decimal(e as int)
                + " entries, but got "@ + crate::scalar::spec_decimal(a as int),
    {
        match self {
            FunctionError::WrongNumberOfEntries {
                expected_number_of_entries,
                actual_number_of_entries,
            } => {
                let mut s = String::from_str("Expected ");
                s.append(crate::scalar::u64_to_string(*expected_number_of_entries as u64).as_str());
                s.append(" entries, but got ");
                s.append(crate::scalar::u64_to_string(*actual_number_of_entries as u64).as_str());
                proof {
                    assert(s@ =~= "Expected "@ + crate::scalar::spec_decimal(
                        *expected_number_of_entries as int,
                    ) + " entries, but got "@ + crate::scalar::spec_decimal(
                        *actual_number_of_entries as int,
                    ));
                }
                s
            },
        }
    }
}

/// A scalar objective to maximize.
///
/// This is the contract between the optimizer and the caller-supplied
/// objective: `score` is the specification-level meaning of the objective (a
/// pure function of the coordinates), `arity` is the one vector length it
/// accepts, and `get_function_value` is the executable evaluation, which must
/// return exactly the specified score for vectors of the right length and the
/// matching `FunctionError` otherwise. Implementations inside this crate are
/// verified against this contract; the engine's guarantees for an outside
/// implementation hold relative to that implementation meeting it.
pub trait Function {
    /// The one vector length this objective accepts. Implementations
    /// override the default with their own arity.
    open spec fn arity(&self) -> usize {
        0
    }

    /// The score of a coordinate vector, as a mathematical function.
    /// Implementations override the default with their objective's meaning.
    open spec fn score(&self, values: Seq<i64>) -> i64 {
        0
    }

    /// Evaluate the objective on a coordinate vector.
    fn get_function_value(&self, function_values: &Vec<i64>) -> (r: Result<i64, FunctionError>)
        ensures
            function_values@.len() == self.arity() ==> r == Ok::<i64, FunctionError>(
                self.score(function_values@),
            ),
            function_values@.len() != self.arity() ==> r == Err::<i64, FunctionError>(
                FunctionError::WrongNumberOfEntries {
                    expected_number_of_entries: self.arity(),
                    actual_number_of_entries: function_values@.len() as usize,
                },
            ),
    ;
}

} // verus!
