//! A candidate solution: one point of the search space.
//!
//! A `Solution` is a fixed-length vector of fixed-point coordinates (see
//! [`crate::scalar`]). Coordinates carry exactly ten decimal places, so the
//! stored integers are themselves the canonical form: two solutions are equal
//! exactly when they have the same length and the same coordinates, and the
//! derived hash reads the very data that equality reads.

use vstd::prelude::*;

use crate::function::{Function, FunctionError};
use crate::random::RandomSource;
use crate::scalar::{avg, mul_fixed, spec_avg, spec_mul_fixed, SCALE};
use vstd::std_specs::cmp::PartialEqSpec;

verus! {

/// Error raised by operations that combine two candidate solutions.
#[derive(Debug, Clone, Copy, PartialEq, Eq, Structural)]
pub enum SolutionError {
    /// Crossover was invoked on two solutions whose coordinate counts differ.
    DimensionMismatch {
        /// Number of coordinates of the solution the method was called on.
        left_number_of_entries: usize,
        /// Number of coordinates of the other solution.
        right_number_of_entries: usize,
    },
}

/// A candidate solution: a vector of fixed-point coordinates.
#[derive(Debug, Clone, Hash)]
pub struct Solution {
    function_values: Vec<i64>,
}

impl View for Solution {
    type V = Seq<i64>;

    closed spec fn view(&self) -> Seq<i64> {
        self.function_values@
    }
}

impl PartialEq for Solution {
    fn eq(&self, other: &Solution) -> (r: bool) {
        let r = self.function_values == other.function_values;
        proof {
            if r {
                assert(self@ =~= other@);
            }
        }
        r
    }
}

impl Eq for Solution {

}

impl vstd::std_specs::cmp::PartialEqSpecImpl for Solution {
    open spec fn obeys_eq_spec() -> bool {
        true
    }

    open spec fn eq_spec(&self, other: &Solution) -> bool {
        self@ == other@
    }
}

/// The coordinate-wise average of two equally long coordinate vectors.
pub open spec fn spec_avg_seq(a: Seq<i64>, b: Seq<i64>) -> Seq<i64> {
    Seq::new(a.len(), |i: int| spec_avg(a[i] as int, b[i] as int) as i64)
}

/// A legal mutation factor: a fixed-point value of `[0.8, 1.2)` other than
/// exactly `1.0`.
pub open spec fn valid_factor(f: int) -> bool {
    8_000_000_000 <= f < 12_000_000_000 && f != SCALE as int
}

/// How a mutated coordinate vector may relate to the original: either
/// unchanged, or with exactly one coordinate rewritten by a legal factor.
pub open spec fn spec_mutated_from(r: Seq<i64>, orig: Seq<i64>) -> bool {
    r == orig || exists|i: int, f: int|
        0 <= i < orig.len() && valid_factor(f) && r == orig.update(
            i,
            spec_mul_fixed(orig[i] as int, f) as i64,
        )
}

/// Draw a value of the half-open range `lo..hi`, or `None` for an empty range.
pub fn get_random_elem_from_range(lo: i64, hi: i64, rng: &mut RandomSource) -> (r: Option<i64>)
    ensures
        r is Some <==> lo < hi,
        r matches Some(v) ==> lo <= v < hi,
{
    if lo < hi {
        Some(rng.gen_i64(lo, hi))
    } else {
        None
    }
}

impl Solution {
    /// Create a new solution from its coordinates.
    pub fn new(function_values: Vec<i64>) -> (r: Solution)
        ensures
            r@ == function_values@,
    {
        Solution { function_values }
    }

    /// Create a random solution with `length` coordinates drawn uniformly
    /// from the non-empty half-open range `lo..hi`.
    pub fn random(lo: i64, hi: i64, length: usize, rng: &mut RandomSource) -> (r: Solution)
        requires
            lo < hi,
        ensures
            r@.len() == length,
            forall|i: int| 0 <= i < length ==> lo <= #[trigger] r@[i] < hi,
    {
        let mut function_values: Vec<i64> = Vec::new();
        for k in 0..length
            invariant
                lo < hi,
                function_values@.len() == k,
                forall|i: int| 0 <= i < k ==> lo <= #[trigger] function_values@[i] < hi,
        {
            function_values.push(rng.gen_i64(lo, hi));
        }
        Solution { function_values }
    }

    /// The coordinates stored in this solution.
    pub fn get_arguments(&self) -> (r: Vec<i64>)
        ensures
            r@ == self@,
    {
        let mut r: Vec<i64> = Vec::new();
        for k in 0..self.function_values.len()
            invariant
                r@.len() == k,
                forall|i: int| 0 <= i < k ==> #[trigger] r@[i] == self.function_values@[i],
        {
            r.push(self.function_values[k]);
        }
        proof {
            assert(r@ =~= self@);
        }
        r
    }

    /// Number of coordinates.
    pub fn len(&self) -> (r: usize)
        ensures
            r == self@.len(),
    {
        self.function_values.len()
    }

    /// Mutate the solution: with probability `prob / SCALE` rewrite one
    /// uniformly chosen coordinate by a random factor of `[0.8, 1.2)` other
    /// than exactly `1.0`; otherwise hand the solution back unchanged.
    pub fn mutate(self, prob: i64, rng: &mut RandomSource) -> (r: Solution)
        requires
            0 <= prob <= SCALE,
        ensures
            r@.len() == self@.len(),
            spec_mutated_from(r@, self@),
            prob == 0 ==> r@ == self@,
            prob == SCALE && self@.len() > 0 ==> exists|i: int, f: int|
                0 <= i < self@.len() && valid_factor(f) && r@ == self@.update(
                    i,
                    spec_mul_fixed(self@[i] as int, f) as i64,
                ),
    {
        let u = rng.gen_i64(0, SCALE);
        if u >= prob {
            // With probability `1 - prob / SCALE` nothing is perturbed.
            return self;
        }
        if self.function_values.len() == 0 {
            return self;
        }
        // A factor of [0.8, 1.2) with exactly 1.0 left out: draw from a range
        // one unit short and shift the upper part past 1.0.
        let f0 = rng.gen_i64(8_000_000_000, 11_999_999_999);
        let factor = if f0 >= SCALE {
            f0 + 1
        } else {
            f0
        };
        let idx = rng.gen_usize(0, self.function_values.len());
        let new_value = mul_fixed(self.function_values[idx], factor);
        let mut function_values = self.function_values;
        function_values[idx] = new_value;
        Solution { function_values }
    }

    /// Crossover with another solution of the same dimensionality: the result
    /// is the coordinate-wise average. Solutions of different dimensionality
    /// cannot be crossed and yield a `DimensionMismatch` error.
    pub fn crossover(&self, other: &Solution) -> (r: Result<Solution, SolutionError>)
        ensures
            self@.len() == other@.len() ==> (r matches Ok(s) && s@ == spec_avg_seq(self@, other@)),
            self@.len() != other@.len() ==> r == Err::<Solution, SolutionError>(
                SolutionError::DimensionMismatch {
                    left_number_of_entries: self@.len() as usize,
                    right_number_of_entries: other@.len() as usize,
                },
            ),
    {
        if self.function_values.len() != other.function_values.len() {
            return Err(SolutionError::DimensionMismatch {
                left_number_of_entries: self.function_values.len(),
                right_number_of_entries: other.function_values.len(),
            });
        }
        let mut function_values: Vec<i64> = Vec::new();
        for k in 0..self.function_values.len()
            invariant
                self@.len() == other@.len(),
                function_values@.len() == k,
                forall|i: int| 0 <= i < k ==> #[trigger] function_values@[i] == spec_avg(
                    self@[i] as int,
                    other@[i] as int,
                ) as i64,
        {
            function_values.push(avg(self.function_values[k], other.function_values[k]));
        }
        proof {
            assert(function_values@ =~= spec_avg_seq(self@, other@));
        }
        Ok(Solution { function_values })
    }

    /// The fitness of this solution: the objective's score for its
    /// coordinates, or the objective's arity error.
    pub fn fitness<F: Function>(&self, function: &F) -> (r: Result<i64, FunctionError>)
        ensures
            self@.len() == function.arity() ==> r == Ok::<i64, FunctionError>(
                function.score(self@),
            ),
            self@.len() != function.arity() ==> r == Err::<i64, FunctionError>(
                FunctionError::WrongNumberOfEntries {
                    expected_number_of_entries: function.arity(),
                    actual_number_of_entries: self@.len() as usize,
                },
            ),
    {
        function.get_function_value(&self.function_values)
    }
}

/// Canonical equality: two solutions are equal exactly when they have the
/// same number of coordinates and every coordinate agrees at the canonical
/// ten-decimal resolution (the stored fixed-point values are the canonical
/// forms, so no further rounding takes part in the comparison).
pub proof fn lemma_canonical_equality(a: Solution, b: Solution)
    ensures
        a.eq_spec(&b) <==> (a@.len() == b@.len() && (forall|i: int|
            0 <= i < a@.len() ==> a@[i] == b@[i])),
{
    if a@.len() == b@.len() && (forall|i: int| 0 <= i < a@.len() ==> a@[i] == b@[i]) {
        assert(a@ =~= b@);
    }
}

/// A mutation that rewrites the coordinate at `idx` by a legal factor
/// changes exactly that one coordinate and no other, provided the
/// coordinate's magnitude is above one half of the fixed-point unit and away
/// from the saturation bounds (a coordinate of exactly zero, for instance,
/// stays zero under every multiplicative factor).
pub proof fn lemma_mutation_changes_one_coordinate(orig: Seq<i64>, r: Seq<i64>, idx: int, f: int)
    requires
        0 <= idx < orig.len(),
        valid_factor(f),
        r == orig.update(idx, spec_mul_fixed(orig[idx] as int, f) as i64),
        SCALE as int / 2 < orig[idx] <= i64::MAX as int / 2 || -(i64::MAX as int / 2) <= orig[idx]
            < -(SCALE as int / 2),
    ensures
        r.len() == orig.len(),
        r[idx] != orig[idx],
        forall|j: int| 0 <= j < orig.len() && j != idx ==> r[j] == orig[j],
{
    crate::scalar::lemma_mul_fixed_changes(orig[idx] as int, f);
}

/// Crossing a solution with itself gives the solution back: the average of a
/// coordinate vector with itself is the vector itself.
pub proof fn lemma_crossover_idempotent(v: Seq<i64>)
    ensures
        spec_avg_seq(v, v) == v,
{
    assert forall|i: int| 0 <= i < v.len() implies spec_avg_seq(v, v)[i] == v[i] by {
        crate::scalar::lemma_avg_idempotent(v[i] as int);
    }
    assert(spec_avg_seq(v, v) =~= v);
}

} // verus!
