//! A genetic optimizer for scalar objective functions.
//!
//! Candidate solutions are fixed-length vectors of fixed-point numbers carrying
//! ten decimal places, the same resolution that governs candidate equality and
//! deduplication. Populations are deduplicated collections of candidates that
//! evolve by all-pairs crossover (coordinate-wise averaging) and single-coordinate
//! mutation, with truncation selection between generations.

pub mod function;
pub mod random;
pub mod scalar;
pub mod solution;
pub mod solutions;
pub mod test_objects;
