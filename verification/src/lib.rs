//! GSW and Ring-GSW homomorphic encryption over small toy parameters, with
//! blind-rotation bootstrapping, verified with Verus.
pub mod arith;
pub mod attack;
pub mod bootstrapping;
pub mod gsw;
pub mod matrix;
pub mod rng;
pub mod params;
pub mod rgsw;

use vstd::prelude::*;

verus! {

/// Errors reported by the encryption routines.
#[allow(inconsistent_fields)]
#[derive(Debug)]
pub enum FheError {
    /// The message is not one of the values the scheme accepts.
    InvalidMessage { value: i64, expected: &'static str },
    /// Two matrix dimensions that must agree do not.
    DimensionMismatch { got: usize, expected: usize },
    /// An integer message is too large in magnitude for the scaling in use.
    ValueOutOfRange { value: i64, max_abs: i64 },
    /// Two vectors that must have the same length do not.
    VectorLengthMismatch { len1: usize, len2: usize },
}

} // verus!
