//! The errors of model fitting.
use vstd::prelude::*;

verus! {

/// The ways in which fitting a model can fail.
#[derive(Copy, Clone, Debug, PartialEq, Eq, Structural)]
pub enum Error {
    /// The slope cannot be represented: the inputs have no spread, or the
    /// exact line exceeds the range of the model's integers.
    SteepSlope,
    /// The two inputs differ in length.
    DiffLen,
    /// The input is empty, or holds more values than the scalar type can count.
    EmptyVal,
}

} // verus!
