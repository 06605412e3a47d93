//! Why a checked call refuses its input.

use vstd::prelude::*;

verus! {

/// The reason a checked entry point rejects its arguments.
#[derive(Clone, Copy, Debug, PartialEq, Eq, Structural)]
pub enum SamplingError {
    /// The weights add up to more than `u64::MAX`.
    InvalidWeights,
    /// The weights add up to zero, or the samples do not match the weights
    /// in number.
    InvalidInput,
}

} // verus!
