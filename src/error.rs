//! Errors of weighted sampling.

use vstd::prelude::*;

verus! {

/// Why weights cannot give a weighted table.
#[derive(Debug, Clone, Copy, PartialEq, Eq, Structural)]
pub enum WeightedRandError {
    /// The weights sum to zero, so no index is favoured over another.
    SumWeights,
}

impl WeightedRandError {
    /// A short description of the error.
    pub fn description(&self) -> (r: &'static str)
        ensures
            r@ == "Sum of weights is 0."@,
    {
        match self {
            WeightedRandError::SumWeights => "Sum of weights is 0.",
        }
    }
}

} // verus!
