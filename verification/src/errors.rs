//! Structured error values for the engine.

use vstd::prelude::*;
use crate::num::Num;

verus! {

/// Every failure the engine reports.
///
/// The data-validation kinds (`EmptyData`, `InvalidData`, `InvalidTreatment`)
/// are checked eagerly at the top of `fit`, before any tree is built;
/// `ModelNotFitted` guards every read of ensemble state; `FeatureOutOfBounds`
/// is raised when a query row is too short for a feature index a split
/// references.  `Internal` and `Calculation` mark invariant violations that
/// verified code never produces.
#[derive(Clone, Copy, Debug, PartialEq, Eq, Structural)]
pub enum CausalFlowError {
    /// A query row or split references a feature index out of range.
    FeatureOutOfBounds(usize),
    /// An input value is NaN, infinite, or beyond the representable domain.
    InvalidData,
    /// Training data with zero samples.
    EmptyData,
    /// A treatment entry that is neither exactly `0.0` nor exactly `1.0`.
    InvalidTreatment(Num),
    /// Ensemble state read before a successful `fit`.
    ModelNotFitted,
    /// An internal invariant violation; never produced by verified code.
    Internal,
    /// A numeric inconsistency; never produced by verified code.
    Calculation,
}

impl CausalFlowError {
    /// A short description of the error.
    pub fn describe(&self) -> (r: &'static str)
        ensures
            r@ == self.spec_describe(),
    {
        match self {
            CausalFlowError::FeatureOutOfBounds(_) => "missing feature data: feature index out of bounds",
            CausalFlowError::InvalidData => "invalid data: input contains NaN or Infinity",
            CausalFlowError::EmptyData => "empty data: training or inference data cannot be empty",
            CausalFlowError::InvalidTreatment(_) => "invalid treatment: treatment values must be binary (0 or 1)",
            CausalFlowError::ModelNotFitted => "model not fitted: please call fit() before predicting",
            CausalFlowError::Internal => "internal error",
            CausalFlowError::Calculation => "calculation error",
        }
    }

    /// The description each error kind carries.
    pub open spec fn spec_describe(self) -> Seq<char> {
        match self {
            CausalFlowError::FeatureOutOfBounds(_) => "missing feature data: feature index out of bounds"@,
            CausalFlowError::InvalidData => "invalid data: input contains NaN or Infinity"@,
            CausalFlowError::EmptyData => "empty data: training or inference data cannot be empty"@,
            CausalFlowError::InvalidTreatment(_) => "invalid treatment: treatment values must be binary (0 or 1)"@,
            CausalFlowError::ModelNotFitted => "model not fitted: please call fit() before predicting"@,
            CausalFlowError::Internal => "internal error"@,
            CausalFlowError::Calculation => "calculation error"@,
        }
    }
}

} // verus!
