//! The estimator interface a host binding consumes: fit on (features,
//! treatment, outcome), predict an [`InferenceResult`] for a query matrix.

use vstd::prelude::*;
use crate::errors::CausalFlowError;
use crate::forest::InferenceResult;
use crate::num::Num;

verus! {

/// A causal-effect estimator.
pub trait CausalModel {
    /// Learn from a feature matrix, a treatment vector and an outcome
    /// vector of one entry per sample.
    fn fit(&mut self, x: &Vec<Vec<Num>>, t: &Vec<Num>, y: &Vec<Num>) -> Result<
        (),
        CausalFlowError,
    >
        requires
            t@.len() == y@.len(),
    ;

    /// Estimate a treatment effect for every row of the query matrix.
    fn predict(&self, x: &Vec<Vec<Num>>) -> Result<InferenceResult, CausalFlowError>;
}

} // verus!
