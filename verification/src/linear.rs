//! A baseline estimator: one global difference-in-means coefficient,
//! predicted uniformly for every query row.

use vstd::prelude::*;
use crate::effect::{estimate_effect, idx_wf, spec_effect};
use crate::errors::CausalFlowError;
use crate::forest::{
    all_valid, mants_of, spec_validate, treat_flags, validate_inputs, InferenceResult,
    CI_HALF_WIDTH,
};
use crate::model::CausalModel;
use crate::num::{Num, HALF_SCALE, MAX_ABS};

verus! {

/// The identity index sequence `0 .. n`: the estimator uses every sample.
pub open spec fn all_indices(n: nat) -> Seq<usize> {
    Seq::new(n, |i: int| i as usize)
}

/// Lower end of the placeholder interval around a coefficient, clamped to
/// the representable range.
pub open spec fn ci_lo(c: i64) -> i64 {
    if c - CI_HALF_WIDTH < i64::MIN {
        i64::MIN
    } else {
        (c - CI_HALF_WIDTH) as i64
    }
}

/// Upper end of the placeholder interval around a coefficient, clamped to
/// the representable range.
pub open spec fn ci_hi(c: i64) -> i64 {
    if c + CI_HALF_WIDTH > i64::MAX {
        i64::MAX
    } else {
        (c + CI_HALF_WIDTH) as i64
    }
}

/// The baseline model: a single average-treatment-effect coefficient.
#[derive(Clone, Copy, Debug)]
pub struct LinearCausalModel {
    /// The fitted average treatment effect, as a fixed-point mantissa; zero
    /// until fitted.
    pub coef: i64,
}

impl LinearCausalModel {
    /// An unfitted model with a zero coefficient.
    pub fn new() -> (m: Self)
        ensures
            m.coef == 0,
    {
        LinearCausalModel { coef: 0 }
    }
}

impl CausalModel for LinearCausalModel {
    /// Validate the inputs eagerly, then store the difference-in-means
    /// effect over all samples as the coefficient.  On a validation error
    /// the model is left unchanged.
    fn fit(&mut self, x: &Vec<Vec<Num>>, t: &Vec<Num>, y: &Vec<Num>) -> (r: Result<
        (),
        CausalFlowError,
    >)
        ensures
            match r {
                Result::Err(e) => spec_validate(x@, t@, y@) == Some(e) && *final(self) == *old(
                    self,
                ),
                Result::Ok(u) => spec_validate(x@, t@, y@) is None && final(self).coef as int
                    == spec_effect(treat_flags(t@), mants_of(y@), all_indices(t@.len() as nat)),
            },
    {
        match validate_inputs(x, t, y) {
            Option::Some(e) => {
                return Err(e);
            },
            Option::None => {},
        }
        let n = t.len();
        let mut tb: Vec<bool> = Vec::new();
        let mut ym: Vec<i64> = Vec::new();
        let mut idx: Vec<usize> = Vec::new();
        for i in 0..n
            invariant
                n == t@.len() == y@.len(),
                all_valid(y@),
                tb@.len() == i,
                ym@.len() == i,
                idx@.len() == i,
                forall|q: int|
                    0 <= q < i ==> (#[trigger] tb@[q]) == (t@[q].spec_mantissa() > HALF_SCALE),
                forall|q: int| 0 <= q < i ==> (#[trigger] ym@[q]) == y@[q].spec_mantissa(),
                forall|q: int| 0 <= q < i ==> (#[trigger] idx@[q]) == q,
        {
            tb.push(t[i].mantissa() > HALF_SCALE);
            ym.push(y[i].mantissa());
            idx.push(i);
        }
        proof {
            assert(tb@ =~= treat_flags(t@));
            assert(ym@ =~= mants_of(y@));
            assert(idx@ =~= all_indices(t@.len() as nat));
            assert forall|q: int| 0 <= q < ym@.len() implies -MAX_ABS <= #[trigger] ym@[q]
                <= MAX_ABS by {
                assert(y@[q].spec_is_valid());
            }
            assert(idx_wf(idx@, ym@.len() as nat));
        }
        self.coef = estimate_effect(&tb, &ym, &idx);
        Ok(())
    }

    /// Predict the stored coefficient for every query row, with the
    /// placeholder interval around it and an all-zero importance vector of
    /// one entry per query column.
    fn predict(&self, x: &Vec<Vec<Num>>) -> (r: Result<InferenceResult, CausalFlowError>)
        ensures
            r matches Ok(res) && {
                let n = x@.len();
                let d = if n == 0 {
                    0int
                } else {
                    x@[0]@.len() as int
                };
                &&& res.predictions@.len() == n
                &&& forall|i: int| 0 <= i < n ==> (#[trigger] res.predictions@[i]) == self.coef
                &&& res.mean_effect == self.coef
                &&& res.confidence_intervals@.len() == n
                &&& forall|i: int|
                    0 <= i < n ==> (#[trigger] res.confidence_intervals@[i]) == (
                    ci_lo(self.coef),
                    ci_hi(self.coef),
                )
                &&& res.feature_importance@.len() == d
                &&& forall|j: int| 0 <= j < d ==> (#[trigger] res.feature_importance@[j]) == 0
            },
    {
        let n = x.len();
        let d = if n == 0 {
            0
        } else {
            x[0].len()
        };
        let base = self.coef as i128;
        let lo128 = base - CI_HALF_WIDTH as i128;
        let hi128 = base + CI_HALF_WIDTH as i128;
        let lo: i64 = if lo128 < i64::MIN as i128 {
            i64::MIN
        } else {
            lo128 as i64
        };
        let hi: i64 = if hi128 > i64::MAX as i128 {
            i64::MAX
        } else {
            hi128 as i64
        };
        let mut preds: Vec<i64> = Vec::new();
        let mut cis: Vec<(i64, i64)> = Vec::new();
        for i in 0..n
            invariant
                lo == ci_lo(self.coef),
                hi == ci_hi(self.coef),
                preds@.len() == i,
                cis@.len() == i,
                forall|q: int| 0 <= q < i ==> (#[trigger] preds@[q]) == self.coef,
                forall|q: int|
                    0 <= q < i ==> (#[trigger] cis@[q]) == (ci_lo(self.coef), ci_hi(self.coef)),
        {
            preds.push(self.coef);
            cis.push((lo, hi));
        }
        let mut fi: Vec<i64> = Vec::new();
        for j in 0..d
            invariant
                fi@.len() == j,
                forall|q: int| 0 <= q < j ==> (#[trigger] fi@[q]) == 0,
        {
            fi.push(0);
        }
        Ok(
            InferenceResult {
                predictions: preds,
                mean_effect: self.coef,
                confidence_intervals: cis,
                feature_importance: fi,
            },
        )
    }
}

} // verus!
