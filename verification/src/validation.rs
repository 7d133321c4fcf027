//! The placebo-based robustness check: refit a fresh forest on a
//! treatment-shuffled copy of the data and compare the magnitude of the
//! placebo mean effect against the original one.

use vstd::prelude::*;
use vstd::seq_lib::group_to_multiset_ensures;
use crate::effect::MAX_SAMPLES;
use crate::errors::CausalFlowError;
use crate::forest::{
    all_binary, all_valid, forest_wf, mat_valid, CausalForest, MAX_TREES,
};
use crate::num::Num;
use crate::rng::{rng_from_seed, rng_shuffle};

verus! {

/// Magnitude of an integer.
pub open spec fn abs_int(a: int) -> int {
    if a < 0 {
        -a
    } else {
        a
    }
}

/// The robustness rule: when the original mean effect is non-zero, the
/// placebo effect must stay below one fifth of it; otherwise it must stay
/// below the absolute threshold `0.05`.
pub open spec fn spec_robust_decision(placebo_mean: int, original_mean: int) -> bool {
    let pa = abs_int(placebo_mean);
    let oa = abs_int(original_mean);
    if oa > 0 {
        pa < oa / 5
    } else {
        pa < 50_000
    }
}

/// Decide robustness from the two mean effects, exactly as
/// [`spec_robust_decision`] states it.
pub fn robust_decision(placebo_mean: i64, original_mean: i64) -> (r: bool)
    ensures
        r == spec_robust_decision(placebo_mean as int, original_mean as int),
{
    let pa: i128 = if placebo_mean < 0 {
        -(placebo_mean as i128)
    } else {
        placebo_mean as i128
    };
    let oa: i128 = if original_mean < 0 {
        -(original_mean as i128)
    } else {
        original_mean as i128
    };
    if oa > 0 {
        pa < oa / 5
    } else {
        pa < 50_000
    }
}

/// What the check reports: the verdict and a human-readable message.
#[derive(Clone, Debug)]
pub struct ValidationResult {
    /// Whether the placebo effect collapsed as a robust causal structure
    /// predicts.
    pub is_robust: bool,
    /// A sentence explaining the verdict.
    pub message: String,
}

/// A rearrangement of an everywhere-valid vector is everywhere valid.
proof fn lemma_permuted_valid(a: Seq<Num>, b: Seq<Num>)
    requires
        a.to_multiset() == b.to_multiset(),
        all_valid(b),
    ensures
        all_valid(a),
{
    broadcast use group_to_multiset_ensures;

    assert forall|k: int| 0 <= k < a.len() implies (#[trigger] a[k]).spec_is_valid() by {
        assert(a.contains(a[k]));
        assert(a.to_multiset().count(a[k]) > 0);
        assert(b.contains(a[k]));
        let j = choose|j: int| 0 <= j < b.len() && b[j] == a[k];
        assert(b[j].spec_is_valid());
    }
}

/// A rearrangement of an all-binary vector is all binary.
proof fn lemma_permuted_binary(a: Seq<Num>, b: Seq<Num>)
    requires
        a.to_multiset() == b.to_multiset(),
        all_binary(b),
    ensures
        all_binary(a),
{
    broadcast use group_to_multiset_ensures;

    assert forall|k: int| 0 <= k < a.len() implies (#[trigger] a[k]).spec_is_binary() by {
        assert(a.contains(a[k]));
        assert(a.to_multiset().count(a[k]) > 0);
        assert(b.contains(a[k]));
        let j = choose|j: int| 0 <= j < b.len() && b[j] == a[k];
        assert(b[j].spec_is_binary());
    }
}

/// Run the placebo test: predict with the fitted forest, refit a fresh
/// forest with the same hyperparameters on a shuffled copy of the treatment
/// vector, predict again, and compare the two mean effects with
/// [`robust_decision`].
///
/// The verdict depends on the random shuffle and the random tree builds, so
/// only the shape of the report is pinned here; the decision rule itself is
/// verified in [`robust_decision`].  Errors of the underlying `fit` and
/// `predict` calls propagate unchanged; `n_folds` is kept for interface
/// compatibility and only documents how thorough a check the caller asked
/// for.
pub fn validate_causal_structure(
    forest: &CausalForest,
    x: &Vec<Vec<Num>>,
    t: &Vec<Num>,
    y: &Vec<Num>,
    n_folds: usize,
) -> (r: Result<ValidationResult, CausalFlowError>)
    requires
        forest_wf(*forest),
        forest.n_estimators <= MAX_TREES,
        forest.min_leaf_size >= 1,
        x@.len() <= MAX_SAMPLES,
        t@.len() == x@.len(),
        y@.len() == x@.len(),
        forall|i: int| 0 <= i < x@.len() ==> (#[trigger] x@[i])@.len() == x@[0]@.len(),
    ensures
        !forest.fitted ==> r == Result::<ValidationResult, CausalFlowError>::Err(
            CausalFlowError::ModelNotFitted,
        ),
        r matches Ok(v) ==> (v.is_robust ==> v.message@
            == "Causal structure looks robust: the placebo effect is significantly lower than the estimated effect."@)
            && (!v.is_robust ==> v.message@
            == "Warning: causal structure may not be robust: the placebo effect is too high compared to the estimated effect."@),
        (forest.fitted && x@.len() >= 1 && mat_valid(x@) && all_valid(t@) && all_valid(y@)
            && all_binary(t@) && forall|i: int|
            0 <= i < x@.len() ==> (#[trigger] x@[i])@.len() >= forest.n_features) ==> r is Ok,
{
    let original = match forest.predict(x) {
        Result::Ok(res) => res,
        Result::Err(e) => {
            proof {
                if forest.fitted && x@.len() >= 1 && mat_valid(x@) && all_valid(t@) && all_valid(
                    y@,
                ) && all_binary(t@) && forall|i: int|
                    0 <= i < x@.len() ==> (#[trigger] x@[i])@.len() >= forest.n_features {
                    crate::laws::lemma_predict_ok_on_full_rows(
                        *forest,
                        x@,
                        Result::<crate::forest::InferenceResult, CausalFlowError>::Err(e),
                    );
                }
            }
            return Err(e);
        },
    };
    let mut placebo = CausalForest::new(
        forest.n_estimators,
        forest.max_depth,
        forest.min_leaf_size,
    );
    placebo.seed = forest.seed.wrapping_add(1);
    let n = t.len();
    let mut ts: Vec<Num> = Vec::new();
    for i in 0..n
        invariant
            n == t@.len(),
            ts@.len() == i,
            forall|q: int| 0 <= q < i ==> (#[trigger] ts@[q]) == t@[q],
    {
        ts.push(t[i]);
    }
    proof {
        assert(ts@ =~= t@);
    }
    let mut prng = rng_from_seed(placebo.seed);
    rng_shuffle(&mut prng, &mut ts);
    proof {
        if mat_valid(x@) && all_valid(t@) && all_valid(y@) && all_binary(t@) {
            lemma_permuted_valid(ts@, t@);
            lemma_permuted_binary(ts@, t@);
        }
    }
    match placebo.fit(x, &ts, y) {
        Result::Ok(u) => {},
        Result::Err(e) => {
            return Err(e);
        },
    }
    let placebo_res = match placebo.predict(x) {
        Result::Ok(res) => res,
        Result::Err(e) => {
            proof {
                if x@.len() >= 1 && mat_valid(x@) && all_valid(t@) && all_valid(y@) && all_binary(
                    t@,
                ) && forall|i: int|
                    0 <= i < x@.len() ==> (#[trigger] x@[i])@.len() >= forest.n_features {
                    crate::laws::lemma_predict_ok_on_full_rows(
                        placebo,
                        x@,
                        Result::<crate::forest::InferenceResult, CausalFlowError>::Err(e),
                    );
                }
            }
            return Err(e);
        },
    };
    let is_robust = robust_decision(placebo_res.mean_effect, original.mean_effect);
    let message = if is_robust {
        "Causal structure looks robust: the placebo effect is significantly lower than the estimated effect.".to_owned()
    } else {
        "Warning: causal structure may not be robust: the placebo effect is too high compared to the estimated effect.".to_owned()
    };
    let _ = n_folds;
    Ok(ValidationResult { is_robust, message })
}

} // verus!
