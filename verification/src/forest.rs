//! The ensemble: a forest of independently built honest causal trees, and
//! the aggregation of their predictions and importance scores.

use vstd::prelude::*;
use rayon::iter::{IntoParallelRefIterator, ParallelIterator};
use crate::arith::{
    lemma_sum_i128_entry_bound, lemma_sum_i128_nonneg, lemma_sum_i128_take_step,
    lemma_sum_i128_update, lemma_sum_i64_take_step, lemma_tdiv_bound, lemma_tdiv_exact,
    lemma_tdiv_nonneg, lemma_tdiv_ordered, sum_i128, sum_i64, tdiv,
};
use crate::effect::{GAIN_MAX, MAX_SAMPLES};
use crate::errors::CausalFlowError;
use crate::num::{Num, HALF_SCALE, MAX_ABS, SCALE};
use crate::rng::{rng_from_seed, rng_next_seed};
use crate::tree::{
    data_wf, importance_budget, lemma_tree_rows_ok, nfeat, node_wf, spec_tree_rows, tree_fit_post,
    CausalTree,
};

verus! {

/// Most trees one forest may hold; keeps the aggregated importance total and
/// its normalization inside `i128`.
pub const MAX_TREES: usize = 65_536;

/// Upper bound on one fitted tree's total accumulated gain:
/// `MAX_SAMPLES * GAIN_MAX` dominates the build budget of any tree fitted
/// from at most [`MAX_SAMPLES`] samples.
pub const TREE_IMP_CAP: i128 = 16_777_216 * 16_000_000_000_000_000_000;

/// What `predict` returns: per-row effect estimates and the aggregate
/// diagnostics, all as fixed-point mantissas scaled by [`SCALE`].
#[derive(Clone, Debug)]
pub struct InferenceResult {
    /// One treatment-effect estimate per query row.
    pub predictions: Vec<i64>,
    /// Arithmetic mean of `predictions`; zero for an empty query.
    pub mean_effect: i64,
    /// Fixed-width placeholder interval `(p - 0.1, p + 0.1)` per prediction,
    /// not a statistically derived interval.
    pub confidence_intervals: Vec<(i64, i64)>,
    /// Per-feature importance, normalized to sum to one when any split in
    /// the ensemble accumulated positive gain, all zero otherwise.
    pub feature_importance: Vec<i64>,
}

/// The ensemble estimator: hyperparameters, and the fitted state populated
/// by `fit`.
#[derive(Clone, Debug)]
pub struct CausalForest {
    /// Number of trees built per fit.
    pub n_estimators: usize,
    /// Depth bound for every tree.
    pub max_depth: usize,
    /// Minimum number of split-set samples each side of a split must keep,
    /// and minimum estimation-set size of a node that may still split.
    pub min_leaf_size: usize,
    /// The fitted trees; empty until `fit` succeeds.
    pub trees: Vec<CausalTree>,
    /// Number of features seen at fit time; zero until `fit` succeeds.
    pub n_features: usize,
    /// Whether a fit has completed successfully.
    pub fitted: bool,
    /// Master seed; every tree's generator is derived from it, so a fit with
    /// the same seed and data draws the same sample splits.
    pub seed: u64,
}

/// Every value of the vector lies in the representable domain.
pub open spec fn all_valid(v: Seq<Num>) -> bool {
    forall|i: int| 0 <= i < v.len() ==> (#[trigger] v[i]).spec_is_valid()
}

/// Every value of the matrix lies in the representable domain.
pub open spec fn mat_valid(x: Seq<Vec<Num>>) -> bool {
    forall|i: int| 0 <= i < x.len() ==> all_valid((#[trigger] x[i])@)
}

/// Every treatment value is exactly zero or exactly one.
pub open spec fn all_binary(t: Seq<Num>) -> bool {
    forall|i: int| 0 <= i < t.len() ==> (#[trigger] t[i]).spec_is_binary()
}

/// Index of the first treatment value that is not binary, scanning from `i`;
/// `-1` when all remaining values are binary.
pub open spec fn first_nonbinary(t: Seq<Num>, i: int) -> int
    decreases t.len() - i when 0 <= i <= t.len()
{
    if i >= t.len() {
        -1
    } else if !t[i].spec_is_binary() {
        i
    } else {
        first_nonbinary(t, i + 1)
    }
}

/// The eager input validation at the top of `fit`, in order: no samples at
/// all, then any non-representable value anywhere, then the first treatment
/// value that is not binary.
pub open spec fn spec_validate(x: Seq<Vec<Num>>, t: Seq<Num>, y: Seq<Num>) -> Option<
    CausalFlowError,
> {
    if x.len() == 0 {
        Some(CausalFlowError::EmptyData)
    } else if !(mat_valid(x) && all_valid(t) && all_valid(y)) {
        Some(CausalFlowError::InvalidData)
    } else if !all_binary(t) {
        Some(CausalFlowError::InvalidTreatment(t[first_nonbinary(t, 0)]))
    } else {
        None
    }
}

/// Mantissas of a vector of values.
pub open spec fn mants_of(v: Seq<Num>) -> Seq<i64> {
    Seq::new(v.len(), |i: int| v[i].spec_mantissa())
}

/// Mantissas of a matrix of values.
pub open spec fn mants_mat(x: Seq<Vec<Num>>) -> Seq<Seq<i64>> {
    Seq::new(x.len(), |i: int| mants_of(x[i]@))
}

/// Treatment flags: a sample is treated when its treatment value exceeds
/// one half.
pub open spec fn treat_flags(t: Seq<Num>) -> Seq<bool> {
    Seq::new(t.len(), |i: int| t[i].spec_mantissa() > HALF_SCALE)
}

/// One fitted tree as the forest keeps it: rooted and well-formed for the
/// forest's feature count, with a non-negative importance accumulator whose
/// total is within the per-tree cap.
pub open spec fn tree_wf_for(tree: CausalTree, d: nat) -> bool {
    &&& match tree.root {
        Option::Some(r) => node_wf(*r, d),
        Option::None => false,
    }
    &&& tree.feature_importance@.len() == d
    &&& forall|j: int| 0 <= j < d ==> (#[trigger] tree.feature_importance@[j]) >= 0
    &&& sum_i128(tree.feature_importance@) <= TREE_IMP_CAP
}

/// The forest's state invariant: a fitted forest holds exactly
/// `n_estimators` well-formed trees, an unfitted one holds none.
pub open spec fn forest_wf(f: CausalForest) -> bool {
    &&& f.fitted ==> {
        &&& f.trees@.len() == f.n_estimators
        &&& f.n_estimators <= MAX_TREES
        &&& forall|k: int|
            0 <= k < f.trees@.len() ==> tree_wf_for(#[trigger] f.trees@[k], f.n_features as nat)
    }
    &&& !f.fitted ==> f.trees@.len() == 0
}

/// Check the training inputs exactly as [`spec_validate`] orders it.
pub fn validate_inputs(x: &Vec<Vec<Num>>, t: &Vec<Num>, y: &Vec<Num>) -> (r: Option<
    CausalFlowError,
>)
    ensures
        r == spec_validate(x@, t@, y@),
{
    if x.len() == 0 {
        return Some(CausalFlowError::EmptyData);
    }
    let n = x.len();
    for i in 0..n
        invariant
            n == x@.len(),
            forall|q: int| 0 <= q < i ==> all_valid((#[trigger] x@[q])@),
    {
        let row = &x[i];
        let m = row.len();
        for j in 0..m
            invariant
                i < n == x@.len(),
                m == row@.len(),
                row == &x@[i as int],
                forall|q: int| 0 <= q < j ==> (#[trigger] row@[q]).spec_is_valid(),
        {
            if !row[j].is_valid() {
                proof {
                    assert(!all_valid(x@[i as int]@));
                }
                return Some(CausalFlowError::InvalidData);
            }
        }
    }
    let tn = t.len();
    for i in 0..tn
        invariant
            tn == t@.len(),
            mat_valid(x@),
            x@.len() > 0,
            forall|q: int| 0 <= q < i ==> (#[trigger] t@[q]).spec_is_valid(),
    {
        if !t[i].is_valid() {
            return Some(CausalFlowError::InvalidData);
        }
    }
    let yn = y.len();
    for i in 0..yn
        invariant
            yn == y@.len(),
            mat_valid(x@),
            all_valid(t@),
            x@.len() > 0,
            forall|q: int| 0 <= q < i ==> (#[trigger] y@[q]).spec_is_valid(),
    {
        if !y[i].is_valid() {
            return Some(CausalFlowError::InvalidData);
        }
    }
    for i in 0..tn
        invariant
            tn == t@.len(),
            mat_valid(x@),
            all_valid(t@),
            all_valid(y@),
            x@.len() > 0,
            forall|q: int| 0 <= q < i ==> (#[trigger] t@[q]).spec_is_binary(),
            first_nonbinary(t@, 0) == first_nonbinary(t@, i as int),
    {
        if !t[i].is_binary() {
            return Some(CausalFlowError::InvalidTreatment(t[i]));
        }
    }
    None
}

/// Half-width of the placeholder confidence interval: `0.1` as a mantissa.
pub const CI_HALF_WIDTH: i64 = 100_000;

/// One tree's predictions over the query rows; a tree without a root
/// reports `ModelNotFitted`.
pub open spec fn tree_pred(tree: CausalTree, rows: Seq<Seq<i64>>) -> Result<
    Seq<i64>,
    CausalFlowError,
> {
    match tree.root {
        Option::Some(r) => spec_tree_rows(*r, rows),
        Option::None => Err(CausalFlowError::ModelNotFitted),
    }
}

/// Per-row sums of the trees' predictions, or the error of the first tree
/// whose prediction fails.
pub open spec fn spec_forest_sums(trees: Seq<CausalTree>, rows: Seq<Seq<i64>>) -> Result<
    Seq<int>,
    CausalFlowError,
>
    decreases trees.len(),
{
    if trees.len() == 0 {
        Ok(Seq::new(rows.len(), |i: int| 0int))
    } else {
        match spec_forest_sums(trees.drop_last(), rows) {
            Ok(sums) => match tree_pred(trees.last(), rows) {
                Ok(ps) => Ok(Seq::new(rows.len(), |i: int| sums[i] + ps[i])),
                Err(e) => Err(e),
            },
            Err(e) => Err(e),
        }
    }
}

/// Once a prefix of the trees fails, the whole ensemble fails with the same
/// error.
pub proof fn lemma_forest_sums_err_persists(trees: Seq<CausalTree>, rows: Seq<Seq<i64>>, k: int)
    requires
        0 <= k <= trees.len(),
        spec_forest_sums(trees.take(k), rows) is Err,
    ensures
        spec_forest_sums(trees, rows) == spec_forest_sums(trees.take(k), rows),
    decreases trees.len() - k,
{
    if k < trees.len() {
        assert(trees.take(k + 1).drop_last() =~= trees.take(k));
        lemma_forest_sums_err_persists(trees, rows, k + 1);
    } else {
        assert(trees.take(k) =~= trees);
    }
}

/// Gain accumulated for feature `j` over all trees.
pub open spec fn raw_imp(trees: Seq<CausalTree>, j: int) -> int
    decreases trees.len(),
{
    if trees.len() == 0 {
        0
    } else {
        raw_imp(trees.drop_last(), j) + trees.last().feature_importance@[j]
    }
}

/// Grand total of the accumulated gain over the first `d` features and all
/// trees.
pub open spec fn raw_total(trees: Seq<CausalTree>, d: int) -> int
    decreases d,
{
    if d <= 0 {
        0
    } else {
        raw_total(trees, d - 1) + raw_imp(trees, d - 1)
    }
}

/// The forest's normalized feature importance: each feature's accumulated
/// gain divided by the grand total, or all zero when no split anywhere
/// accumulated positive gain.
pub open spec fn norm_importance(trees: Seq<CausalTree>, d: nat) -> Seq<int> {
    let total = raw_total(trees, d as int);
    if total > 0 {
        Seq::new(d, |j: int| tdiv(raw_imp(trees, j) * SCALE, total))
    } else {
        Seq::new(d, |j: int| 0int)
    }
}

/// Per-feature accumulated gain is non-negative over well-formed trees.
pub proof fn lemma_raw_imp_nonneg(trees: Seq<CausalTree>, d: nat, j: int)
    requires
        forall|k: int| 0 <= k < trees.len() ==> tree_wf_for(#[trigger] trees[k], d),
        0 <= j < d,
    ensures
        raw_imp(trees, j) >= 0,
    decreases trees.len(),
{
    if trees.len() > 0 {
        assert(trees[trees.len() - 1].feature_importance@[j] >= 0);
        lemma_raw_imp_nonneg(trees.drop_last(), d, j);
    }
}

/// Relies on rayon's parallel iterator `map`/`collect`: every seed is handed
/// to one independent tree build — a call of the verified
/// `CausalTree::new` and `CausalTree::fit` — and the fitted trees are
/// collected in seed order, so each tree satisfies what `fit` ensures.
#[verifier::external_body]
fn build_trees_parallel(
    x: &Vec<Vec<i64>>,
    t: &Vec<bool>,
    y: &Vec<i64>,
    max_depth: usize,
    min_leaf_size: usize,
    n_features: usize,
    seeds: &Vec<u64>,
) -> (trees: Vec<CausalTree>)
    requires
        data_wf(x.deep_view(), t@, y@),
        x@.len() <= MAX_SAMPLES,
        min_leaf_size >= 1,
        n_features as nat == nfeat(x.deep_view()),
    ensures
        trees@.len() == seeds@.len(),
        forall|k: int|
            0 <= k < trees@.len() ==> tree_fit_post(
                #[trigger] trees@[k],
                x.deep_view(),
                t@,
                y@,
                max_depth as nat,
                min_leaf_size as nat,
            ),
{
    seeds
        .par_iter()
        .map(
            |&s| {
                let mut tree = CausalTree::new(n_features);
                tree.fit(x, t, y, max_depth, min_leaf_size, s);
                tree
            },
        )
        .collect()
}

/// A sequence of `i128` values as unbounded integers.
pub open spec fn ints_of(s: Seq<i128>) -> Seq<int> {
    Seq::new(s.len(), |i: int| s[i] as int)
}

/// Mantissas of the query rows.
fn to_mantissa_matrix(x: &Vec<Vec<Num>>) -> (xm: Vec<Vec<i64>>)
    ensures
        xm.deep_view() == mants_mat(x@),
        xm@.len() == x@.len(),
{
    let n = x.len();
    let mut xm: Vec<Vec<i64>> = Vec::new();
    for i in 0..n
        invariant
            n == x@.len(),
            xm@.len() == i,
            forall|q: int| 0 <= q < i ==> (#[trigger] xm@[q])@ == mants_of(x@[q]@),
    {
        let row = &x[i];
        let m = row.len();
        let mut mrow: Vec<i64> = Vec::new();
        for j in 0..m
            invariant
                i < n == x@.len(),
                m == row@.len(),
                row == &x@[i as int],
                mrow@.len() == j,
                forall|q: int| 0 <= q < j ==> (#[trigger] mrow@[q]) == row@[q].spec_mantissa(),
        {
            mrow.push(row[j].mantissa());
        }
        proof {
            assert(mrow@ =~= mants_of(x@[i as int]@));
        }
        xm.push(mrow);
    }
    proof {
        assert(xm.deep_view() =~~= mants_mat(x@));
    }
    xm
}

/// Everything `predict` promises of its result: each error with the exact
/// condition it answers, and, on success, every field of the
/// [`InferenceResult`] pinned down — predictions as the per-row average of
/// the trees' leaf effects, the mean effect as the average of the
/// predictions, the placeholder intervals, and the normalized feature
/// importance.
pub open spec fn predict_post(
    f: CausalForest,
    x: Seq<Vec<Num>>,
    r: Result<InferenceResult, CausalFlowError>,
) -> bool {
    &&& (!f.fitted ==> r == Result::<InferenceResult, CausalFlowError>::Err(
        CausalFlowError::ModelNotFitted,
    ))
    &&& (f.fitted && !mat_valid(x) ==> r == Result::<InferenceResult, CausalFlowError>::Err(
        CausalFlowError::InvalidData,
    ))
    &&& (f.fitted && mat_valid(x) ==> {
        let rows = mants_mat(x);
        &&& (spec_forest_sums(f.trees@, rows) matches Err(e) ==> r == Result::<
            InferenceResult,
            CausalFlowError,
        >::Err(e))
        &&& (spec_forest_sums(f.trees@, rows) matches Ok(ss) ==> (r matches Ok(res) && {
            &&& res.predictions@.len() == x.len()
            &&& forall|i: int|
                0 <= i < x.len() ==> (#[trigger] res.predictions@[i]) as int == (if f.trees@.len()
                    > 0 {
                    tdiv(ss[i], f.trees@.len() as int)
                } else {
                    0
                })
            &&& res.mean_effect as int == (if x.len() > 0 {
                tdiv(sum_i64(res.predictions@), x.len() as int)
            } else {
                0
            })
            &&& res.confidence_intervals@.len() == x.len()
            &&& forall|i: int|
                0 <= i < x.len() ==> (#[trigger] res.confidence_intervals@[i]).0
                    == res.predictions@[i] - CI_HALF_WIDTH && res.confidence_intervals@[i].1
                    == res.predictions@[i] + CI_HALF_WIDTH
            &&& res.feature_importance@.len() == f.n_features
            &&& forall|j: int|
                0 <= j < f.n_features ==> (#[trigger] res.feature_importance@[j]) as int
                    == norm_importance(f.trees@, f.n_features as nat)[j]
        }))
    })
}

/// Sum the trees' per-row predictions, stopping at the first tree whose
/// prediction fails.
fn accumulate_sums(trees: &Vec<CausalTree>, xm: &Vec<Vec<i64>>, d: usize) -> (r: Result<
    Vec<i128>,
    CausalFlowError,
>)
    requires
        trees@.len() <= MAX_TREES,
        forall|k: int| 0 <= k < trees@.len() ==> tree_wf_for(#[trigger] trees@[k], d as nat),
    ensures
        spec_forest_sums(trees@, xm.deep_view()) matches Err(e) ==> r == Result::<
            Vec<i128>,
            CausalFlowError,
        >::Err(e),
        spec_forest_sums(trees@, xm.deep_view()) matches Ok(ss) ==> (r matches Ok(v) && v@.len()
            == xm@.len() && ints_of(v@) == ss && forall|i: int|
            0 <= i < v@.len() ==> -((trees@.len() * 2 * MAX_ABS) as int) <= #[trigger] v@[i]
                <= (trees@.len() * 2 * MAX_ABS) as int),
{
    let ghost rows = xm.deep_view();
    let n = xm.len();
    let mut sums: Vec<i128> = Vec::new();
    for i in 0..n
        invariant
            n == xm@.len(),
            sums@.len() == i,
            forall|q: int| 0 <= q < i ==> (#[trigger] sums@[q]) == 0,
    {
        sums.push(0);
    }
    let tcount = trees.len();
    proof {
        assert(rows.len() == n);
        assert(ints_of(sums@) =~= Seq::new(rows.len(), |i: int| 0int));
    }
    for k in 0..tcount
        invariant
            tcount == trees@.len() <= MAX_TREES,
            forall|q: int| 0 <= q < trees@.len() ==> tree_wf_for(#[trigger] trees@[q], d as nat),
            rows == xm.deep_view(),
            n == xm@.len() == rows.len(),
            sums@.len() == n,
            spec_forest_sums(trees@.take(k as int), rows) == Result::<
                Seq<int>,
                CausalFlowError,
            >::Ok(ints_of(sums@)),
            forall|q: int|
                0 <= q < n ==> -((k * 2 * MAX_ABS) as int) <= #[trigger] sums@[q] <= (k * 2
                    * MAX_ABS) as int,
    {
        proof {
            assert(trees@.take(k as int + 1).drop_last() =~= trees@.take(k as int));
            assert(trees@.take(k as int + 1).last() == trees@[k as int]);
            assert(tree_wf_for(trees@[k as int], d as nat));
        }
        let tree = &trees[k];
        match tree.predict(xm) {
            Result::Err(e) => {
                proof {
                    assert(tree.root is Some);
                    let root = tree.root->0;
                    if spec_tree_rows(*root, rows) is Ok {
                        assert(false);
                    }
                    assert(tree_pred(trees@[k as int], rows) == Result::<
                        Seq<i64>,
                        CausalFlowError,
                    >::Err(e));
                    assert(spec_forest_sums(trees@.take(k as int + 1), rows) == Result::<
                        Seq<int>,
                        CausalFlowError,
                    >::Err(e));
                    lemma_forest_sums_err_persists(trees@, rows, k as int + 1);
                }
                return Err(e);
            },
            Result::Ok(tp) => {
                proof {
                    assert(tree.root is Some);
                    let root = tree.root->0;
                    lemma_tree_rows_ok(*root, d as nat, rows);
                    assert(spec_tree_rows(*root, rows) matches Ok(ps) && tp@ == ps);
                }
                let ghost snap = sums@;
                let ghost ps = tp@;
                for i in 0..n
                    invariant
                        n == sums@.len() == snap.len(),
                        tp@ == ps,
                        ps.len() == n,
                        k < tcount <= MAX_TREES,
                        forall|q: int|
                            0 <= q < n ==> -((k * 2 * MAX_ABS) as int) <= #[trigger] snap[q] <= (
                            k * 2 * MAX_ABS) as int,
                        forall|q: int|
                            0 <= q < n ==> -2 * MAX_ABS <= #[trigger] ps[q] <= 2 * MAX_ABS,
                        forall|q: int|
                            0 <= q < i ==> (#[trigger] sums@[q]) == snap[q] + ps[q],
                        forall|q: int| i <= q < n ==> (#[trigger] sums@[q]) == snap[q],
                {
                    proof {
                        assert((k * 2 * MAX_ABS) as int + 2 * MAX_ABS == ((k + 1) * 2
                            * MAX_ABS) as int && ((k + 1) * 2 * MAX_ABS) as int <= (MAX_TREES
                            as int) * 2 * MAX_ABS) by (nonlinear_arith)
                            requires
                                0 <= k && k + 1 <= MAX_TREES,
                        ;
                    }
                    let add = tp[i] as i128;
                    let cur = sums[i];
                    sums[i] = cur + add;
                }
                proof {
                    assert(ints_of(sums@) =~= Seq::new(
                        rows.len(),
                        |i: int| ints_of(snap)[i] + ps[i],
                    ));
                    assert forall|q: int| 0 <= q < n implies -(((k + 1) * 2 * MAX_ABS) as int)
                        <= #[trigger] sums@[q] <= (((k + 1) * 2 * MAX_ABS) as int) by {
                        assert((k * 2 * MAX_ABS) as int + 2 * MAX_ABS == ((k + 1) * 2
                            * MAX_ABS) as int) by (nonlinear_arith)
                            requires
                                0 <= k,
                        ;
                    }
                }
            },
        }
    }
    proof {
        assert(trees@.take(tcount as int) =~= trees@);
    }
    Ok(sums)
}

/// Sum the trees' importance accumulators elementwise.
fn aggregate_importance(trees: &Vec<CausalTree>, d: usize) -> (raw: Vec<i128>)
    requires
        trees@.len() <= MAX_TREES,
        forall|k: int| 0 <= k < trees@.len() ==> tree_wf_for(#[trigger] trees@[k], d as nat),
    ensures
        raw@.len() == d,
        forall|j: int| 0 <= j < d ==> (#[trigger] raw@[j]) as int == raw_imp(trees@, j),
        forall|j: int| 0 <= j < d ==> (#[trigger] raw@[j]) >= 0,
        sum_i128(raw@) <= trees@.len() * TREE_IMP_CAP,
{
    let mut raw: Vec<i128> = Vec::new();
    for j in 0..d
        invariant
            raw@.len() == j,
            forall|q: int| 0 <= q < j ==> (#[trigger] raw@[q]) == 0,
    {
        raw.push(0);
    }
    proof {
        crate::arith::lemma_sum_i128_zero(raw@);
    }
    let tcount = trees.len();
    for k in 0..tcount
        invariant
            tcount == trees@.len() <= MAX_TREES,
            forall|q: int| 0 <= q < trees@.len() ==> tree_wf_for(#[trigger] trees@[q], d as nat),
            raw@.len() == d,
            forall|q: int| 0 <= q < d ==> (#[trigger] raw@[q]) as int == raw_imp(
                trees@.take(k as int),
                q,
            ),
            forall|q: int| 0 <= q < d ==> (#[trigger] raw@[q]) >= 0,
            sum_i128(raw@) <= k * TREE_IMP_CAP,
    {
        let ghost snap = raw@;
        let ghost snap_sum = sum_i128(raw@);
        let tree = &trees[k];
        let imp = &tree.feature_importance;
        proof {
            assert(trees@.take(k as int + 1).drop_last() =~= trees@.take(k as int));
            assert(trees@.take(k as int + 1).last() == trees@[k as int]);
        }
        for j in 0..d
            invariant
                tcount == trees@.len() <= MAX_TREES,
                k < tcount,
                tree == &trees@[k as int],
                imp == &tree.feature_importance,
                tree_wf_for(trees@[k as int], d as nat),
                imp@.len() == d,
                raw@.len() == d == snap.len(),
                forall|q: int| 0 <= q < d ==> (#[trigger] snap[q]) >= 0,
                forall|q: int| j <= q < d ==> (#[trigger] raw@[q]) == snap[q],
                forall|q: int| 0 <= q < j ==> (#[trigger] raw@[q]) == snap[q] + imp@[q],
                forall|q: int| 0 <= q < d ==> (#[trigger] raw@[q]) >= 0,
                sum_i128(raw@) == snap_sum + sum_i128(imp@.take(j as int)),
                snap_sum == sum_i128(snap) <= k * TREE_IMP_CAP,
        {
            proof {
                lemma_sum_i128_entry_bound(imp@, j as int);
                lemma_sum_i128_entry_bound(raw@, j as int);
                lemma_sum_i128_nonneg(raw@);
                crate::arith::lemma_sum_i128_take_le(imp@, j as int);
                lemma_sum_i128_take_step(imp@, j as int);
                assert(k * TREE_IMP_CAP + TREE_IMP_CAP == (k + 1) * TREE_IMP_CAP
                    && (k + 1) * TREE_IMP_CAP <= (MAX_TREES as int) * TREE_IMP_CAP)
                    by (nonlinear_arith)
                    requires
                        0 <= k && k + 1 <= MAX_TREES,
                ;
            }
            let cur = raw[j];
            let add = imp[j];
            let ghost before = raw@;
            raw[j] = cur + add;
            proof {
                lemma_sum_i128_update(before, j as int, (cur + add) as i128);
            }
        }
        proof {
            assert(imp@.take(d as int) =~= imp@);
            assert(k * TREE_IMP_CAP + TREE_IMP_CAP == (k + 1) * TREE_IMP_CAP)
                by (nonlinear_arith);
        }
    }
    proof {
        assert(trees@.take(tcount as int) =~= trees@);
    }
    raw
}

/// A fitted tree's importance total is within the forest's per-tree cap.
proof fn lemma_budget_within_cap(n: int)
    requires
        0 <= n <= MAX_SAMPLES,
    ensures
        importance_budget(n / 2) <= TREE_IMP_CAP,
        importance_budget(n / 2) >= 0,
{
    assert((2 * (n / 2) - 1) * GAIN_MAX <= 16_777_216 * GAIN_MAX && (n / 2) > 0 ==> (2 * (n / 2)
        - 1) * GAIN_MAX >= 0) by (nonlinear_arith)
        requires
            0 <= n / 2 <= 8_388_608 && GAIN_MAX > 0,
    ;
}

impl CausalForest {
    /// A forest with the given hyperparameters and no fitted state.  A
    /// forest with `n_estimators == 0` is degenerate but legal: once fitted
    /// it predicts zero for every row.
    pub fn new(n_estimators: usize, max_depth: usize, min_leaf_size: usize) -> (f: Self)
        ensures
            f.n_estimators == n_estimators,
            f.max_depth == max_depth,
            f.min_leaf_size == min_leaf_size,
            f.trees@.len() == 0,
            f.n_features == 0,
            !f.fitted,
            f.seed == 0,
            forest_wf(f),
    {
        CausalForest {
            n_estimators,
            max_depth,
            min_leaf_size,
            trees: Vec::new(),
            n_features: 0,
            fitted: false,
            seed: 0,
        }
    }

    /// Validate the inputs eagerly, then build `n_estimators` trees in
    /// parallel, each from its own generator derived from the master seed.
    ///
    /// On any validation error nothing is built and the forest is left
    /// exactly as it was; on success the forest holds the new trees, the
    /// feature count, and the fitted flag.
    pub fn fit(&mut self, x: &Vec<Vec<Num>>, t: &Vec<Num>, y: &Vec<Num>) -> (r: Result<
        (),
        CausalFlowError,
    >)
        requires
            forest_wf(*old(self)),
            old(self).n_estimators <= MAX_TREES,
            old(self).min_leaf_size >= 1,
            x@.len() <= MAX_SAMPLES,
            t@.len() == x@.len(),
            y@.len() == x@.len(),
            forall|i: int| 0 <= i < x@.len() ==> (#[trigger] x@[i])@.len() == x@[0]@.len(),
        ensures
            forest_wf(*final(self)),
            match r {
                Result::Err(e) => spec_validate(x@, t@, y@) == Some(e) && *final(self) == *old(
                    self,
                ),
                Result::Ok(u) => {
                    &&& spec_validate(x@, t@, y@) is None
                    &&& final(self).fitted
                    &&& final(self).n_estimators == old(self).n_estimators
                    &&& final(self).max_depth == old(self).max_depth
                    &&& final(self).min_leaf_size == old(self).min_leaf_size
                    &&& final(self).seed == old(self).seed
                    &&& final(self).n_features == x@[0]@.len()
                    &&& final(self).trees@.len() == old(self).n_estimators
                    &&& forall|k: int|
                        0 <= k < final(self).trees@.len() ==> tree_fit_post(
                            #[trigger] final(self).trees@[k],
                            mants_mat(x@),
                            treat_flags(t@),
                            mants_of(y@),
                            old(self).max_depth as nat,
                            old(self).min_leaf_size as nat,
                        )
                },
            },
    {
        match validate_inputs(x, t, y) {
            Option::Some(e) => {
                return Err(e);
            },
            Option::None => {},
        }
        let n = x.len();
        let d = x[0].len();
        let mut xm: Vec<Vec<i64>> = Vec::new();
        for i in 0..n
            invariant
                n == x@.len(),
                mat_valid(x@),
                xm@.len() == i,
                forall|q: int| 0 <= q < i ==> (#[trigger] xm@[q])@ == mants_of(x@[q]@),
        {
            let row = &x[i];
            let m = row.len();
            let mut mrow: Vec<i64> = Vec::new();
            for j in 0..m
                invariant
                    i < n == x@.len(),
                    m == row@.len(),
                    row == &x@[i as int],
                    mrow@.len() == j,
                    forall|q: int| 0 <= q < j ==> (#[trigger] mrow@[q]) == row@[q].spec_mantissa(),
            {
                mrow.push(row[j].mantissa());
            }
            proof {
                assert(mrow@ =~= mants_of(x@[i as int]@));
            }
            xm.push(mrow);
        }
        let tn = t.len();
        let mut tb: Vec<bool> = Vec::new();
        for i in 0..tn
            invariant
                tn == t@.len(),
                tb@.len() == i,
                forall|q: int|
                    0 <= q < i ==> (#[trigger] tb@[q]) == (t@[q].spec_mantissa() > HALF_SCALE),
        {
            tb.push(t[i].mantissa() > HALF_SCALE);
        }
        let mut ym: Vec<i64> = Vec::new();
        for i in 0..tn
            invariant
                tn == y@.len(),
                all_valid(y@),
                ym@.len() == i,
                forall|q: int| 0 <= q < i ==> (#[trigger] ym@[q]) == y@[q].spec_mantissa(),
        {
            ym.push(y[i].mantissa());
        }
        proof {
            assert(xm.deep_view() =~~= mants_mat(x@));
            assert(tb@ =~= treat_flags(t@));
            assert(ym@ =~= mants_of(y@));
            assert forall|i: int| 0 <= i < ym@.len() implies -MAX_ABS <= #[trigger] ym@[i]
                <= MAX_ABS by {
                assert(y@[i].spec_is_valid());
            }
            assert(data_wf(xm.deep_view(), tb@, ym@));
        }
        let n_est = self.n_estimators;
        let mut mrng = rng_from_seed(self.seed);
        let mut seeds: Vec<u64> = Vec::new();
        for k in 0..n_est
            invariant
                seeds@.len() == k,
        {
            seeds.push(rng_next_seed(&mut mrng));
        }
        let trees = build_trees_parallel(
            &xm,
            &tb,
            &ym,
            self.max_depth,
            self.min_leaf_size,
            d,
            &seeds,
        );
        self.trees = trees;
        self.n_features = d;
        self.fitted = true;
        proof {
            assert forall|k: int| 0 <= k < self.trees@.len() implies tree_wf_for(
                #[trigger] self.trees@[k],
                self.n_features as nat,
            ) by {
                assert(tree_fit_post(
                    self.trees@[k],
                    xm.deep_view(),
                    tb@,
                    ym@,
                    self.max_depth as nat,
                    self.min_leaf_size as nat,
                ));
                lemma_budget_within_cap(xm.deep_view().len() as int);
            }
        }
        Ok(())
    }

    /// Predict a treatment effect for every query row by averaging the
    /// trees' leaf effects, and aggregate the diagnostics: the mean effect,
    /// the placeholder confidence interval per prediction, and the
    /// normalized feature importance.
    ///
    /// An unfitted forest reports `ModelNotFitted` before anything else; a
    /// query value outside the representable domain reports `InvalidData`;
    /// a query row too short for some split reports that split's
    /// `FeatureOutOfBounds`.  A fitted forest with no trees predicts zero
    /// for every row.
    pub fn predict(&self, x: &Vec<Vec<Num>>) -> (r: Result<InferenceResult, CausalFlowError>)
        requires
            forest_wf(*self),
        ensures
            predict_post(*self, x@, r),
    {
        if !self.fitted {
            return Err(CausalFlowError::ModelNotFitted);
        }
        let n = x.len();
        for i in 0..n
            invariant
                self.fitted,
                n == x@.len(),
                forall|q: int| 0 <= q < i ==> all_valid((#[trigger] x@[q])@),
        {
            let row = &x[i];
            let m = row.len();
            for j in 0..m
                invariant
                    self.fitted,
                    i < n == x@.len(),
                    m == row@.len(),
                    row == &x@[i as int],
                    forall|q: int| 0 <= q < j ==> (#[trigger] row@[q]).spec_is_valid(),
            {
                if !row[j].is_valid() {
                    proof {
                        assert(!all_valid(x@[i as int]@));
                    }
                    return Err(CausalFlowError::InvalidData);
                }
            }
        }
        let xm = to_mantissa_matrix(x);
        let ghost rows = mants_mat(x@);
        let d = self.n_features;
        let sums = match accumulate_sums(&self.trees, &xm, d) {
            Result::Ok(v) => v,
            Result::Err(e) => {
                proof {
                    if spec_forest_sums(self.trees@, rows) is Ok {
                        assert(false);
                    }
                }
                return Err(e);
            },
        };
        proof {
            if spec_forest_sums(self.trees@, rows) is Err {
                assert(false);
            }
        }
        let tcount = self.trees.len();
        let mut preds: Vec<i64> = Vec::new();
        for i in 0..n
            invariant
                n == x@.len() == sums@.len(),
                tcount == self.trees@.len() <= MAX_TREES,
                forall|q: int|
                    0 <= q < n ==> -((tcount * 2 * MAX_ABS) as int) <= #[trigger] sums@[q] <= (
                    tcount * 2 * MAX_ABS) as int,
                preds@.len() == i,
                forall|q: int|
                    0 <= q < i ==> (#[trigger] preds@[q]) as int == (if tcount > 0 {
                        tdiv(sums@[q] as int, tcount as int)
                    } else {
                        0
                    }),
                forall|q: int|
                    0 <= q < i ==> -2 * MAX_ABS <= #[trigger] preds@[q] <= 2 * MAX_ABS,
        {
            let p: i64 = if tcount > 0 {
                proof {
                    assert((tcount * 2 * MAX_ABS) as int == (tcount as int) * (2 * MAX_ABS))
                        by (nonlinear_arith);
                    lemma_tdiv_bound(sums@[i as int] as int, tcount as int, 2 * MAX_ABS);
                }
                (sums[i] / (tcount as i128)) as i64
            } else {
                0
            };
            preds.push(p);
        }
        let mut msum: i128 = 0;
        for i in 0..n
            invariant
                n == x@.len() == preds@.len(),
                forall|q: int|
                    0 <= q < n ==> -2 * MAX_ABS <= #[trigger] preds@[q] <= 2 * MAX_ABS,
                msum == sum_i64(preds@.take(i as int)),
                -((i * 2 * MAX_ABS) as int) <= msum <= (i * 2 * MAX_ABS) as int,
        {
            proof {
                lemma_sum_i64_take_step(preds@, i as int);
                assert((i * 2 * MAX_ABS) as int + 2 * MAX_ABS == ((i + 1) * 2 * MAX_ABS) as int)
                    by (nonlinear_arith)
                    requires
                        0 <= i,
                ;
            }
            msum = msum + preds[i] as i128;
        }
        proof {
            assert(preds@.take(n as int) =~= preds@);
        }
        let mean: i64 = if n > 0 {
            proof {
                assert((n * 2 * MAX_ABS) as int == (n as int) * (2 * MAX_ABS))
                    by (nonlinear_arith);
                lemma_tdiv_bound(msum as int, n as int, 2 * MAX_ABS);
            }
            (msum / (n as i128)) as i64
        } else {
            0
        };
        let mut cis: Vec<(i64, i64)> = Vec::new();
        for i in 0..n
            invariant
                n == preds@.len(),
                forall|q: int|
                    0 <= q < n ==> -2 * MAX_ABS <= #[trigger] preds@[q] <= 2 * MAX_ABS,
                cis@.len() == i,
                forall|q: int|
                    0 <= q < i ==> (#[trigger] cis@[q]).0 == preds@[q] - CI_HALF_WIDTH
                        && cis@[q].1 == preds@[q] + CI_HALF_WIDTH,
        {
            cis.push((preds[i] - CI_HALF_WIDTH, preds[i] + CI_HALF_WIDTH));
        }
        let raw = aggregate_importance(&self.trees, d);
        let mut total: i128 = 0;
        for j in 0..d
            invariant
                raw@.len() == d,
                forall|q: int| 0 <= q < d ==> (#[trigger] raw@[q]) as int == raw_imp(
                    self.trees@,
                    q,
                ),
                forall|q: int| 0 <= q < d ==> (#[trigger] raw@[q]) >= 0,
                sum_i128(raw@) <= self.trees@.len() * TREE_IMP_CAP,
                self.trees@.len() <= MAX_TREES,
                total == sum_i128(raw@.take(j as int)),
                total == raw_total(self.trees@, j as int),
                total >= 0,
        {
            proof {
                lemma_sum_i128_take_step(raw@, j as int);
                crate::arith::lemma_sum_i128_take_le(raw@, j as int + 1);
                assert(self.trees@.len() * TREE_IMP_CAP <= (MAX_TREES as int) * TREE_IMP_CAP)
                    by (nonlinear_arith)
                    requires
                        0 <= self.trees@.len() <= MAX_TREES && TREE_IMP_CAP > 0,
                ;
            }
            total = total + raw[j];
        }
        proof {
            assert(raw@.take(d as int) =~= raw@);
        }
        let mut fi: Vec<i64> = Vec::new();
        if total > 0 {
            for j in 0..d
                invariant
                    raw@.len() == d,
                    forall|q: int| 0 <= q < d ==> (#[trigger] raw@[q]) as int == raw_imp(
                        self.trees@,
                        q,
                    ),
                    forall|q: int| 0 <= q < d ==> (#[trigger] raw@[q]) >= 0,
                    self.trees@.len() <= MAX_TREES,
                    sum_i128(raw@) <= self.trees@.len() * TREE_IMP_CAP,
                    total == sum_i128(raw@),
                    total == raw_total(self.trees@, d as int),
                    total > 0,
                    fi@.len() == j,
                    forall|q: int|
                        0 <= q < j ==> (#[trigger] fi@[q]) as int == tdiv(
                            raw_imp(self.trees@, q) * SCALE,
                            raw_total(self.trees@, d as int),
                        ),
            {
                proof {
                    lemma_sum_i128_entry_bound(raw@, j as int);
                    assert(self.trees@.len() * TREE_IMP_CAP <= (MAX_TREES as int) * TREE_IMP_CAP)
                        by (nonlinear_arith)
                        requires
                            0 <= self.trees@.len() <= MAX_TREES && TREE_IMP_CAP > 0,
                    ;
                    assert(0 <= (raw@[j as int] as int) * (SCALE as int) && (raw@[j as int] as int)
                        * (SCALE as int) <= (total as int) * (SCALE as int) && (total as int) * (
                    SCALE as int) <= (MAX_TREES as int) * TREE_IMP_CAP * (SCALE as int))
                        by (nonlinear_arith)
                        requires
                            0 <= raw@[j as int] as int <= total as int && total as int <= (
                            MAX_TREES as int) * TREE_IMP_CAP && SCALE > 0,
                    ;
                    lemma_tdiv_ordered(
                        (raw@[j as int] as int) * (SCALE as int),
                        (total as int) * (SCALE as int),
                        total as int,
                    );
                    lemma_tdiv_exact(SCALE as int, total as int);
                    assert((SCALE as int) * (total as int) == (total as int) * (SCALE as int))
                        by (nonlinear_arith);
                    lemma_tdiv_nonneg((raw@[j as int] as int) * (SCALE as int), total as int);
                }
                let v = ((raw[j] * (SCALE as i128)) / total) as i64;
                fi.push(v);
            }
        } else {
            for j in 0..d
                invariant
                    fi@.len() == j,
                    forall|q: int| 0 <= q < j ==> (#[trigger] fi@[q]) == 0,
            {
                fi.push(0);
            }
        }
        proof {
            assert forall|j: int| 0 <= j < d implies (#[trigger] fi@[j]) as int == norm_importance(
                self.trees@,
                d as nat,
            )[j] by {};
        }
        Ok(
            InferenceResult {
                predictions: preds,
                mean_effect: mean,
                confidence_intervals: cis,
                feature_importance: fi,
            },
        )
    }
}

} // verus!
