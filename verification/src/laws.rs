//! The laws of the estimator: properties that hold of every fit and every
//! prediction, stated over the public contracts and proved once and for all.

use vstd::prelude::*;
use crate::arith::{
    lemma_sum_i64_constant, lemma_sum_i64_matches, lemma_sum_ints_take_step,
    lemma_tdiv_by_one, lemma_tdiv_exact, lemma_tdiv_fundamental_nonneg, lemma_tdiv_zero, sum_i64,
    sum_ints, tdiv,
};
use crate::errors::CausalFlowError;
use crate::forest::{
    forest_wf, mants_mat, mants_of, mat_valid, norm_importance, predict_post, raw_imp, raw_total,
    spec_forest_sums, tree_pred, tree_wf_for, CausalForest, InferenceResult,
};
use crate::num::{Num, SCALE};
use crate::effect::idx_wf;
use crate::tree::{
    leaf_sizes_sum, lemma_built_leaf_sizes, lemma_permuted_bounded,
    lemma_tree_rows_constant_outcome, lemma_tree_rows_ok, node_built_from, node_effects_from,
    perm_of, spec_tree_rows, tree_fit_post, CausalTree, Node,
};

verus! {

/// The two results say the same thing: equal errors, or equal values in
/// every field.
pub open spec fn results_agree(
    r1: Result<InferenceResult, CausalFlowError>,
    r2: Result<InferenceResult, CausalFlowError>,
) -> bool {
    match (r1, r2) {
        (Result::Ok(a), Result::Ok(b)) => {
            &&& a.predictions@ == b.predictions@
            &&& a.mean_effect == b.mean_effect
            &&& a.confidence_intervals@ == b.confidence_intervals@
            &&& a.feature_importance@ == b.feature_importance@
        },
        (Result::Err(e1), Result::Err(e2)) => e1 == e2,
        _ => false,
    }
}

/// Law: `predict` is deterministic and idempotent.  Its contract pins the
/// result completely, so any two calls on the same fitted forest and the
/// same input agree in every field.
pub proof fn lemma_predict_deterministic(
    f: CausalForest,
    x: Seq<Vec<Num>>,
    r1: Result<InferenceResult, CausalFlowError>,
    r2: Result<InferenceResult, CausalFlowError>,
)
    requires
        predict_post(f, x, r1),
        predict_post(f, x, r2),
    ensures
        results_agree(r1, r2),
{
    if f.fitted && mat_valid(x) {
        let rows = mants_mat(x);
        match spec_forest_sums(f.trees@, rows) {
            Result::Ok(ss) => {
                let a = r1->Ok_0;
                let b = r2->Ok_0;
                assert forall|i: int| 0 <= i < x.len() implies #[trigger] a.predictions@[i]
                    == b.predictions@[i] by {}
                assert(a.predictions@ =~= b.predictions@);
                assert forall|i: int| 0 <= i < x.len() implies #[trigger] a.confidence_intervals@[i]
                    == b.confidence_intervals@[i] by {
                    assert(a.confidence_intervals@[i].0 == b.confidence_intervals@[i].0);
                    assert(a.confidence_intervals@[i].1 == b.confidence_intervals@[i].1);
                }
                assert(a.confidence_intervals@ =~= b.confidence_intervals@);
                assert forall|j: int| 0 <= j < f.n_features implies #[trigger] a
                    .feature_importance@[j] == b.feature_importance@[j] by {}
                assert(a.feature_importance@ =~= b.feature_importance@);
            },
            Result::Err(e) => {},
        }
    }
}

/// Accumulated gain totals over well-formed trees are non-negative.
proof fn lemma_raw_total_nonneg(trees: Seq<CausalTree>, d: nat, m: int)
    requires
        forall|k: int| 0 <= k < trees.len() ==> tree_wf_for(#[trigger] trees[k], d),
        0 <= m <= d,
    ensures
        raw_total(trees, m) >= 0,
    decreases m,
{
    if m > 0 {
        lemma_raw_total_nonneg(trees, d, m - 1);
        crate::forest::lemma_raw_imp_nonneg(trees, d, m - 1);
    }
}

/// Prefix bounds for the normalization sum: with `T` the grand total and
/// `S` the scale, the first `m` normalized entries sum to at most
/// `S * raw_total(m) / T` and lose less than one unit of `T` per entry.
proof fn lemma_norm_prefix(trees: Seq<CausalTree>, d: nat, m: int)
    requires
        forall|k: int| 0 <= k < trees.len() ==> tree_wf_for(#[trigger] trees[k], d),
        0 <= m <= d,
        raw_total(trees, d as int) > 0,
    ensures
        (SCALE as int) * raw_total(trees, m) - m * (raw_total(trees, d as int) - 1)
            <= raw_total(trees, d as int) * sum_ints(norm_importance(trees, d).take(m)),
        raw_total(trees, d as int) * sum_ints(norm_importance(trees, d).take(m))
            <= (SCALE as int) * raw_total(trees, m),
    decreases m,
{
    let t_total = raw_total(trees, d as int);
    let norm = norm_importance(trees, d);
    if m == 0 {
        assert(norm.take(0) =~= Seq::<int>::empty());
        assert(t_total * 0 == 0) by (nonlinear_arith);
    } else {
        lemma_norm_prefix(trees, d, m - 1);
        crate::forest::lemma_raw_imp_nonneg(trees, d, m - 1);
        let rj = raw_imp(trees, m - 1);
        let a = rj * (SCALE as int);
        assert(a == 1_000_000 * rj);
        lemma_tdiv_fundamental_nonneg(a, t_total);
        let q = tdiv(a, t_total);
        assert(norm[m - 1] == q);
        lemma_sum_ints_take_step(norm, m - 1);
        let prev = sum_ints(norm.take(m - 1));
        assert(sum_ints(norm.take(m)) == prev + q);
        assert(t_total * (prev + q) == t_total * prev + t_total * q) by (nonlinear_arith);
        assert(t_total * q == a - a % t_total) by {
            assert(a == t_total * q + a % t_total);
        }
        assert(raw_total(trees, m) == raw_total(trees, m - 1) + rj);
        assert((SCALE as int) * raw_total(trees, m) == (SCALE as int) * raw_total(trees, m - 1)
            + a);
        assert((m - 1) * (t_total - 1) + (t_total - 1) == m * (t_total - 1))
            by (nonlinear_arith);
    }
}

/// Law: the normalized feature importance sums to `1.0` within one part in
/// [`SCALE`] per feature whenever any split in the ensemble accumulated
/// positive gain, and is all zero when none did.
pub proof fn lemma_importance_normalized(trees: Seq<CausalTree>, d: nat)
    requires
        forall|k: int| 0 <= k < trees.len() ==> tree_wf_for(#[trigger] trees[k], d),
    ensures
        raw_total(trees, d as int) >= 0,
        raw_total(trees, d as int) > 0 ==> SCALE - d <= sum_ints(norm_importance(trees, d))
            <= SCALE,
        raw_total(trees, d as int) == 0 ==> forall|j: int|
            0 <= j < d ==> norm_importance(trees, d)[j] == 0,
{
    lemma_raw_total_nonneg(trees, d, d as int);
    let t_total = raw_total(trees, d as int);
    if t_total > 0 {
        lemma_norm_prefix(trees, d, d as int);
        let norm = norm_importance(trees, d);
        assert(norm.take(d as int) =~= norm);
        let s = sum_ints(norm);
        assert(s <= SCALE) by (nonlinear_arith)
            requires
                t_total * s <= (SCALE as int) * t_total && t_total > 0,
        ;
        assert(s >= SCALE - d) by (nonlinear_arith)
            requires
                t_total * s >= (SCALE as int) * t_total - (d as int) * (t_total - 1) && t_total
                    > 0 && d >= 0,
        ;
    }
}

/// Law, at the result level: the `feature_importance` field of a successful
/// prediction sums to `1.0` within one part in [`SCALE`] per feature when
/// any split accumulated positive gain, and is all zero when none did.
pub proof fn lemma_result_importance_sum(f: CausalForest, x: Seq<Vec<Num>>, res: InferenceResult)
    requires
        forest_wf(f),
        f.fitted,
        mat_valid(x),
        predict_post(f, x, Result::<InferenceResult, CausalFlowError>::Ok(res)),
    ensures
        raw_total(f.trees@, f.n_features as int) > 0 ==> SCALE - f.n_features <= sum_i64(
            res.feature_importance@,
        ) <= SCALE,
        raw_total(f.trees@, f.n_features as int) == 0 ==> forall|j: int|
            0 <= j < f.n_features ==> res.feature_importance@[j] == 0,
{
    let rows = mants_mat(x);
    if spec_forest_sums(f.trees@, rows) is Err {
        assert(false);
    }
    let d = f.n_features as nat;
    lemma_importance_normalized(f.trees@, d);
    lemma_sum_i64_matches(res.feature_importance@, norm_importance(f.trees@, d));
}

/// A single leaf answers every row with its stored effect.
proof fn lemma_leaf_rows(e: i64, sz: usize, rows: Seq<Seq<i64>>)
    ensures
        spec_tree_rows(Node::Leaf { treatment_effect: e, size: sz }, rows) matches Ok(ps)
            && ps.len() == rows.len() && forall|i: int| 0 <= i < ps.len() ==> #[trigger] ps[i]
            == e,
    decreases rows.len(),
{
    if rows.len() > 0 {
        lemma_leaf_rows(e, sz, rows.drop_last());
    }
}

/// Law: a fitted forest of one tree whose root is a single leaf — as every
/// tree is when `max_depth` is zero — predicts that leaf's effect for every
/// query row, and the mean effect equals it exactly.
pub proof fn lemma_single_leaf_forest(
    f: CausalForest,
    x: Seq<Vec<Num>>,
    res: InferenceResult,
    e: i64,
    sz: usize,
)
    requires
        forest_wf(f),
        f.fitted,
        mat_valid(x),
        f.trees@.len() == 1,
        f.trees@[0].root matches Some(r) && *r == (Node::Leaf { treatment_effect: e, size: sz }),
        predict_post(f, x, Result::<InferenceResult, CausalFlowError>::Ok(res)),
    ensures
        res.predictions@.len() == x.len(),
        forall|i: int| 0 <= i < x.len() ==> #[trigger] res.predictions@[i] == e,
        x.len() > 0 ==> res.mean_effect == e,
{
    let rows = mants_mat(x);
    let trees = f.trees@;
    assert(trees.drop_last() =~= Seq::<CausalTree>::empty());
    lemma_leaf_rows(e, sz, rows);
    assert(trees.last() == trees[0]);
    let rt = trees[0].root->0;
    assert(*rt == (Node::Leaf { treatment_effect: e, size: sz }));
    let ps = spec_tree_rows(Node::Leaf { treatment_effect: e, size: sz }, rows)->Ok_0;
    assert(tree_pred(trees.last(), rows) == Result::<Seq<i64>, CausalFlowError>::Ok(ps));
    let base = spec_forest_sums(trees.drop_last(), rows);
    assert(base is Ok);
    let s0 = base->Ok_0;
    assert(s0 =~= Seq::new(rows.len(), |i: int| 0int));
    assert(spec_forest_sums(trees, rows) is Ok);
    let ss = spec_forest_sums(trees, rows)->Ok_0;
    assert(ss == Seq::new(rows.len(), |i: int| s0[i] + ps[i]));
    assert forall|i: int| 0 <= i < ss.len() implies #[trigger] ss[i] == e as int by {
        assert(s0[i] == 0);
        assert(ps[i] == e);
    }
    assert forall|i: int| 0 <= i < x.len() implies #[trigger] res.predictions@[i] == e by {
        lemma_tdiv_by_one(ss[i]);
    }
    if x.len() > 0 {
        lemma_sum_i64_constant(res.predictions@, e);
        lemma_tdiv_exact(e as int, x.len() as int);
        assert(res.predictions@.len() * (e as int) == (e as int) * (x.len() as int))
            by (nonlinear_arith)
            requires
                res.predictions@.len() == x.len(),
        ;
    }
}

/// Trees whose leaves all arise from a constant outcome vector contribute
/// nothing to any row sum.
proof fn lemma_forest_sums_zero(
    trees: Seq<CausalTree>,
    rows: Seq<Seq<i64>>,
    tb: Seq<bool>,
    ym: Seq<i64>,
    d: nat,
    c: i64,
)
    requires
        forall|k: int| 0 <= k < trees.len() ==> tree_wf_for(#[trigger] trees[k], d),
        forall|k: int|
            0 <= k < trees.len() ==> ((#[trigger] trees[k]).root matches Some(r)
                && node_effects_from(*r, tb, ym, ym.len() as nat)),
        tb.len() == ym.len(),
        forall|i: int| 0 <= i < ym.len() ==> #[trigger] ym[i] == c,
    ensures
        spec_forest_sums(trees, rows) matches Ok(ss) ==> (ss.len() == rows.len() && forall|i: int|
            0 <= i < ss.len() ==> #[trigger] ss[i] == 0),
    decreases trees.len(),
{
    if trees.len() > 0 {
        assert(forall|k: int|
            0 <= k < trees.drop_last().len() ==> #[trigger] trees.drop_last()[k] == trees[k]);
        lemma_forest_sums_zero(trees.drop_last(), rows, tb, ym, d, c);
        let last = trees.last();
        assert(tree_wf_for(last, d));
        let root = last.root->0;
        lemma_tree_rows_constant_outcome(*root, tb, ym, ym.len() as nat, c, rows);
        lemma_tree_rows_ok(*root, d, rows);
    }
}

/// Law: when the training outcome does not depend on the sample at all,
/// every leaf effect of every fitted tree is zero, so every prediction and
/// the mean effect are exactly zero, whatever the hyperparameters and the
/// random draws were.
pub proof fn lemma_constant_outcome_forest(
    f: CausalForest,
    xt: Seq<Vec<Num>>,
    t: Seq<Num>,
    y: Seq<Num>,
    x: Seq<Vec<Num>>,
    res: InferenceResult,
    c: i64,
)
    requires
        forest_wf(f),
        f.fitted,
        mat_valid(x),
        t.len() == y.len(),
        y.len() == xt.len(),
        forall|k: int|
            0 <= k < f.trees@.len() ==> tree_fit_post(
                #[trigger] f.trees@[k],
                mants_mat(xt),
                crate::forest::treat_flags(t),
                mants_of(y),
                f.max_depth as nat,
                f.min_leaf_size as nat,
            ),
        forall|i: int| 0 <= i < y.len() ==> (#[trigger] y[i]).spec_mantissa() == c,
        predict_post(f, x, Result::<InferenceResult, CausalFlowError>::Ok(res)),
    ensures
        res.predictions@.len() == x.len(),
        forall|i: int| 0 <= i < x.len() ==> #[trigger] res.predictions@[i] == 0,
        res.mean_effect == 0,
{
    let rows = mants_mat(x);
    let tb = crate::forest::treat_flags(t);
    let ym = mants_of(y);
    assert(forall|i: int| 0 <= i < ym.len() ==> #[trigger] ym[i] == c);
    lemma_forest_sums_zero(f.trees@, rows, tb, ym, f.n_features as nat, c);
    if spec_forest_sums(f.trees@, rows) is Err {
        assert(false);
    }
    let ss = spec_forest_sums(f.trees@, rows)->Ok_0;
    assert forall|i: int| 0 <= i < x.len() implies #[trigger] res.predictions@[i] == 0 by {
        if f.trees@.len() > 0 {
            lemma_tdiv_zero(f.trees@.len() as int);
        }
    }
    lemma_sum_i64_constant(res.predictions@, 0);
    if x.len() > 0 {
        assert(res.predictions@.len() * 0 == 0) by (nonlinear_arith);
        lemma_tdiv_zero(x.len() as int);
    }
}

/// When every tree's accumulator entry at `j` is zero, nothing accumulates.
proof fn lemma_raw_imp_all_zero(trees: Seq<CausalTree>, j: int)
    requires
        forall|k: int|
            0 <= k < trees.len() ==> (#[trigger] trees[k]).feature_importance@[j] == 0,
    ensures
        raw_imp(trees, j) == 0,
    decreases trees.len(),
{
    if trees.len() > 0 {
        assert(forall|k: int|
            0 <= k < trees.drop_last().len() ==> #[trigger] trees.drop_last()[k] == trees[k]);
        lemma_raw_imp_all_zero(trees.drop_last(), j);
    }
}

/// When every tree's accumulator is all zero, the grand total is zero.
proof fn lemma_raw_total_all_zero(trees: Seq<CausalTree>, m: int)
    requires
        forall|k: int, j: int|
            0 <= k < trees.len() && 0 <= j < m ==> (#[trigger] trees[k].feature_importance@[j])
                == 0,
    ensures
        raw_total(trees, m) == 0,
    decreases m,
{
    if m > 0 {
        lemma_raw_total_all_zero(trees, m - 1);
        assert(forall|k: int|
            0 <= k < trees.len() ==> (#[trigger] trees[k]).feature_importance@[m - 1] == 0);
        lemma_raw_imp_all_zero(trees, m - 1);
    }
}

/// Law: a forest whose every tree is a single leaf — as every tree is after
/// a fit with `max_depth == 0` — reports an all-zero feature importance
/// (never a division by the zero total), because a leaf-rooted tree keeps
/// its accumulator at zero.
pub proof fn lemma_all_leaf_forest_zero_importance(
    f: CausalForest,
    xt: Seq<Vec<Num>>,
    t: Seq<Num>,
    y: Seq<Num>,
    x: Seq<Vec<Num>>,
    res: InferenceResult,
)
    requires
        forest_wf(f),
        f.fitted,
        mat_valid(x),
        forall|k: int|
            0 <= k < f.trees@.len() ==> tree_fit_post(
                #[trigger] f.trees@[k],
                mants_mat(xt),
                crate::forest::treat_flags(t),
                mants_of(y),
                f.max_depth as nat,
                f.min_leaf_size as nat,
            ),
        forall|k: int|
            0 <= k < f.trees@.len() ==> ((#[trigger] f.trees@[k]).root matches Some(r)
                && *r matches Node::Leaf { .. }),
        predict_post(f, x, Result::<InferenceResult, CausalFlowError>::Ok(res)),
    ensures
        res.feature_importance@.len() == f.n_features,
        forall|j: int| 0 <= j < f.n_features ==> #[trigger] res.feature_importance@[j] == 0,
{
    let rows = mants_mat(x);
    if spec_forest_sums(f.trees@, rows) is Err {
        assert(false);
    }
    let d = f.n_features as int;
    assert forall|k: int, j: int| 0 <= k < f.trees@.len() && 0 <= j < d implies (
    #[trigger] f.trees@[k].feature_importance@[j]) == 0 by {
        assert(tree_wf_for(f.trees@[k], f.n_features as nat));
        assert(f.trees@[k].feature_importance@.len() == d);
        assert(f.trees@[k].feature_importance@.len() == crate::tree::nfeat(mants_mat(xt)));
    }
    lemma_raw_total_all_zero(f.trees@, d);
}

/// Law: the leaves of a fitted tree partition its estimation half — their
/// sizes sum to `n - n/2`, the number of samples held out for estimation.
pub proof fn lemma_leaf_sizes_partition_estimation(
    tree: CausalTree,
    x: Seq<Seq<i64>>,
    t: Seq<bool>,
    y: Seq<i64>,
    max_depth: nat,
    min_leaf: nat,
)
    requires
        tree_fit_post(tree, x, t, y, max_depth, min_leaf),
    ensures
        tree.root matches Some(r) ==> leaf_sizes_sum(*r) == x.len() - x.len() / 2,
{
    let root = tree.root->0;
    let n = x.len();
    let p = choose|p: Seq<usize>|
        perm_of(p, n) && node_built_from(
            *root,
            x,
            t,
            y,
            p.take((n / 2) as int),
            p.skip((n / 2) as int),
            max_depth,
            min_leaf,
        );
    let ids = Seq::new(n, |i: int| i as usize);
    assert(forall|j: int| 0 <= j < ids.len() ==> (#[trigger] ids[j]) < n);
    lemma_permuted_bounded(p, ids, n);
    let est = p.skip((n / 2) as int);
    assert(forall|q: int| 0 <= q < est.len() ==> (#[trigger] est[q]) < n);
    assert(idx_wf(est, n));
    lemma_built_leaf_sizes(
        *root,
        x,
        t,
        y,
        p.take((n / 2) as int),
        est,
        max_depth,
        min_leaf,
        n,
    );
}

/// Every well-formed tree answers rows that are long enough.
proof fn lemma_forest_sums_ok(trees: Seq<CausalTree>, rows: Seq<Seq<i64>>, d: nat)
    requires
        forall|k: int| 0 <= k < trees.len() ==> tree_wf_for(#[trigger] trees[k], d),
        forall|i: int| 0 <= i < rows.len() ==> (#[trigger] rows[i]).len() >= d,
    ensures
        spec_forest_sums(trees, rows) is Ok,
    decreases trees.len(),
{
    if trees.len() > 0 {
        assert(forall|k: int|
            0 <= k < trees.drop_last().len() ==> #[trigger] trees.drop_last()[k] == trees[k]);
        lemma_forest_sums_ok(trees.drop_last(), rows, d);
        let last = trees.last();
        assert(tree_wf_for(last, d));
        let root = last.root->0;
        lemma_tree_rows_ok(*root, d, rows);
    }
}

/// Law: a fitted forest owes an answer to every compatible query — rows of
/// at least `n_features` valid values — and the answer holds one prediction
/// per row.
pub proof fn lemma_predict_ok_on_full_rows(
    f: CausalForest,
    x: Seq<Vec<Num>>,
    r: Result<InferenceResult, CausalFlowError>,
)
    requires
        forest_wf(f),
        f.fitted,
        mat_valid(x),
        forall|i: int| 0 <= i < x.len() ==> (#[trigger] x[i])@.len() >= f.n_features,
        predict_post(f, x, r),
    ensures
        r is Ok,
        r matches Ok(res) ==> res.predictions@.len() == x.len(),
{
    let rows = mants_mat(x);
    assert(forall|i: int| 0 <= i < rows.len() ==> (#[trigger] rows[i]).len() >= f.n_features);
    lemma_forest_sums_ok(f.trees@, rows, f.n_features as nat);
}

} // verus!
