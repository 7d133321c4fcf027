//! The difference-in-means effect estimator and the causal gain score.
//!
//! Both work over a set of sample indices into the treatment and outcome
//! vectors: the estimator splits the indexed samples into the treated arm
//! (`t[i]` true) and the control arm, and returns the difference of the two
//! arm means; the gain scores a candidate split by how different the effects
//! of its two sides are, weighted to favor balanced splits.

use vstd::prelude::*;
use crate::arith::{
    lemma_tdiv_bound, lemma_tdiv_exact, lemma_tdiv_nonneg, lemma_tdiv_ordered, tdiv,
};
use crate::num::{MAX_ABS, SCALE};

verus! {

/// Largest value the causal gain can take: `16 * MAX_ABS * MAX_ABS / SCALE`,
/// reached when both side effects are extreme and the split is balanced.
pub const GAIN_MAX: i128 = 16_000_000_000_000_000_000;

/// Most samples one training set may hold; keeps every intermediate product
/// of the fixed-point gain and importance arithmetic inside `i128`.
pub const MAX_SAMPLES: usize = 16_777_216;

/// A rectangular mantissa matrix: `n` rows of length `d`.
pub open spec fn matrix_wf(x: Seq<Seq<i64>>, n: nat, d: nat) -> bool {
    &&& x.len() == n
    &&& forall|i: int| 0 <= i < n ==> (#[trigger] x[i]).len() == d
}

/// Outcome mantissas all within the accepted magnitude.
pub open spec fn outcomes_wf(y: Seq<i64>) -> bool {
    forall|i: int| 0 <= i < y.len() ==> -MAX_ABS <= #[trigger] y[i] <= MAX_ABS
}

/// Every index refers to one of `n` samples.
pub open spec fn idx_wf(idx: Seq<usize>, n: nat) -> bool {
    forall|k: int| 0 <= k < idx.len() ==> (#[trigger] idx[k]) < n
}

/// Number of indexed samples in the treated arm.
pub open spec fn treated_count(t: Seq<bool>, idx: Seq<usize>) -> int
    decreases idx.len(),
{
    if idx.len() == 0 {
        0
    } else {
        treated_count(t, idx.drop_last()) + if t[idx.last() as int] {
            1int
        } else {
            0int
        }
    }
}

/// Number of indexed samples in the control arm.
pub open spec fn control_count(t: Seq<bool>, idx: Seq<usize>) -> int
    decreases idx.len(),
{
    if idx.len() == 0 {
        0
    } else {
        control_count(t, idx.drop_last()) + if t[idx.last() as int] {
            0int
        } else {
            1int
        }
    }
}

/// Sum of outcomes over the indexed treated samples.
pub open spec fn treated_sum(t: Seq<bool>, y: Seq<i64>, idx: Seq<usize>) -> int
    decreases idx.len(),
{
    if idx.len() == 0 {
        0
    } else {
        treated_sum(t, y, idx.drop_last()) + if t[idx.last() as int] {
            y[idx.last() as int] as int
        } else {
            0int
        }
    }
}

/// Sum of outcomes over the indexed control samples.
pub open spec fn control_sum(t: Seq<bool>, y: Seq<i64>, idx: Seq<usize>) -> int
    decreases idx.len(),
{
    if idx.len() == 0 {
        0
    } else {
        control_sum(t, y, idx.drop_last()) + if t[idx.last() as int] {
            0int
        } else {
            y[idx.last() as int] as int
        }
    }
}

/// The difference-in-means effect over the indexed samples: mean outcome of
/// the treated arm minus mean outcome of the control arm, or zero when either
/// arm is empty.
pub open spec fn spec_effect(t: Seq<bool>, y: Seq<i64>, idx: Seq<usize>) -> int {
    let c1 = treated_count(t, idx);
    let c0 = control_count(t, idx);
    if c1 > 0 && c0 > 0 {
        tdiv(treated_sum(t, y, idx), c1) - tdiv(control_sum(t, y, idx), c0)
    } else {
        0
    }
}

/// Counts are non-negative, partition the index list, and each arm sum is
/// bounded by its count times the value bound.
pub proof fn lemma_arm_bounds(t: Seq<bool>, y: Seq<i64>, idx: Seq<usize>)
    requires
        t.len() == y.len(),
        outcomes_wf(y),
        idx_wf(idx, y.len() as nat),
    ensures
        treated_count(t, idx) >= 0,
        control_count(t, idx) >= 0,
        treated_count(t, idx) + control_count(t, idx) == idx.len(),
        -(treated_count(t, idx) * MAX_ABS) <= treated_sum(t, y, idx) <= treated_count(t, idx)
            * MAX_ABS,
        -(control_count(t, idx) * MAX_ABS) <= control_sum(t, y, idx) <= control_count(t, idx)
            * MAX_ABS,
    decreases idx.len(),
{
    if idx.len() > 0 {
        assert(idx_wf(idx.drop_last(), y.len() as nat));
        lemma_arm_bounds(t, y, idx.drop_last());
        let c1 = treated_count(t, idx.drop_last());
        let c0 = control_count(t, idx.drop_last());
        assert((c1 + 1) * MAX_ABS == c1 * MAX_ABS + MAX_ABS) by (nonlinear_arith);
        assert((c0 + 1) * MAX_ABS == c0 * MAX_ABS + MAX_ABS) by (nonlinear_arith);
    }
}

/// The effect estimate is bounded by twice the value bound.
pub proof fn lemma_effect_bound(t: Seq<bool>, y: Seq<i64>, idx: Seq<usize>)
    requires
        t.len() == y.len(),
        outcomes_wf(y),
        idx_wf(idx, y.len() as nat),
    ensures
        -2 * MAX_ABS <= spec_effect(t, y, idx) <= 2 * MAX_ABS,
{
    lemma_arm_bounds(t, y, idx);
    let c1 = treated_count(t, idx);
    let c0 = control_count(t, idx);
    if c1 > 0 && c0 > 0 {
        lemma_tdiv_bound(treated_sum(t, y, idx), c1, MAX_ABS as int);
        lemma_tdiv_bound(control_sum(t, y, idx), c0, MAX_ABS as int);
    }
}

/// When the outcome does not depend on the sample at all, the
/// difference-in-means effect is exactly zero over any index set: both arm
/// means equal the constant, so their difference vanishes.
pub proof fn lemma_constant_outcome_zero_effect(
    t: Seq<bool>,
    y: Seq<i64>,
    idx: Seq<usize>,
    c: i64,
)
    requires
        t.len() == y.len(),
        idx_wf(idx, y.len() as nat),
        forall|i: int| 0 <= i < y.len() ==> #[trigger] y[i] == c,
    ensures
        spec_effect(t, y, idx) == 0,
{
    lemma_constant_outcome_sums(t, y, idx, c);
    let c1 = treated_count(t, idx);
    let c0 = control_count(t, idx);
    if c1 > 0 && c0 > 0 {
        lemma_tdiv_exact(c as int, c1);
        lemma_tdiv_exact(c as int, c0);
    }
}

/// Under a constant outcome each arm sum is the constant times the arm count.
proof fn lemma_constant_outcome_sums(t: Seq<bool>, y: Seq<i64>, idx: Seq<usize>, c: i64)
    requires
        t.len() == y.len(),
        idx_wf(idx, y.len() as nat),
        forall|i: int| 0 <= i < y.len() ==> #[trigger] y[i] == c,
    ensures
        treated_sum(t, y, idx) == c * treated_count(t, idx),
        control_sum(t, y, idx) == c * control_count(t, idx),
    decreases idx.len(),
{
    if idx.len() == 0 {
    } else {
        assert(idx_wf(idx.drop_last(), y.len() as nat));
        lemma_constant_outcome_sums(t, y, idx.drop_last(), c);
        let c1 = treated_count(t, idx.drop_last());
        let c0 = control_count(t, idx.drop_last());
        assert(c * (c1 + 1) == c * c1 + c) by (nonlinear_arith);
        assert(c * (c0 + 1) == c * c0 + c) by (nonlinear_arith);
    }
}

/// Extending a prefix of the index list by one element.
pub proof fn lemma_idx_prefix_step(idx: Seq<usize>, k: int)
    requires
        0 <= k < idx.len(),
    ensures
        idx.take(k + 1).drop_last() == idx.take(k),
        idx.take(k + 1).last() == idx[k],
{
    assert(idx.take(k + 1).drop_last() =~= idx.take(k));
}

/// Difference-in-means over the indexed samples, computed exactly in
/// fixed-point arithmetic.
pub fn estimate_effect(t: &Vec<bool>, y: &Vec<i64>, idx: &Vec<usize>) -> (e: i64)
    requires
        t@.len() == y@.len(),
        outcomes_wf(y@),
        idx_wf(idx@, y@.len() as nat),
    ensures
        e as int == spec_effect(t@, y@, idx@),
        -2 * MAX_ABS <= e as int <= 2 * MAX_ABS,
{
    let mut y1_sum: i128 = 0;
    let mut y1_count: usize = 0;
    let mut y0_sum: i128 = 0;
    let mut y0_count: usize = 0;
    let n = idx.len();
    for k in 0..n
        invariant
            n == idx@.len(),
            t@.len() == y@.len(),
            outcomes_wf(y@),
            idx_wf(idx@, y@.len() as nat),
            y1_count == treated_count(t@, idx@.take(k as int)),
            y0_count == control_count(t@, idx@.take(k as int)),
            y1_sum == treated_sum(t@, y@, idx@.take(k as int)),
            y0_sum == control_sum(t@, y@, idx@.take(k as int)),
            y1_count + y0_count == k,
            -(y1_count * MAX_ABS) <= y1_sum <= y1_count * MAX_ABS,
            -(y0_count * MAX_ABS) <= y0_sum <= y0_count * MAX_ABS,
    {
        proof {
            lemma_idx_prefix_step(idx@, k as int);
        }
        let i = idx[k];
        let ghost c1 = y1_count as int;
        let ghost c0 = y0_count as int;
        if t[i] {
            proof {
                assert((c1 + 1) * MAX_ABS == c1 * MAX_ABS + MAX_ABS) by (nonlinear_arith);
            }
            y1_sum = y1_sum + y[i] as i128;
            y1_count = y1_count + 1;
        } else {
            proof {
                assert((c0 + 1) * MAX_ABS == c0 * MAX_ABS + MAX_ABS) by (nonlinear_arith);
            }
            y0_sum = y0_sum + y[i] as i128;
            y0_count = y0_count + 1;
        }
    }
    proof {
        assert(idx@.take(n as int) =~= idx@);
    }
    if y1_count > 0 && y0_count > 0 {
        proof {
            lemma_tdiv_bound(y1_sum as int, y1_count as int, MAX_ABS as int);
            lemma_tdiv_bound(y0_sum as int, y0_count as int, MAX_ABS as int);
        }
        let m1 = y1_sum / (y1_count as i128);
        let m0 = y0_sum / (y0_count as i128);
        (m1 - m0) as i64
    } else {
        0
    }
}

/// The causal gain of a candidate split with sides `l` and `r`:
/// `(n_l * n_r / n^2) * (effect_l - effect_r)^2` in fixed point, with `n`
/// the split-set size `n_l + n_r`.
pub open spec fn spec_gain(t: Seq<bool>, y: Seq<i64>, l: Seq<usize>, r: Seq<usize>) -> int {
    let dd = spec_effect(t, y, l) - spec_effect(t, y, r);
    let q = tdiv(dd * dd, SCALE as int);
    let n = l.len() + r.len();
    tdiv(l.len() * r.len() * q, (n * n) as int)
}

/// The causal gain of a candidate split, computed exactly in fixed-point
/// arithmetic.
pub fn calculate_causal_gain(t: &Vec<bool>, y: &Vec<i64>, left: &Vec<usize>, right: &Vec<usize>) -> (g: i128)
    requires
        t@.len() == y@.len(),
        outcomes_wf(y@),
        idx_wf(left@, y@.len() as nat),
        idx_wf(right@, y@.len() as nat),
        left@.len() >= 1,
        right@.len() >= 1,
        left@.len() + right@.len() <= MAX_SAMPLES,
    ensures
        g as int == spec_gain(t@, y@, left@, right@),
        0 <= g <= GAIN_MAX,
{
    let tau_l = estimate_effect(t, y, left);
    let tau_r = estimate_effect(t, y, right);
    let dd: i128 = tau_l as i128 - tau_r as i128;
    proof {
        assert(dd * dd <= 16 * (MAX_ABS as int) * (MAX_ABS as int) && dd * dd >= 0)
            by (nonlinear_arith)
            requires
                -4 * MAX_ABS <= dd <= 4 * MAX_ABS,
        ;
    }
    let q: i128 = (dd * dd) / (SCALE as i128);
    let nl: i128 = left.len() as i128;
    let nr: i128 = right.len() as i128;
    let n: i128 = nl + nr;
    proof {
        assert(16 * (MAX_ABS as int) * (MAX_ABS as int) == GAIN_MAX * (SCALE as int));
        lemma_tdiv_ordered(dd * dd, GAIN_MAX * (SCALE as int), SCALE as int);
        lemma_tdiv_exact(GAIN_MAX as int, SCALE as int);
        lemma_tdiv_nonneg(dd * dd, SCALE as int);
        assert(0 <= nl * nr && nl * nr * q <= n * n * q && n * n <= (MAX_SAMPLES as int)
            * (MAX_SAMPLES as int) && 0 <= nl * nr * q) by (nonlinear_arith)
            requires
                nl >= 1 && nr >= 1 && q >= 0 && n == nl + nr && n <= MAX_SAMPLES,
        ;
        assert(n * n * q <= (MAX_SAMPLES as int) * (MAX_SAMPLES as int) * GAIN_MAX)
            by (nonlinear_arith)
            requires
                0 <= n * n <= (MAX_SAMPLES as int) * (MAX_SAMPLES as int) && 0 <= q <= GAIN_MAX,
        ;
        assert(nl * nr <= n * n && n * n > 0) by (nonlinear_arith)
            requires
                nl >= 1 && nr >= 1 && n == nl + nr,
        ;
    }
    let a: i128 = nl * nr;
    let n2: i128 = n * n;
    let num: i128 = a * q;
    let g = num / n2;
    proof {
        let qi = q as int;
        let ni = n as int;
        lemma_tdiv_ordered(a as int * qi, ni * ni * qi, ni * ni);
        lemma_tdiv_exact(qi, ni * ni);
        assert(qi * (ni * ni) == ni * ni * qi) by (nonlinear_arith);
        lemma_tdiv_nonneg(a as int * qi, ni * ni);
    }
    g
}

} // verus!
