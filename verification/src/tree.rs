//! One honest causal tree: the recursive node structure, the split search,
//! and the traversal.
//!
//! A tree is built from two disjoint halves of the sample indices: the split
//! set chooses where to split, the estimation set supplies the numeric effect
//! stored in each leaf.  Both halves are partitioned by the same threshold
//! decision at every internal node and never recombined.

use vstd::prelude::*;
use vstd::seq_lib::group_to_multiset_ensures;
use rayon::iter::{IndexedParallelIterator, IntoParallelRefIterator, ParallelIterator};
use crate::arith::{lemma_sum_i128_entry_bound, lemma_sum_i128_update, sum_i128};
use crate::effect::{
    calculate_causal_gain, estimate_effect, idx_wf, matrix_wf, outcomes_wf, spec_effect,
    spec_gain, GAIN_MAX, MAX_SAMPLES,
};
use crate::errors::CausalFlowError;
use crate::num::MAX_ABS;
use crate::rng::{rng_below, rng_from_seed, rng_next_seed, rng_shuffle};

verus! {

/// One node of a fitted tree: a terminal leaf carrying a treatment-effect
/// estimate, or an internal split routing a query by one feature threshold.
#[derive(Debug)]
pub enum Node {
    Leaf {
        /// Difference-in-means effect over the estimation samples that
        /// reached this leaf, as a fixed-point mantissa.
        treatment_effect: i64,
        /// Number of estimation samples that reached this leaf.
        size: usize,
    },
    Internal {
        /// Feature compared at this split; always below the feature count.
        feature_idx: usize,
        /// Values at most this mantissa go left, the rest go right.
        threshold: i64,
        left: Box<Node>,
        right: Box<Node>,
    },
}

/// Training data in mantissa form, as the tree builder receives it: a
/// non-empty rectangular feature matrix, one treatment flag and one bounded
/// outcome per sample.
pub open spec fn data_wf(x: Seq<Seq<i64>>, t: Seq<bool>, y: Seq<i64>) -> bool {
    &&& x.len() >= 1
    &&& t.len() == x.len()
    &&& y.len() == x.len()
    &&& matrix_wf(x, x.len(), x[0].len())
    &&& outcomes_wf(y)
}

/// Number of features of a non-empty matrix.
pub open spec fn nfeat(x: Seq<Seq<i64>>) -> nat {
    x[0].len()
}

/// Structural well-formedness of a node for `d` features: every split
/// references a feature below `d`, and every leaf effect is a bounded
/// difference of two bounded means.
pub open spec fn node_wf(nd: Node, d: nat) -> bool
    decreases nd,
{
    match nd {
        Node::Leaf { treatment_effect, size } => -2 * MAX_ABS <= treatment_effect <= 2 * MAX_ABS,
        Node::Internal { feature_idx, threshold, left, right } => {
            &&& feature_idx < d
            &&& node_wf(*left, d)
            &&& node_wf(*right, d)
        },
    }
}

/// Every leaf of the node holds the difference-in-means effect of some set
/// of sample indices, together with that set's size.  This records how leaf
/// values arise from the training outcomes without fixing which random
/// estimation subset produced them.
pub open spec fn node_effects_from(nd: Node, t: Seq<bool>, y: Seq<i64>, n: nat) -> bool
    decreases nd,
{
    match nd {
        Node::Leaf { treatment_effect, size } => exists|s: Seq<usize>|
            idx_wf(s, n) && s.len() == size && treatment_effect as int == spec_effect(t, y, s),
        Node::Internal { feature_idx, threshold, left, right } => {
            &&& node_effects_from(*left, t, y, n)
            &&& node_effects_from(*right, t, y, n)
        },
    }
}

/// The traversal: compare the query row at each split's feature, `<=` routes
/// left, `>` routes right, and the first leaf reached supplies the result.
/// A row too short for a split's feature index yields a bounds error.
pub open spec fn spec_node_predict(nd: Node, row: Seq<i64>) -> Result<i64, CausalFlowError>
    decreases nd,
{
    match nd {
        Node::Leaf { treatment_effect, size } => Ok(treatment_effect),
        Node::Internal { feature_idx, threshold, left, right } => {
            if row.len() <= feature_idx {
                Err(CausalFlowError::FeatureOutOfBounds(feature_idx))
            } else if row[feature_idx as int] <= threshold {
                spec_node_predict(*left, row)
            } else {
                spec_node_predict(*right, row)
            }
        },
    }
}

/// A successful traversal of a well-formed node returns some leaf's bounded
/// effect, and a row with at least `d` values cannot fail.
pub proof fn lemma_node_predict_ok(nd: Node, d: nat, row: Seq<i64>)
    requires
        node_wf(nd, d),
    ensures
        row.len() >= d ==> spec_node_predict(nd, row).is_ok(),
        spec_node_predict(nd, row) matches Ok(v) ==> -2 * MAX_ABS <= v <= 2 * MAX_ABS,
    decreases nd,
{
    match nd {
        Node::Leaf { .. } => {},
        Node::Internal { left, right, .. } => {
            lemma_node_predict_ok(*left, d, row);
            lemma_node_predict_ok(*right, d, row);
        },
    }
}

/// When the outcome vector is constant, every leaf effect of a tree built
/// from it is zero, so every traversal that succeeds returns zero.
pub proof fn lemma_constant_outcome_node_zero(
    nd: Node,
    t: Seq<bool>,
    y: Seq<i64>,
    n: nat,
    c: i64,
    row: Seq<i64>,
)
    requires
        node_effects_from(nd, t, y, n),
        t.len() == y.len(),
        y.len() == n,
        forall|i: int| 0 <= i < y.len() ==> #[trigger] y[i] == c,
    ensures
        spec_node_predict(nd, row) matches Ok(v) ==> v == 0,
    decreases nd,
{
    match nd {
        Node::Leaf { treatment_effect, size } => {
            let s = choose|s: Seq<usize>|
                idx_wf(s, n) && s.len() == size && treatment_effect as int == spec_effect(
                    t,
                    y,
                    s,
                );
            crate::effect::lemma_constant_outcome_zero_effect(t, y, s, c);
        },
        Node::Internal { left, right, .. } => {
            lemma_constant_outcome_node_zero(*left, t, y, n, c, row);
            lemma_constant_outcome_node_zero(*right, t, y, n, c, row);
        },
    }
}

impl Clone for Node {
    /// A deep copy of the subtree, equal to it node for node.
    fn clone(&self) -> (r: Self)
        ensures
            r == *self,
        decreases *self,
    {
        match self {
            Node::Leaf { treatment_effect, size } => Node::Leaf {
                treatment_effect: *treatment_effect,
                size: *size,
            },
            Node::Internal { feature_idx, threshold, left, right } => Node::Internal {
                feature_idx: *feature_idx,
                threshold: *threshold,
                left: Box::new((**left).clone()),
                right: Box::new((**right).clone()),
            },
        }
    }
}

impl Node {
    /// Route one query row through the tree and return the effect stored in
    /// the leaf it reaches.
    pub fn predict(&self, row: &Vec<i64>) -> (r: Result<i64, CausalFlowError>)
        ensures
            r == spec_node_predict(*self, row@),
        decreases *self,
    {
        match self {
            Node::Leaf { treatment_effect, .. } => Ok(*treatment_effect),
            Node::Internal { feature_idx, threshold, left, right } => {
                if row.len() <= *feature_idx {
                    Err(CausalFlowError::FeatureOutOfBounds(*feature_idx))
                } else if row[*feature_idx] <= *threshold {
                    left.predict(row)
                } else {
                    right.predict(row)
                }
            },
        }
    }
}

/// The indices of `idx` whose feature `f` value is at most `th`, in order.
pub open spec fn sel_le(x: Seq<Seq<i64>>, f: int, th: i64, idx: Seq<usize>) -> Seq<usize>
    decreases idx.len(),
{
    if idx.len() == 0 {
        Seq::empty()
    } else {
        let p = sel_le(x, f, th, idx.drop_last());
        if x[idx.last() as int][f] <= th {
            p.push(idx.last())
        } else {
            p
        }
    }
}

/// The indices of `idx` whose feature `f` value exceeds `th`, in order.
pub open spec fn sel_gt(x: Seq<Seq<i64>>, f: int, th: i64, idx: Seq<usize>) -> Seq<usize>
    decreases idx.len(),
{
    if idx.len() == 0 {
        Seq::empty()
    } else {
        let p = sel_gt(x, f, th, idx.drop_last());
        if x[idx.last() as int][f] <= th {
            p
        } else {
            p.push(idx.last())
        }
    }
}

/// A row of the deep view of a mantissa matrix is the view of that row.
pub proof fn lemma_mat_index(x: &Vec<Vec<i64>>, i: int)
    requires
        0 <= i < x@.len(),
    ensures
        x.deep_view()[i] == x@[i]@,
{
    assert(x.deep_view()[i] =~= x@[i]@);
}

/// The two sides of a partition carve `idx` in two, and stay within the same
/// sample range.
pub proof fn lemma_sel_wf(x: Seq<Seq<i64>>, f: int, th: i64, idx: Seq<usize>, n: nat)
    requires
        idx_wf(idx, n),
    ensures
        sel_le(x, f, th, idx).len() + sel_gt(x, f, th, idx).len() == idx.len(),
        idx_wf(sel_le(x, f, th, idx), n),
        idx_wf(sel_gt(x, f, th, idx), n),
    decreases idx.len(),
{
    if idx.len() > 0 {
        assert(idx_wf(idx.drop_last(), n));
        lemma_sel_wf(x, f, th, idx.drop_last(), n);
    }
}

/// How the whole tree arises from one pair of index sets: a leaf holds the
/// difference-in-means effect over its estimation set and that set's size;
/// an internal node spends one unit of the depth budget on a threshold
/// drawn from its split set's values at the chosen feature, keeps at least
/// `min_leaf` split samples on each side, and hands each child the same
/// `<=`/`>` selection of both index sets, never recombining them.
///
/// This is the draw-independent shape of the honest recursive partitioning:
/// which feature, which threshold and which permutation were drawn stays
/// open, but every node of the result must have been built this way.
pub open spec fn node_built_from(
    nd: Node,
    x: Seq<Seq<i64>>,
    t: Seq<bool>,
    y: Seq<i64>,
    split: Seq<usize>,
    est: Seq<usize>,
    depth_budget: nat,
    min_leaf: nat,
) -> bool
    decreases nd,
{
    match nd {
        Node::Leaf { treatment_effect, size } => {
            &&& treatment_effect as int == spec_effect(t, y, est)
            &&& size == est.len()
        },
        Node::Internal { feature_idx, threshold, left, right } => {
            &&& depth_budget >= 1
            &&& est.len() >= min_leaf
            &&& (exists|j: int|
                0 <= j < split.len() && threshold == x[#[trigger] split[j] as int][feature_idx as int])
            &&& sel_le(x, feature_idx as int, threshold, split).len() >= min_leaf
            &&& sel_gt(x, feature_idx as int, threshold, split).len() >= min_leaf
            &&& node_built_from(
                *left,
                x,
                t,
                y,
                sel_le(x, feature_idx as int, threshold, split),
                sel_le(x, feature_idx as int, threshold, est),
                (depth_budget - 1) as nat,
                min_leaf,
            )
            &&& node_built_from(
                *right,
                x,
                t,
                y,
                sel_gt(x, feature_idx as int, threshold, split),
                sel_gt(x, feature_idx as int, threshold, est),
                (depth_budget - 1) as nat,
                min_leaf,
            )
        },
    }
}

/// Number of internal nodes on the longest path from this node to a leaf.
pub open spec fn node_depth(nd: Node) -> nat
    decreases nd,
{
    match nd {
        Node::Leaf { treatment_effect, size } => 0,
        Node::Internal { feature_idx, threshold, left, right } => {
            let dl = node_depth(*left);
            let dr = node_depth(*right);
            1 + if dl >= dr {
                dl
            } else {
                dr
            }
        },
    }
}

/// Sum of `size` over all leaves of the node.
pub open spec fn leaf_sizes_sum(nd: Node) -> int
    decreases nd,
{
    match nd {
        Node::Leaf { treatment_effect, size } => size as int,
        Node::Internal { feature_idx, threshold, left, right } => leaf_sizes_sum(*left)
            + leaf_sizes_sum(*right),
    }
}

/// A tree built from an estimation set routes each of its samples to
/// exactly one leaf: the leaf sizes sum to the estimation-set size.
pub proof fn lemma_built_leaf_sizes(
    nd: Node,
    x: Seq<Seq<i64>>,
    t: Seq<bool>,
    y: Seq<i64>,
    split: Seq<usize>,
    est: Seq<usize>,
    depth_budget: nat,
    min_leaf: nat,
    n: nat,
)
    requires
        node_built_from(nd, x, t, y, split, est, depth_budget, min_leaf),
        idx_wf(est, n),
    ensures
        leaf_sizes_sum(nd) == est.len(),
    decreases nd,
{
    match nd {
        Node::Leaf { .. } => {},
        Node::Internal { feature_idx, threshold, left, right } => {
            lemma_sel_wf(x, feature_idx as int, threshold, est, n);
            lemma_built_leaf_sizes(
                *left,
                x,
                t,
                y,
                sel_le(x, feature_idx as int, threshold, split),
                sel_le(x, feature_idx as int, threshold, est),
                (depth_budget - 1) as nat,
                min_leaf,
                n,
            );
            lemma_built_leaf_sizes(
                *right,
                x,
                t,
                y,
                sel_gt(x, feature_idx as int, threshold, split),
                sel_gt(x, feature_idx as int, threshold, est),
                (depth_budget - 1) as nat,
                min_leaf,
                n,
            );
        },
    }
}

/// Split the index list by `value <= threshold` on feature `f`, preserving
/// order on both sides.
pub fn partition_indices(x: &Vec<Vec<i64>>, f: usize, th: i64, idx: &Vec<usize>) -> (r: (
    Vec<usize>,
    Vec<usize>,
))
    requires
        matrix_wf(x.deep_view(), x@.len() as nat, nfeat(x.deep_view())),
        x@.len() >= 1,
        f < nfeat(x.deep_view()),
        idx_wf(idx@, x@.len() as nat),
    ensures
        r.0@ == sel_le(x.deep_view(), f as int, th, idx@),
        r.1@ == sel_gt(x.deep_view(), f as int, th, idx@),
{
    let mut left: Vec<usize> = Vec::new();
    let mut right: Vec<usize> = Vec::new();
    let m = idx.len();
    for k in 0..m
        invariant
            m == idx@.len(),
            matrix_wf(x.deep_view(), x@.len() as nat, nfeat(x.deep_view())),
            x@.len() >= 1,
            f < nfeat(x.deep_view()),
            idx_wf(idx@, x@.len() as nat),
            left@ == sel_le(x.deep_view(), f as int, th, idx@.take(k as int)),
            right@ == sel_gt(x.deep_view(), f as int, th, idx@.take(k as int)),
    {
        proof {
            crate::effect::lemma_idx_prefix_step(idx@, k as int);
        }
        let i = idx[k];
        proof {
            lemma_mat_index(x, i as int);
        }
        if x[i][f] <= th {
            left.push(i);
        } else {
            right.push(i);
        }
    }
    proof {
        assert(idx@.take(m as int) =~= idx@);
    }
    (left, right)
}

/// A rearrangement of a sequence of indices below `n` stays below `n`.
pub proof fn lemma_permuted_bounded(a: Seq<usize>, b: Seq<usize>, n: nat)
    requires
        a.to_multiset() == b.to_multiset(),
        forall|j: int| 0 <= j < b.len() ==> (#[trigger] b[j]) < n,
    ensures
        forall|k: int| 0 <= k < a.len() ==> (#[trigger] a[k]) < n,
{
    broadcast use group_to_multiset_ensures;

    assert forall|k: int| 0 <= k < a.len() implies (a[k]) < n by {
        assert(a.contains(a[k]));
        assert(a.to_multiset().count(a[k]) > 0);
        assert(b.contains(a[k]));
        let j = choose|j: int| 0 <= j < b.len() && b[j] == a[k];
        assert(b[j] < n);
    }
}

/// The number of candidate features drawn at each node:
/// `round(sqrt(n_features))`, computed exactly on integers.
pub fn sqrt_feature_count(d: usize) -> (k: usize)
    ensures
        d == 0 ==> k == 0,
        d > 0 ==> 1 <= k <= d,
        d > 0 ==> k * k - k + 1 <= d <= k * k + k,
{
    let mut s: usize = 0;
    let mut sq: u128 = 1;
    while sq <= d as u128
        invariant
            s <= d,
            s * s <= d,
            sq == ((s + 1) as int) * ((s + 1) as int),
        decreases d - s,
    {
        proof {
            assert((s + 1) * (s + 1) <= d && s + 1 <= d) by (nonlinear_arith)
                requires
                    ((s + 1) as int) * ((s + 1) as int) <= d as int,
            ;
        }
        s = s + 1;
        sq = sq + 2 * (s as u128) + 1;
        proof {
            assert(((s + 1) as int) * ((s + 1) as int) == (s as int) * (s as int) + 2 * (s as int)
                + 1) by (nonlinear_arith);
        }
    }
    proof {
        assert(d < (s + 1) * (s + 1));
    }
    if d == 0 {
        0
    } else {
        proof {
            assert(s + 1 <= d || s <= 1) by (nonlinear_arith)
                requires
                    (s as int) * (s as int) <= d as int && d >= 1,
            ;
        }
        let r = d - s * s;
        let k = if r >= s + 1 {
            s + 1
        } else {
            s
        };
        proof {
            assert(s >= 1) by (nonlinear_arith)
                requires
                    ((s + 1) as int) * ((s + 1) as int) > d as int && d as int >= 1,
            ;
            if r >= s + 1 {
                assert(k * k - k + 1 <= d <= k * k + k) by (nonlinear_arith)
                    requires
                        k == s + 1 && d >= s * s + s + 1 && d < (s + 1) * (s + 1),
                ;
            } else {
                assert(k * k - k + 1 <= d <= k * k + k) by (nonlinear_arith)
                    requires
                        k == s && s >= 1 && s * s <= d && d < s * s + s + 1,
                ;
            }
            assert(k <= d) by (nonlinear_arith)
                requires
                    k >= 1 && k * k - k + 1 <= d,
            ;
        }
        k
    }
}

/// One surviving split candidate: a feature, a threshold drawn from that
/// feature's split-set values, the induced split-set partition, and its
/// causal gain.
pub struct Candidate {
    pub feature_idx: usize,
    pub threshold: i64,
    pub gain: i128,
    pub left_split: Vec<usize>,
    pub right_split: Vec<usize>,
}

/// What the split search guarantees of any candidate it returns: the feature
/// is in range, the threshold is one of the split set's values at that
/// feature, both partition sides are the exact `<=`/`>` selections and hold
/// at least `min_leaf` split samples, and the gain is the exact causal gain
/// of the partition.
pub open spec fn cand_wf(
    c: Candidate,
    x: Seq<Seq<i64>>,
    t: Seq<bool>,
    y: Seq<i64>,
    split: Seq<usize>,
    min_leaf: nat,
) -> bool {
    &&& (c.feature_idx as nat) < nfeat(x)
    &&& c.left_split@ == sel_le(x, c.feature_idx as int, c.threshold, split)
    &&& c.right_split@ == sel_gt(x, c.feature_idx as int, c.threshold, split)
    &&& min_leaf <= c.left_split@.len()
    &&& min_leaf <= c.right_split@.len()
    &&& c.gain as int == spec_gain(t, y, c.left_split@, c.right_split@)
    &&& 0 <= c.gain <= GAIN_MAX
    &&& exists|j: int|
        0 <= j < split.len() && c.threshold == x[#[trigger] split[j] as int][c.feature_idx as int]
}

/// Sample up to ten thresholds of one candidate feature from the split-set
/// values and keep the surviving candidate with the highest gain seen, the
/// earliest draw winning ties.
fn eval_feature(
    x: &Vec<Vec<i64>>,
    t: &Vec<bool>,
    y: &Vec<i64>,
    split_idx: &Vec<usize>,
    f_idx: usize,
    min_leaf_size: usize,
    seed: u64,
) -> (r: Option<Candidate>)
    requires
        data_wf(x.deep_view(), t@, y@),
        x@.len() <= MAX_SAMPLES,
        idx_wf(split_idx@, x@.len() as nat),
        1 <= split_idx@.len() <= MAX_SAMPLES,
        (f_idx as nat) < nfeat(x.deep_view()),
        min_leaf_size >= 1,
    ensures
        r matches Some(c) ==> cand_wf(c, x.deep_view(), t@, y@, split_idx@, min_leaf_size as nat),
{
    let mut rng = rng_from_seed(seed);
    let m = split_idx.len();
    let mut values: Vec<i64> = Vec::new();
    for k in 0..m
        invariant
            m == split_idx@.len(),
            matrix_wf(x.deep_view(), x@.len() as nat, nfeat(x.deep_view())),
            x@.len() >= 1,
            idx_wf(split_idx@, x@.len() as nat),
            (f_idx as nat) < nfeat(x.deep_view()),
            values@.len() == k,
            forall|j: int|
                0 <= j < k ==> #[trigger] values@[j] == x.deep_view()[split_idx@[j] as int][f_idx as int],
    {
        let i = split_idx[k];
        proof {
            lemma_mat_index(x, i as int);
        }
        values.push(x[i][f_idx]);
    }
    let mut best: Option<Candidate> = None;
    for _attempt in 0..10usize
        invariant
            m == split_idx@.len(),
            data_wf(x.deep_view(), t@, y@),
            x@.len() <= MAX_SAMPLES,
            idx_wf(split_idx@, x@.len() as nat),
            1 <= m <= MAX_SAMPLES,
            (f_idx as nat) < nfeat(x.deep_view()),
            min_leaf_size >= 1,
            values@.len() == m,
            forall|j: int|
                0 <= j < m ==> #[trigger] values@[j] == x.deep_view()[split_idx@[j] as int][f_idx as int],
            best matches Some(c) ==> cand_wf(
                c,
                x.deep_view(),
                t@,
                y@,
                split_idx@,
                min_leaf_size as nat,
            ),
    {
        let j = rng_below(&mut rng, m);
        let th = values[j];
        let (l, r) = partition_indices(x, f_idx, th, split_idx);
        if l.len() >= min_leaf_size && r.len() >= min_leaf_size {
            proof {
                lemma_sel_wf(x.deep_view(), f_idx as int, th, split_idx@, x@.len() as nat);
            }
            let g = calculate_causal_gain(t, y, &l, &r);
            let better = match &best {
                Option::None => true,
                Option::Some(b) => g > b.gain,
            };
            if better {
                best = Some(
                    Candidate {
                        feature_idx: f_idx,
                        threshold: th,
                        gain: g,
                        left_split: l,
                        right_split: r,
                    },
                );
            }
        }
    }
    best
}

/// Relies on rayon's parallel iterators: `par_iter().zip(..).map(..)` applies
/// the closure — a call of the verified `eval_feature` — to every (feature,
/// seed) pair independently, and `collect` keeps the results in input order.
#[verifier::external_body]
fn par_eval_features(
    x: &Vec<Vec<i64>>,
    t: &Vec<bool>,
    y: &Vec<i64>,
    split_idx: &Vec<usize>,
    feats: &Vec<usize>,
    seeds: &Vec<u64>,
    min_leaf_size: usize,
) -> (r: Vec<Option<Candidate>>)
    requires
        data_wf(x.deep_view(), t@, y@),
        x@.len() <= MAX_SAMPLES,
        idx_wf(split_idx@, x@.len() as nat),
        1 <= split_idx@.len() <= MAX_SAMPLES,
        min_leaf_size >= 1,
        feats@.len() == seeds@.len(),
        forall|j: int| 0 <= j < feats@.len() ==> ((#[trigger] feats@[j]) as nat) < nfeat(
            x.deep_view(),
        ),
    ensures
        r@.len() == feats@.len(),
        forall|j: int|
            0 <= j < r@.len() ==> ((#[trigger] r@[j]) matches Some(c) ==> cand_wf(
                c,
                x.deep_view(),
                t@,
                y@,
                split_idx@,
                min_leaf_size as nat,
            )),
{
    feats
        .par_iter()
        .zip(seeds.par_iter())
        .map(|(&f, &s)| eval_feature(x, t, y, split_idx, f, min_leaf_size, s))
        .collect()
}

/// Upper bound on the total gain a build over `len` split samples can add to
/// the importance accumulator: a tree with `len` split samples performs at
/// most `len - 1` proper splits, each of gain at most [`GAIN_MAX`].
pub open spec fn importance_budget(len: int) -> int {
    if len <= 0 {
        0
    } else {
        (2 * len - 1) * GAIN_MAX
    }
}

/// Splitting the budget of a node across its two children leaves room for
/// the gain the node itself accumulates.
proof fn lemma_budget_split(nl: int, nr: int)
    requires
        nl >= 1,
        nr >= 1,
    ensures
        importance_budget(nl) + importance_budget(nr) + GAIN_MAX == importance_budget(nl + nr),
{
    assert((2 * nl - 1) * GAIN_MAX + (2 * nr - 1) * GAIN_MAX + GAIN_MAX == (2 * (nl + nr) - 1)
        * GAIN_MAX) by (nonlinear_arith);
}

/// Build one node by honest recursive partitioning: stop at the depth or
/// size limits with a difference-in-means leaf over the estimation set, or
/// search the sampled features for the highest-gain split, account its gain
/// to the feature-importance accumulator, partition both index sets by the
/// winning threshold and recurse.
///
/// The contract pins, through [`node_built_from`], everything that holds of
/// every random draw: each leaf carries the difference-in-means effect and
/// size of its estimation set, each split's threshold is one of its split
/// set's values at the chosen feature with at least `min_leaf_size` split
/// samples per side, both index sets flow to the children by the same
/// `<=`/`>` decision, the depth budget bounds the tree, and a leaf result
/// leaves the accumulator untouched.  Which of the drawn candidates wins is
/// left open: the winner maximizes gain only over candidates that are
/// themselves random draws, and ties between equal gains fall to task
/// scheduling.
fn build_tree(
    x: &Vec<Vec<i64>>,
    t: &Vec<bool>,
    y: &Vec<i64>,
    split_idx: &Vec<usize>,
    est_idx: &Vec<usize>,
    depth: usize,
    max_depth: usize,
    min_leaf_size: usize,
    importance: &mut Vec<i128>,
    rng: &mut rand::rngs::StdRng,
) -> (node: Box<Node>)
    requires
        data_wf(x.deep_view(), t@, y@),
        x@.len() <= MAX_SAMPLES,
        idx_wf(split_idx@, x@.len() as nat),
        idx_wf(est_idx@, x@.len() as nat),
        split_idx@.len() <= MAX_SAMPLES,
        min_leaf_size >= 1,
        old(importance)@.len() == nfeat(x.deep_view()),
        forall|j: int| 0 <= j < old(importance)@.len() ==> (#[trigger] old(importance)@[j]) >= 0,
        sum_i128(old(importance)@) + importance_budget(split_idx@.len() as int) <= i128::MAX,
    ensures
        final(importance)@.len() == old(importance)@.len(),
        forall|j: int|
            0 <= j < final(importance)@.len() ==> (#[trigger] final(importance)@[j]) >= old(
                importance,
            )@[j],
        sum_i128(final(importance)@) <= sum_i128(old(importance)@) + importance_budget(
            split_idx@.len() as int,
        ),
        node_wf(*node, nfeat(x.deep_view())),
        node_effects_from(*node, t@, y@, x@.len() as nat),
        node_built_from(
            *node,
            x.deep_view(),
            t@,
            y@,
            split_idx@,
            est_idx@,
            (if depth >= max_depth {
                0int
            } else {
                max_depth - depth
            }) as nat,
            min_leaf_size as nat,
        ),
        node_depth(*node) as int <= (if depth >= max_depth {
            0int
        } else {
            max_depth - depth
        }),
        ((*node) matches Node::Leaf { .. }) ==> final(importance)@ == old(importance)@,
        (depth >= max_depth || split_idx@.len() < 2 * min_leaf_size || est_idx@.len()
            < min_leaf_size) ==> (*node matches Node::Leaf { treatment_effect, size }
            && treatment_effect as int == spec_effect(t@, y@, est_idx@) && size == est_idx@.len()),
    decreases max_depth - depth,
{
    let sn = split_idx.len();
    let en = est_idx.len();
    // `sn / 2 < m` is `sn < 2 * m` without risking overflow on huge settings
    if depth >= max_depth || sn / 2 < min_leaf_size || en < min_leaf_size {
        let eff = estimate_effect(t, y, est_idx);
        proof {
            let ghost w = est_idx@;
            assert(idx_wf(w, x@.len() as nat) && w.len() == est_idx@.len() && eff as int
                == spec_effect(t@, y@, w));
        }
        return Box::new(Node::Leaf { treatment_effect: eff, size: en });
    }
    proof {
        lemma_mat_index(x, 0);
    }
    let d = x[0].len();
    let k = sqrt_feature_count(d);
    let mut feats: Vec<usize> = Vec::new();
    for j in 0..d
        invariant
            feats@.len() == j,
            forall|q: int| 0 <= q < j ==> #[trigger] feats@[q] == q,
    {
        feats.push(j);
    }
    let ghost orig_feats = feats@;
    rng_shuffle(rng, &mut feats);
    proof {
        lemma_permuted_bounded(feats@, orig_feats, d as nat);
    }
    let mut sampled: Vec<usize> = Vec::new();
    let mut seeds: Vec<u64> = Vec::new();
    for j in 0..k
        invariant
            k <= feats@.len(),
            sampled@.len() == j,
            seeds@.len() == j,
            forall|q: int| 0 <= q < feats@.len() ==> (#[trigger] feats@[q]) < d,
            forall|q: int| 0 <= q < j ==> (#[trigger] sampled@[q]) < d,
            d == nfeat(x.deep_view()),
    {
        sampled.push(feats[j]);
        seeds.push(rng_next_seed(rng));
    }
    let mut results = par_eval_features(x, t, y, split_idx, &sampled, &seeds, min_leaf_size);
    let mut best: Option<Candidate> = None;
    while results.len() > 0
        invariant
            data_wf(x.deep_view(), t@, y@),
            forall|q: int|
                0 <= q < results@.len() ==> ((#[trigger] results@[q]) matches Some(c)
                    ==> cand_wf(c, x.deep_view(), t@, y@, split_idx@, min_leaf_size as nat)),
            best matches Some(c) ==> cand_wf(
                c,
                x.deep_view(),
                t@,
                y@,
                split_idx@,
                min_leaf_size as nat,
            ),
        decreases results@.len(),
    {
        let copt = results.pop().unwrap();
        if let Option::Some(c) = copt {
            let better = match &best {
                Option::None => true,
                Option::Some(b) => c.gain > b.gain,
            };
            if better {
                best = Some(c);
            }
        }
    }
    match best {
        Option::None => {
            let eff = estimate_effect(t, y, est_idx);
            proof {
                let ghost w = est_idx@;
                assert(idx_wf(w, x@.len() as nat) && w.len() == est_idx@.len() && eff as int
                    == spec_effect(t@, y@, w));
            }
            Box::new(Node::Leaf { treatment_effect: eff, size: en })
        },
        Option::Some(c) => {
            let f = c.feature_idx;
            let ghost imp0 = importance@;
            proof {
                lemma_sum_i128_entry_bound(imp0, f as int);
                assert(importance_budget(sn as int) >= GAIN_MAX) by (nonlinear_arith)
                    requires
                        sn >= 2 && GAIN_MAX > 0,
                ;
            }
            let old_v = importance[f];
            importance[f] = old_v + c.gain;
            proof {
                lemma_sum_i128_update(imp0, f as int, (old_v + c.gain) as i128);
                assert(importance@ =~= imp0.update(f as int, (old_v + c.gain) as i128));
            }
            let (le, re) = partition_indices(x, f, c.threshold, est_idx);
            proof {
                lemma_sel_wf(x.deep_view(), f as int, c.threshold, est_idx@, x@.len() as nat);
                lemma_sel_wf(x.deep_view(), f as int, c.threshold, split_idx@, x@.len() as nat);
                lemma_budget_split(c.left_split@.len() as int, c.right_split@.len() as int);
            }
            let left = build_tree(
                x,
                t,
                y,
                &c.left_split,
                &le,
                depth + 1,
                max_depth,
                min_leaf_size,
                importance,
                rng,
            );
            let right = build_tree(
                x,
                t,
                y,
                &c.right_split,
                &re,
                depth + 1,
                max_depth,
                min_leaf_size,
                importance,
                rng,
            );
            let node = Box::new(
                Node::Internal { feature_idx: f, threshold: c.threshold, left, right },
            );
            proof {
                let budget = (max_depth - depth) as nat;
                assert((if depth + 1 >= max_depth {
                    0int
                } else {
                    max_depth - (depth + 1)
                }) == budget - 1);
                assert(node_built_from(
                    *node,
                    x.deep_view(),
                    t@,
                    y@,
                    split_idx@,
                    est_idx@,
                    budget,
                    min_leaf_size as nat,
                ));
            }
            node
        },
    }
}

/// One honest causal tree: absent until fitted, plus the per-feature gain
/// accumulated by its splits.
#[derive(Clone, Debug)]
pub struct CausalTree {
    /// The fitted tree, `None` until `fit` has run.
    pub root: Option<Box<Node>>,
    /// Gain accumulated per feature by this tree's splits; monotonically
    /// accumulated during the build, normalized only at forest aggregation.
    pub feature_importance: Vec<i128>,
}

/// `p` is a permutation of the sample indices `0 .. n`.
pub open spec fn perm_of(p: Seq<usize>, n: nat) -> bool {
    &&& p.len() == n
    &&& p.to_multiset() == Seq::new(n, |i: int| i as usize).to_multiset()
}

/// Everything a fresh tree's `fit` establishes: the tree was built, node by
/// node, from the two halves of some permutation of the sample indices —
/// the first `n/2` entries as the split set, the rest as the estimation set
/// ([`node_built_from`] carries both selections through every split) — its
/// depth stays within `max_depth`, it is well-formed, its leaf values are
/// difference-in-means effects of index sets drawn from the training
/// outcomes, the non-negative importance accumulator has one entry per
/// feature, a total within the build budget, and stays all zero when no
/// split happened, and, when `max_depth` is zero, the single leaf holds the
/// effect over the estimation half.
pub open spec fn tree_fit_post(
    tree: CausalTree,
    x: Seq<Seq<i64>>,
    t: Seq<bool>,
    y: Seq<i64>,
    max_depth: nat,
    min_leaf: nat,
) -> bool {
    let n = x.len();
    let d = nfeat(x);
    &&& match tree.root {
        Option::Some(root) => {
            &&& node_wf(*root, d)
            &&& node_effects_from(*root, t, y, n)
            &&& (exists|p: Seq<usize>|
                perm_of(p, n) && node_built_from(
                    *root,
                    x,
                    t,
                    y,
                    p.take((n / 2) as int),
                    p.skip((n / 2) as int),
                    max_depth,
                    min_leaf,
                ))
            &&& node_depth(*root) <= max_depth
            &&& ((*root matches Node::Leaf { .. }) ==> forall|j: int|
                0 <= j < d ==> (#[trigger] tree.feature_importance@[j]) == 0)
            &&& (max_depth == 0 ==> exists|p: Seq<usize>|
                perm_of(p, n) && (*root matches Node::Leaf { treatment_effect, size }
                    && treatment_effect as int == spec_effect(t, y, p.skip((n / 2) as int))
                    && size == n - n / 2))
        },
        Option::None => false,
    }
    &&& tree.feature_importance@.len() == d
    &&& forall|j: int| 0 <= j < d ==> (#[trigger] tree.feature_importance@[j]) >= 0
    &&& sum_i128(tree.feature_importance@) <= importance_budget((n / 2) as int)
}

impl CausalTree {
    /// A tree with no root yet and a zeroed importance accumulator of one
    /// entry per feature.
    pub fn new(n_features: usize) -> (tree: Self)
        ensures
            tree.root is None,
            tree.feature_importance@.len() == n_features,
            forall|j: int|
                0 <= j < n_features ==> (#[trigger] tree.feature_importance@[j]) == 0,
    {
        let mut imp: Vec<i128> = Vec::new();
        for j in 0..n_features
            invariant
                imp@.len() == j,
                forall|q: int| 0 <= q < j ==> (#[trigger] imp@[q]) == 0,
        {
            imp.push(0);
        }
        CausalTree { root: None, feature_importance: imp }
    }

    /// Fit the tree: draw a random permutation of the sample indices, cut it
    /// into the split half and the estimation half, and build the node
    /// structure recursively from those two sets.
    pub fn fit(
        &mut self,
        x: &Vec<Vec<i64>>,
        t: &Vec<bool>,
        y: &Vec<i64>,
        max_depth: usize,
        min_leaf_size: usize,
        seed: u64,
    )
        requires
            data_wf(x.deep_view(), t@, y@),
            x@.len() <= MAX_SAMPLES,
            min_leaf_size >= 1,
            old(self).feature_importance@.len() == nfeat(x.deep_view()),
            forall|j: int|
                0 <= j < old(self).feature_importance@.len() ==> (#[trigger] old(
                    self,
                ).feature_importance@[j]) == 0,
        ensures
            tree_fit_post(
                *final(self),
                x.deep_view(),
                t@,
                y@,
                max_depth as nat,
                min_leaf_size as nat,
            ),
    {
        let n = x.len();
        let mut indices: Vec<usize> = Vec::new();
        for i in 0..n
            invariant
                indices@.len() == i,
                forall|q: int| 0 <= q < i ==> #[trigger] indices@[q] == q,
        {
            indices.push(i);
        }
        proof {
            assert(indices@ =~= Seq::new(n as nat, |i: int| i as usize));
        }
        let ghost orig = indices@;
        let mut rng = rng_from_seed(seed);
        rng_shuffle(&mut rng, &mut indices);
        proof {
            lemma_permuted_bounded(indices@, orig, n as nat);
            assert(perm_of(indices@, n as nat));
        }
        let split_size = n / 2;
        let mut split_idx: Vec<usize> = Vec::new();
        for i in 0..split_size
            invariant
                split_size <= n == indices@.len(),
                split_idx@.len() == i,
                forall|q: int| 0 <= q < i ==> #[trigger] split_idx@[q] == indices@[q],
                idx_wf(indices@, n as nat),
        {
            split_idx.push(indices[i]);
        }
        let mut est_idx: Vec<usize> = Vec::new();
        for i in split_size..n
            invariant
                split_size <= n == indices@.len(),
                est_idx@.len() == i - split_size,
                forall|q: int|
                    0 <= q < i - split_size ==> #[trigger] est_idx@[q] == indices@[q + split_size],
                idx_wf(indices@, n as nat),
        {
            est_idx.push(indices[i]);
        }
        proof {
            assert(split_idx@ =~= indices@.take(split_size as int));
            assert(est_idx@ =~= indices@.skip(split_size as int));
            assert(idx_wf(split_idx@, x@.len() as nat));
            assert(idx_wf(est_idx@, x@.len() as nat));
            crate::arith::lemma_sum_i128_zero(self.feature_importance@);
            assert(importance_budget(split_size as int) >= 0) by (nonlinear_arith)
                requires
                    GAIN_MAX > 0,
            ;
        }
        let root = build_tree(
            x,
            t,
            y,
            &split_idx,
            &est_idx,
            0,
            max_depth,
            min_leaf_size,
            &mut self.feature_importance,
            &mut rng,
        );
        self.root = Some(root);
        proof {
            let p = indices@;
            let nn = x.deep_view().len();
            assert(perm_of(p, nn));
            assert(split_idx@ == p.take((nn / 2) as int));
            assert(est_idx@ == p.skip((nn / 2) as int));
            assert((if 0 >= max_depth {
                0int
            } else {
                max_depth - 0
            }) == max_depth as int);
            assert(node_built_from(
                *root,
                x.deep_view(),
                t@,
                y@,
                p.take((nn / 2) as int),
                p.skip((nn / 2) as int),
                max_depth as nat,
                min_leaf_size as nat,
            ));
        }
    }

    /// Route every query row through the tree; the result holds one leaf
    /// effect per row.  A tree that was never fitted reports
    /// `ModelNotFitted`; a row too short for some split reports the bounds
    /// error of the first such row.
    pub fn predict(&self, x: &Vec<Vec<i64>>) -> (r: Result<Vec<i64>, CausalFlowError>)
        ensures
            self.root is None ==> r == Result::<Vec<i64>, CausalFlowError>::Err(
                CausalFlowError::ModelNotFitted,
            ),
            self.root matches Some(root) ==> {
                &&& (spec_tree_rows(*root, x.deep_view()) matches Ok(ps) ==> r matches Ok(v)
                    && v@ == ps)
                &&& (spec_tree_rows(*root, x.deep_view()) matches Err(e) ==> r
                    == Result::<Vec<i64>, CausalFlowError>::Err(e))
            },
    {
        match self.root.as_ref() {
            Option::None => Err(CausalFlowError::ModelNotFitted),
            Option::Some(root) => {
                let n = x.len();
                let mut preds: Vec<i64> = Vec::new();
                for i in 0..n
                    invariant
                        n == x@.len(),
                        preds@.len() == i,
                        self.root == Option::Some(*root),
                        spec_tree_rows(**root, x.deep_view().take(i as int)) == Result::<
                            Seq<i64>,
                            CausalFlowError,
                        >::Ok(preds@),
                {
                    proof {
                        lemma_mat_index(x, i as int);
                        assert(x.deep_view().take(i + 1).drop_last() =~= x.deep_view().take(
                            i as int,
                        ));
                        assert(x.deep_view().take(i + 1).last() == x.deep_view()[i as int]);
                    }
                    match root.predict(&x[i]) {
                        Ok(v) => {
                            preds.push(v);
                        },
                        Err(e) => {
                            proof {
                                assert(spec_tree_rows(**root, x.deep_view().take(i as int + 1))
                                    == Result::<Seq<i64>, CausalFlowError>::Err(e));
                                lemma_tree_rows_err_persists(
                                    **root,
                                    x.deep_view(),
                                    i as int + 1,
                                );
                                assert(self.root is Some);
                                assert(**root == *(self.root->0));
                            }
                            return Err(e);
                        },
                    }
                }
                proof {
                    assert(x.deep_view().take(n as int) =~= x.deep_view());
                }
                Ok(preds)
            },
        }
    }
}

/// The traversal results of a tree over a list of query rows, one leaf
/// effect per row, or the error of the first row whose traversal fails.
pub open spec fn spec_tree_rows(root: Node, rows: Seq<Seq<i64>>) -> Result<
    Seq<i64>,
    CausalFlowError,
>
    decreases rows.len(),
{
    if rows.len() == 0 {
        Ok(Seq::empty())
    } else {
        match spec_tree_rows(root, rows.drop_last()) {
            Ok(ps) => match spec_node_predict(root, rows.last()) {
                Ok(v) => Ok(ps.push(v)),
                Err(e) => Err(e),
            },
            Err(e) => Err(e),
        }
    }
}

/// Once a prefix of the rows fails, the whole row list fails with the same
/// error.
pub proof fn lemma_tree_rows_err_persists(root: Node, rows: Seq<Seq<i64>>, k: int)
    requires
        0 <= k <= rows.len(),
        spec_tree_rows(root, rows.take(k)) is Err,
    ensures
        spec_tree_rows(root, rows) == spec_tree_rows(root, rows.take(k)),
    decreases rows.len() - k,
{
    if k < rows.len() {
        assert(rows.take(k + 1).drop_last() =~= rows.take(k));
        lemma_tree_rows_err_persists(root, rows, k + 1);
    } else {
        assert(rows.take(k) =~= rows);
    }
}

/// A successful prediction of a well-formed tree yields one bounded effect
/// per row.
pub proof fn lemma_tree_rows_ok(root: Node, d: nat, rows: Seq<Seq<i64>>)
    requires
        node_wf(root, d),
    ensures
        spec_tree_rows(root, rows) matches Ok(ps) ==> ps.len() == rows.len() && forall|i: int|
            0 <= i < ps.len() ==> -2 * MAX_ABS <= #[trigger] ps[i] <= 2 * MAX_ABS,
        (forall|i: int| 0 <= i < rows.len() ==> (#[trigger] rows[i]).len() >= d)
            ==> spec_tree_rows(root, rows) is Ok,
    decreases rows.len(),
{
    if rows.len() > 0 {
        lemma_tree_rows_ok(root, d, rows.drop_last());
        lemma_node_predict_ok(root, d, rows.last());
        assert(forall|i: int|
            0 <= i < rows.drop_last().len() ==> (#[trigger] rows.drop_last()[i]) == rows[i]);
    }
}

/// When the outcome vector is constant, every successful prediction of a
/// tree whose leaves arise from it is zero.
pub proof fn lemma_tree_rows_constant_outcome(
    root: Node,
    t: Seq<bool>,
    y: Seq<i64>,
    n: nat,
    c: i64,
    rows: Seq<Seq<i64>>,
)
    requires
        node_effects_from(root, t, y, n),
        t.len() == y.len(),
        y.len() == n,
        forall|i: int| 0 <= i < y.len() ==> #[trigger] y[i] == c,
    ensures
        spec_tree_rows(root, rows) matches Ok(ps) ==> forall|i: int|
            0 <= i < ps.len() ==> #[trigger] ps[i] == 0,
    decreases rows.len(),
{
    if rows.len() > 0 {
        lemma_tree_rows_constant_outcome(root, t, y, n, c, rows.drop_last());
        lemma_constant_outcome_node_zero(root, t, y, n, c, rows.last());
    }
}

} // verus!
