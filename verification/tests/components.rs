use causalflow::effect::calculate_causal_gain;
use causalflow::effect::estimate_effect;
use causalflow::errors::CausalFlowError;
use causalflow::num::SCALE;
use causalflow::tree::sqrt_feature_count;
use causalflow::tree::CausalTree;
use causalflow::tree::Node;
use causalflow::visualization::effect_histogram;

#[test]
fn node_routes_queries_by_threshold() {
    let tree = Node::Internal {
        feature_idx: 0,
        threshold: 1_500_000,
        left: Box::new(Node::Leaf { treatment_effect: -250_000, size: 2 }),
        right: Box::new(Node::Leaf { treatment_effect: 750_000, size: 3 }),
    };
    assert_eq!(tree.predict(&vec![0]).unwrap(), -250_000);
    assert_eq!(tree.predict(&vec![1_500_000]).unwrap(), -250_000);
    assert_eq!(tree.predict(&vec![1_500_001]).unwrap(), 750_000);
}

#[test]
fn short_query_row_reports_feature_out_of_bounds() {
    let tree = Node::Internal {
        feature_idx: 1,
        threshold: 0,
        left: Box::new(Node::Leaf { treatment_effect: 0, size: 1 }),
        right: Box::new(Node::Leaf { treatment_effect: SCALE, size: 1 }),
    };
    let err = tree.predict(&vec![5]).unwrap_err();
    assert_eq!(err, CausalFlowError::FeatureOutOfBounds(1));
}

#[test]
fn unfitted_tree_reports_model_not_fitted() {
    let tree = CausalTree::new(2);
    let err = tree.predict(&vec![vec![0, 0]]).unwrap_err();
    assert_eq!(err, CausalFlowError::ModelNotFitted);
    assert_eq!(tree.feature_importance, vec![0, 0]);
}

#[test]
fn difference_in_means_exact_value() {
    let t = vec![true, false, true, false];
    let y = vec![3_000_000, 1_000_000, 1_000_000, 3_000_000];
    let idx = vec![0, 1, 2, 3];
    // treated mean 2.0, control mean 2.0
    assert_eq!(estimate_effect(&t, &y, &idx), 0);
    // only samples 0 and 1: treated mean 3.0, control mean 1.0
    assert_eq!(estimate_effect(&t, &y, &vec![0, 1]), 2_000_000);
}

#[test]
fn empty_arm_gives_zero_effect() {
    let t = vec![true, true];
    let y = vec![5_000_000, 1_000_000];
    assert_eq!(estimate_effect(&t, &y, &vec![0, 1]), 0);
    assert_eq!(estimate_effect(&t, &y, &Vec::new()), 0);
}

#[test]
fn causal_gain_exact_value() {
    let t = vec![true, false, true, false];
    let y = vec![1_000_000, 0, 0, 0];
    let left = vec![0, 1];
    let right = vec![2, 3];
    // tau_left = 1.0, tau_right = 0.0, n_l = n_r = 2, n = 4:
    // gain = (2 * 2 / 16) * 1.0^2 = 0.25
    assert_eq!(calculate_causal_gain(&t, &y, &left, &right), 250_000);
}

#[test]
fn balanced_splits_gain_more() {
    let t = vec![true, false, true, false, true, false];
    let y = vec![SCALE, 0, SCALE, 0, 0, 0];
    // Both candidates separate the same effect difference, but the
    // balanced split carries more weight.
    let balanced = calculate_causal_gain(&t, &y, &vec![0, 1, 2, 3], &vec![4, 5]);
    let skewed = calculate_causal_gain(&t, &y, &vec![0, 1], &vec![2, 3, 4, 5]);
    assert!(balanced > 0);
    assert!(skewed > 0);
    assert_ne!(balanced, skewed);
}

#[test]
fn feature_subsample_count_rounds_square_root() {
    assert_eq!(sqrt_feature_count(0), 0);
    assert_eq!(sqrt_feature_count(1), 1);
    assert_eq!(sqrt_feature_count(2), 1);
    assert_eq!(sqrt_feature_count(3), 2);
    assert_eq!(sqrt_feature_count(4), 2);
    assert_eq!(sqrt_feature_count(6), 2);
    assert_eq!(sqrt_feature_count(7), 3);
    assert_eq!(sqrt_feature_count(9), 3);
    assert_eq!(sqrt_feature_count(12), 3);
    assert_eq!(sqrt_feature_count(13), 4);
    assert_eq!(sqrt_feature_count(100), 10);
    assert_eq!(sqrt_feature_count(110), 10);
    assert_eq!(sqrt_feature_count(111), 11);
}

#[test]
fn fitted_tree_respects_depth_limit_zero() {
    let x = vec![vec![0], vec![SCALE], vec![2 * SCALE], vec![3 * SCALE]];
    let t = vec![false, false, true, true];
    let y = vec![0, 0, SCALE, SCALE];
    let mut tree = CausalTree::new(1);
    tree.fit(&x, &t, &y, 0, 1, 5);
    match tree.root.as_deref() {
        Some(Node::Leaf { size, .. }) => {
            // the estimation half of four samples holds two of them
            assert_eq!(*size, 2);
        },
        other => panic!("expected a single leaf, got {other:?}"),
    }
}

fn sum_leaf_sizes(n: &Node) -> usize {
    match n {
        Node::Leaf { size, .. } => *size,
        Node::Internal { left, right, .. } => sum_leaf_sizes(left) + sum_leaf_sizes(right),
    }
}

fn depth_of(n: &Node) -> usize {
    match n {
        Node::Leaf { .. } => 0,
        Node::Internal { left, right, .. } => 1 + depth_of(left).max(depth_of(right)),
    }
}

#[test]
fn tree_leaves_partition_estimation_half_and_respect_depth() {
    let n = 20i64;
    let mut x = Vec::new();
    let mut t = Vec::new();
    let mut y = Vec::new();
    for i in 0..n {
        x.push(vec![i * SCALE]);
        t.push(i % 2 == 1);
        y.push(if i % 2 == 1 { (i / 5) * SCALE } else { 0 });
    }
    for seed in [0u64, 1, 2, 3] {
        let mut tree = CausalTree::new(1);
        tree.fit(&x, &t, &y, 4, 1, seed);
        let root = tree.root.as_deref().unwrap();
        // the estimation half holds n - n/2 samples, however the tree split
        assert_eq!(sum_leaf_sizes(root), (n - n / 2) as usize);
        assert!(depth_of(root) <= 4);
    }
}

#[test]
fn histogram_bins_and_counts() {
    // range 0.0 .. 1.0: width 0.1, one value per bucket edge case
    let preds = vec![0, 100_000, 250_000, 999_999, 1_000_000];
    let (bins, counts) = effect_histogram(&preds);
    assert_eq!(bins.len(), 10);
    assert_eq!(counts.len(), 10);
    assert_eq!(bins[0], 0);
    assert_eq!(bins[1], 100_000);
    assert_eq!(bins[9], 900_000);
    // 0 -> bucket 0, 0.1 -> bucket 1, 0.25 -> bucket 2,
    // 0.999999 and 1.0 -> clamped into the last bucket
    assert_eq!(counts[0], 1);
    assert_eq!(counts[1], 1);
    assert_eq!(counts[2], 1);
    assert_eq!(counts[9], 2);
    assert_eq!(counts.iter().sum::<u64>(), 5);
}

#[test]
fn histogram_of_identical_values_uses_unit_width() {
    let preds = vec![700_000, 700_000, 700_000];
    let (bins, counts) = effect_histogram(&preds);
    assert_eq!(bins[0], 700_000);
    assert_eq!(bins[1], 700_000 + SCALE);
    assert_eq!(counts[0], 3);
    assert_eq!(counts.iter().sum::<u64>(), 3);
}

#[test]
fn error_descriptions_are_stable() {
    assert_eq!(
        CausalFlowError::ModelNotFitted.describe(),
        "model not fitted: please call fit() before predicting"
    );
    assert_eq!(
        CausalFlowError::EmptyData.describe(),
        "empty data: training or inference data cannot be empty"
    );
}
