use causalflow::errors::CausalFlowError;
use causalflow::forest::CausalForest;
use causalflow::num::Num;
use causalflow::num::SCALE;

fn fin(m: i64) -> Num {
    Num::Finite(m)
}

fn one() -> Num {
    Num::Finite(SCALE)
}

fn zero() -> Num {
    Num::Finite(0)
}

fn simple_data() -> (Vec<Vec<Num>>, Vec<Num>, Vec<Num>) {
    let x = vec![
        vec![fin(0)],
        vec![fin(1_000_000)],
        vec![fin(2_000_000)],
        vec![fin(3_000_000)],
    ];
    let t = vec![zero(), zero(), one(), one()];
    let y = vec![zero(), zero(), one(), one()];
    (x, t, y)
}

#[test]
fn predictions_length_matches_query_rows() {
    let (x, t, y) = simple_data();
    let mut forest = CausalForest::new(3, 2, 1);
    forest.fit(&x, &t, &y).unwrap();
    let query = vec![vec![fin(500_000)], vec![fin(2_500_000)], vec![fin(9_000_000)]];
    let res = forest.predict(&query).unwrap();
    assert_eq!(res.predictions.len(), 3);
    assert_eq!(res.confidence_intervals.len(), 3);
    assert_eq!(res.feature_importance.len(), 1);
}

#[test]
fn predict_is_deterministic_and_idempotent() {
    let (x, t, y) = simple_data();
    let mut forest = CausalForest::new(4, 3, 1);
    forest.seed = 7;
    forest.fit(&x, &t, &y).unwrap();
    let r1 = forest.predict(&x).unwrap();
    let r2 = forest.predict(&x).unwrap();
    assert_eq!(r1.predictions, r2.predictions);
    assert_eq!(r1.mean_effect, r2.mean_effect);
    assert_eq!(r1.confidence_intervals, r2.confidence_intervals);
    assert_eq!(r1.feature_importance, r2.feature_importance);
}

#[test]
fn importance_sums_to_one_when_a_split_gained() {
    // Two features; the first cleanly separates a strong treatment effect,
    // so some tree should find a positive-gain split.
    let mut x = Vec::new();
    let mut t = Vec::new();
    let mut y = Vec::new();
    for i in 0..40i64 {
        x.push(vec![fin(i * SCALE), fin((i % 2) * SCALE)]);
        t.push(if i % 2 == 0 { zero() } else { one() });
        // Strong heterogeneity along feature 0: treated outcome grows with it.
        let base = if i % 2 == 1 { (i / 10) * SCALE } else { 0 };
        y.push(fin(base));
    }
    let mut forest = CausalForest::new(8, 4, 2);
    forest.seed = 11;
    forest.fit(&x, &t, &y).unwrap();
    let res = forest.predict(&x).unwrap();
    let total: i64 = res.feature_importance.iter().sum();
    let d = res.feature_importance.len() as i64;
    assert!(res.feature_importance.iter().any(|&v| v > 0));
    assert!(total >= SCALE - d && total <= SCALE, "total importance {total}");
    for &v in &res.feature_importance {
        assert!(v >= 0);
    }
}

#[test]
fn importance_all_zero_without_splits() {
    let (x, t, y) = simple_data();
    let mut forest = CausalForest::new(5, 0, 1);
    forest.fit(&x, &t, &y).unwrap();
    let res = forest.predict(&x).unwrap();
    assert!(res.feature_importance.iter().all(|&v| v == 0));
}

#[test]
fn depth_zero_single_tree_predicts_one_constant() {
    let (x, t, y) = simple_data();
    let mut forest = CausalForest::new(1, 0, 1);
    forest.seed = 3;
    forest.fit(&x, &t, &y).unwrap();
    let res = forest.predict(&x).unwrap();
    // One tree, one leaf: every prediction is that leaf's effect, and the
    // mean equals it exactly.
    let first = res.predictions[0];
    assert!(res.predictions.iter().all(|&p| p == first));
    assert_eq!(res.mean_effect, first);
}

#[test]
fn half_treatment_rejected_and_state_untouched() {
    let (x, _, y) = simple_data();
    let t = vec![zero(), fin(500_000), one(), one()];
    let mut forest = CausalForest::new(3, 2, 1);
    let err = forest.fit(&x, &t, &y).unwrap_err();
    assert_eq!(err, CausalFlowError::InvalidTreatment(Num::Finite(500_000)));
    assert!(!forest.fitted);
    assert!(forest.trees.is_empty());
    assert_eq!(forest.n_features, 0);
}

#[test]
fn predict_before_fit_reports_model_not_fitted() {
    let forest = CausalForest::new(10, 5, 5);
    let err = forest.predict(&vec![vec![fin(0)]]).unwrap_err();
    assert_eq!(err, CausalFlowError::ModelNotFitted);
}

#[test]
fn seeded_split_separates_treatment_arms() {
    // X = [[0],[1],[2],[3]], T = [0,0,1,1], Y = [0,0,1,1]: with one shallow
    // tree and a seed whose sample split mixes the arms, the fitted tree
    // splits near the middle of the feature range and the average effect
    // over X lies strictly between 0 and 1.
    let (x, t, y) = simple_data();
    let mut forest = CausalForest::new(1, 1, 1);
    forest.seed = 2;
    forest.fit(&x, &t, &y).unwrap();
    let res = forest.predict(&x).unwrap();
    assert!(res.mean_effect > 0, "mean effect {}", res.mean_effect);
    assert!(res.mean_effect < SCALE, "mean effect {}", res.mean_effect);
}

#[test]
fn constant_outcome_gives_zero_effect_everywhere() {
    let mut x = Vec::new();
    let mut t = Vec::new();
    let y_val = fin(700_000);
    let mut y = Vec::new();
    for i in 0..20i64 {
        x.push(vec![fin(i * SCALE), fin((7 * i % 5) * SCALE)]);
        t.push(if i % 3 == 0 { one() } else { zero() });
        y.push(y_val);
    }
    for (n_estimators, max_depth, min_leaf) in [(1, 0, 1), (4, 3, 1), (7, 5, 2)] {
        let mut forest = CausalForest::new(n_estimators, max_depth, min_leaf);
        forest.seed = 42;
        forest.fit(&x, &t, &y).unwrap();
        let res = forest.predict(&x).unwrap();
        assert!(res.predictions.iter().all(|&p| p == 0));
        assert_eq!(res.mean_effect, 0);
    }
}

#[test]
fn empty_data_rejected() {
    let mut forest = CausalForest::new(2, 2, 1);
    let err = forest.fit(&Vec::new(), &Vec::new(), &Vec::new()).unwrap_err();
    assert_eq!(err, CausalFlowError::EmptyData);
    assert!(!forest.fitted);
}

#[test]
fn non_finite_values_rejected() {
    let (x, t, mut y) = simple_data();
    y[2] = Num::NonFinite;
    let mut forest = CausalForest::new(2, 2, 1);
    assert_eq!(forest.fit(&x, &t, &y).unwrap_err(), CausalFlowError::InvalidData);

    let (mut x2, t2, y2) = simple_data();
    // A magnitude beyond the representable domain counts as non-finite.
    x2[0][0] = fin(2_000_000_000_000);
    assert_eq!(forest.fit(&x2, &t2, &y2).unwrap_err(), CausalFlowError::InvalidData);
    assert!(!forest.fitted);
}

#[test]
fn invalid_query_values_rejected() {
    let (x, t, y) = simple_data();
    let mut forest = CausalForest::new(2, 2, 1);
    forest.fit(&x, &t, &y).unwrap();
    let query = vec![vec![Num::NonFinite]];
    assert_eq!(forest.predict(&query).unwrap_err(), CausalFlowError::InvalidData);
}

#[test]
fn confidence_intervals_are_fixed_width_around_predictions() {
    let (x, t, y) = simple_data();
    let mut forest = CausalForest::new(3, 2, 1);
    forest.fit(&x, &t, &y).unwrap();
    let res = forest.predict(&x).unwrap();
    for (i, &(lo, hi)) in res.confidence_intervals.iter().enumerate() {
        assert_eq!(lo, res.predictions[i] - 100_000);
        assert_eq!(hi, res.predictions[i] + 100_000);
    }
}

#[test]
fn mean_effect_is_average_of_predictions() {
    let (x, t, y) = simple_data();
    let mut forest = CausalForest::new(5, 3, 1);
    forest.seed = 9;
    forest.fit(&x, &t, &y).unwrap();
    let res = forest.predict(&x).unwrap();
    let sum: i128 = res.predictions.iter().map(|&p| p as i128).sum();
    let expected = (sum / res.predictions.len() as i128) as i64;
    assert_eq!(res.mean_effect, expected);
}

#[test]
fn zero_estimators_predicts_zero_vectors() {
    let (x, t, y) = simple_data();
    let mut forest = CausalForest::new(0, 3, 1);
    forest.fit(&x, &t, &y).unwrap();
    let res = forest.predict(&x).unwrap();
    assert_eq!(res.predictions, vec![0, 0, 0, 0]);
    assert_eq!(res.mean_effect, 0);
}

#[test]
fn refit_replaces_trees() {
    let (x, t, y) = simple_data();
    let mut forest = CausalForest::new(3, 2, 1);
    forest.fit(&x, &t, &y).unwrap();
    assert_eq!(forest.trees.len(), 3);
    forest.n_estimators = 5;
    forest.fit(&x, &t, &y).unwrap();
    assert_eq!(forest.trees.len(), 5);
    assert_eq!(forest.n_features, 1);
}
