use causalflow::errors::CausalFlowError;
use causalflow::forest::CausalForest;
use causalflow::linear::LinearCausalModel;
use causalflow::model::CausalModel;
use causalflow::num::Num;
use causalflow::num::SCALE;
use causalflow::validation::robust_decision;
use causalflow::validation::validate_causal_structure;

fn fin(m: i64) -> Num {
    Num::Finite(m)
}

#[test]
fn linear_model_learns_the_average_effect() {
    let x = vec![vec![fin(0)], vec![fin(SCALE)], vec![fin(2 * SCALE)], vec![fin(3 * SCALE)]];
    let t = vec![fin(0), fin(SCALE), fin(0), fin(SCALE)];
    // treated outcomes 2.0 and 4.0, control outcomes 1.0 and 1.0
    let y = vec![fin(SCALE), fin(2 * SCALE), fin(SCALE), fin(4 * SCALE)];
    let mut model = LinearCausalModel::new();
    assert_eq!(model.coef, 0);
    model.fit(&x, &t, &y).unwrap();
    assert_eq!(model.coef, 2 * SCALE);
}

#[test]
fn linear_model_predicts_its_coefficient_uniformly() {
    let x = vec![vec![fin(0), fin(0)], vec![fin(SCALE), fin(SCALE)]];
    let t = vec![fin(0), fin(SCALE)];
    let y = vec![fin(0), fin(SCALE)];
    let mut model = LinearCausalModel::new();
    model.fit(&x, &t, &y).unwrap();
    assert_eq!(model.coef, SCALE);
    let res = model.predict(&x).unwrap();
    assert_eq!(res.predictions, vec![SCALE, SCALE]);
    assert_eq!(res.mean_effect, SCALE);
    assert_eq!(res.confidence_intervals, vec![(900_000, 1_100_000), (900_000, 1_100_000)]);
    assert_eq!(res.feature_importance, vec![0, 0]);
}

#[test]
fn linear_model_validates_its_inputs() {
    let x = vec![vec![fin(0)]];
    let t = vec![fin(250_000)];
    let y = vec![fin(0)];
    let mut model = LinearCausalModel::new();
    let err = model.fit(&x, &t, &y).unwrap_err();
    assert_eq!(err, CausalFlowError::InvalidTreatment(Num::Finite(250_000)));
    assert_eq!(model.coef, 0);
}

#[test]
fn robust_decision_relative_threshold() {
    // placebo must be below one fifth of the original effect
    assert!(robust_decision(10_000, 100_000));
    assert!(robust_decision(19_999, 100_000));
    assert!(!robust_decision(20_000, 100_000));
    assert!(!robust_decision(100_000, 100_000));
    // signs do not matter, only magnitudes
    assert!(robust_decision(-10_000, -100_000));
    assert!(!robust_decision(-20_000, 100_000));
}

#[test]
fn robust_decision_absolute_threshold_when_no_effect() {
    assert!(robust_decision(0, 0));
    assert!(robust_decision(49_999, 0));
    assert!(!robust_decision(50_000, 0));
    assert!(!robust_decision(-50_000, 0));
}

#[test]
fn placebo_check_reports_a_verdict_with_its_message() {
    let mut x = Vec::new();
    let mut t = Vec::new();
    let mut y = Vec::new();
    for i in 0..30i64 {
        x.push(vec![fin(i * SCALE)]);
        t.push(if i % 2 == 0 { fin(0) } else { fin(SCALE) });
        y.push(if i % 2 == 0 { fin(0) } else { fin(3 * SCALE) });
    }
    let mut forest = CausalForest::new(4, 3, 1);
    forest.seed = 5;
    forest.fit(&x, &t, &y).unwrap();
    let report = validate_causal_structure(&forest, &x, &t, &y, 5).unwrap();
    if report.is_robust {
        assert!(report.message.starts_with("Causal structure looks robust"));
    } else {
        assert!(report.message.starts_with("Warning"));
    }
}

#[test]
fn placebo_check_requires_a_fitted_forest() {
    let forest = CausalForest::new(2, 2, 1);
    let x = vec![vec![fin(0)]];
    let t = vec![fin(0)];
    let y = vec![fin(0)];
    let err = validate_causal_structure(&forest, &x, &t, &y, 5).unwrap_err();
    assert_eq!(err, CausalFlowError::ModelNotFitted);
}
