use ruslingam::adjacency::{adjacency_predictors, total_effect_predictors};
use ruslingam::direct_lingam::PriorKnowledge;

#[test]
fn predictors_are_the_earlier_variables() {
    let order = vec![2, 0, 1];
    assert!(adjacency_predictors(&order, 0, None).is_empty());
    assert_eq!(adjacency_predictors(&order, 1, None), vec![2]);
    assert_eq!(adjacency_predictors(&order, 2, None), vec![2, 0]);
}

#[test]
fn hard_prior_knowledge_prunes_adjacency() {
    let mut pk = vec![vec![-1; 3]; 3];
    pk[2][1] = 0;
    pk[1][2] = 0;
    let knowledge = PriorKnowledge::new(pk, false, 3).unwrap();
    let order = vec![0, 1, 2];
    // x2 keeps x0 as a regressor but not x1, which has no path to it.
    assert_eq!(adjacency_predictors(&order, 2, Some(&knowledge)), vec![0]);
    assert_eq!(adjacency_predictors(&order, 1, Some(&knowledge)), vec![0]);
}

#[test]
fn total_effect_regressors_and_order_check() {
    let order = vec![0, 1, 2];
    let row = vec![false, false, true, true];
    let (preds, ok) = total_effect_predictors(&order, 1, 2, &row);
    assert_eq!(preds, vec![1, 2, 3]);
    assert!(ok);
    let (preds_back, ok_back) = total_effect_predictors(&order, 2, 0, &vec![false; 3]);
    assert_eq!(preds_back, vec![2]);
    assert!(!ok_back);
    let (_, same) = total_effect_predictors(&order, 1, 1, &vec![false; 3]);
    assert!(same);
}
