use ruslingam::direct_lingam::{
    extract_partial_orders, search_candidate_soft, OrderSearch, PriorKnowledge, PriorKnowledgeError,
};

/// A `p × p` knowledge matrix with every entry unknown (`-1`).
fn pk_unknown(p: usize) -> Vec<Vec<i64>> {
    vec![vec![-1; p]; p]
}

#[test]
fn extract_partial_orders_from_paths() {
    let mut pk = pk_unknown(3);
    pk[1][0] = 1; // 0 -> 1
    pk[2][1] = 1; // 1 -> 2
    let po = extract_partial_orders(&pk).unwrap();
    assert_eq!(po, vec![(0, 1), (1, 2)]);
}

#[test]
fn extract_partial_orders_from_no_path() {
    let mut pk = pk_unknown(2);
    pk[0][1] = 0; // 1 does NOT -> 0
    let po = extract_partial_orders(&pk).unwrap();
    assert_eq!(po, vec![(0, 1)]);
}

#[test]
fn extract_partial_orders_rejects_inconsistency() {
    let mut pk = pk_unknown(2);
    pk[0][1] = 1; // 1 -> 0
    pk[1][0] = 1; // 0 -> 1
    assert!(extract_partial_orders(&pk).is_err());
}

#[test]
fn inconsistency_lists_both_directions() {
    let mut pk = pk_unknown(3);
    pk[0][2] = 1;
    pk[2][0] = 1;
    pk[1][0] = 1;
    assert_eq!(extract_partial_orders(&pk), Err(vec![(0, 2), (2, 0)]));
}

#[test]
fn symmetric_no_path_cancels_out() {
    let mut pk = pk_unknown(3);
    pk[2][1] = 0;
    pk[1][2] = 0;
    assert_eq!(extract_partial_orders(&pk), Ok(vec![]));
}

#[test]
fn partial_orders_sorted_by_target() {
    let mut pk = pk_unknown(3);
    pk[0][2] = 1; // 2 -> 0
    pk[1][2] = 1; // 2 -> 1
    pk[0][1] = 1; // 1 -> 0
    assert_eq!(extract_partial_orders(&pk), Ok(vec![(1, 0), (2, 0), (2, 1)]));
}

#[test]
fn prior_knowledge_shape_is_checked() {
    assert!(PriorKnowledge::new(pk_unknown(3), false, 4).is_err());
}

#[test]
fn prior_knowledge_ragged_rows_are_a_shape_error() {
    let pk = vec![vec![-1, -1], vec![-1]];
    assert!(matches!(PriorKnowledge::new(pk, false, 2), Err(PriorKnowledgeError::Shape)));
}

#[test]
fn prior_knowledge_reports_inconsistency() {
    let mut pk = pk_unknown(2);
    pk[0][1] = 1;
    pk[1][0] = 1;
    match PriorKnowledge::new(pk, false, 2) {
        Err(PriorKnowledgeError::Inconsistent(pairs)) => assert_eq!(pairs, vec![(0, 1), (1, 0)]),
        other => panic!("expected an inconsistency, got {:?}", other),
    }
}

#[test]
fn soft_prior_knowledge_rejects_inconsistency_too() {
    let mut pk = pk_unknown(3);
    pk[0][2] = 1;
    pk[2][0] = 1;
    match PriorKnowledge::new(pk, true, 3) {
        Err(PriorKnowledgeError::Inconsistent(pairs)) => assert_eq!(pairs, vec![(0, 2), (2, 0)]),
        other => panic!("expected an inconsistency, got {:?}", other),
    }
}

#[test]
fn soft_prior_knowledge_keeps_matrix_and_no_orders() {
    let mut pk = pk_unknown(2);
    pk[1][0] = 1;
    let knowledge = PriorKnowledge::new(pk.clone(), true, 2).unwrap();
    assert!(knowledge.is_soft());
    assert_eq!(knowledge.entries(), &pk);
    assert!(knowledge.partial_orders().is_empty());
}

#[test]
fn search_candidate_soft_on_chain() {
    let mut pk = pk_unknown(3);
    pk[1][0] = 1;
    pk[2][1] = 1;
    assert_eq!(search_candidate_soft(&vec![0, 1, 2], &pk), (vec![0], vec![]));
    assert_eq!(search_candidate_soft(&vec![1, 2], &pk), (vec![1], vec![]));
}

#[test]
fn search_candidate_soft_prefers_exogenous() {
    // x0 has no incoming edge at all: it is the only exogenous variable.
    let pk = vec![vec![0, 0, 0], vec![1, -1, -1], vec![-1, -1, -1]];
    assert_eq!(search_candidate_soft(&vec![0, 1, 2], &pk), (vec![0], vec![]));
}

#[test]
fn order_search_without_knowledge_offers_everything() {
    let mut s = OrderSearch::new(3, None);
    assert_eq!(s.remaining(), &vec![0, 1, 2]);
    assert_eq!(s.candidates().0, vec![0, 1, 2]);
    s.place(1);
    assert_eq!(s.remaining(), &vec![0, 2]);
    assert_eq!(s.placed(), &vec![1]);
    assert_eq!(s.candidates().0, vec![0, 2]);
}

#[test]
fn hard_prior_knowledge_forces_reverse_order() {
    let mut pk = pk_unknown(3);
    pk[0][2] = 1; // 2 -> 0
    pk[1][2] = 1; // 2 -> 1
    pk[0][1] = 1; // 1 -> 0
    let knowledge = PriorKnowledge::new(pk, false, 3).unwrap();
    let mut s = OrderSearch::new(3, Some(&knowledge));
    assert_eq!(s.candidates().0, vec![2]);
    s.place(2);
    assert_eq!(s.candidates().0, vec![1]);
    s.place(1);
    assert_eq!(s.candidates().0, vec![0]);
    s.place(0);
    assert_eq!(s.placed(), &vec![2, 1, 0]);
    assert!(s.remaining().is_empty());
}

#[test]
fn soft_prior_knowledge_orders_chain() {
    let mut pk = pk_unknown(3);
    pk[1][0] = 1; // 0 -> 1
    pk[2][1] = 1; // 1 -> 2
    let knowledge = PriorKnowledge::new(pk, true, 3).unwrap();
    let mut s = OrderSearch::new(3, Some(&knowledge));
    let mut order = Vec::new();
    for _ in 0..3 {
        let (uc, _) = s.candidates();
        assert_eq!(uc.len(), 1);
        s.place(uc[0]);
        order.push(uc[0]);
    }
    assert_eq!(order, vec![0, 1, 2]);
    assert_eq!(s.placed(), &vec![0, 1, 2]);
}
