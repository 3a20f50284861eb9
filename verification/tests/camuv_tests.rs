use ruslingam::camuv::{
    adjacency_marks, check_correlation, check_identified_causality, check_prior_knowledge,
    combinations, confounder_candidates, eligible_children, explanatory_columns,
    neighborhoods_from_tests, without, EdgeMark, ParentSearch, PriorKnowledge, SearchStep,
};

#[test]
fn combinations_match_itertools_order() {
    // itertools.combinations(range(4), 2)
    let expected = vec![
        vec![0, 1],
        vec![0, 2],
        vec![0, 3],
        vec![1, 2],
        vec![1, 3],
        vec![2, 3],
    ];
    assert_eq!(combinations(4, 2), expected);
}

#[test]
fn combinations_size_equals_d() {
    assert_eq!(combinations(3, 3), vec![vec![0, 1, 2]]);
}

#[test]
fn combinations_t_greater_than_d_is_empty() {
    assert!(combinations(2, 3).is_empty());
}

#[test]
fn combinations_of_size_zero_is_the_empty_set() {
    assert_eq!(combinations(3, 0), vec![Vec::<usize>::new()]);
    assert_eq!(combinations(5, 3).len(), 10);
}

#[test]
fn check_identified_causality_detects_known_edge() {
    let mut p = vec![vec![false; 3]; 3];
    p[1][0] = true; // 0 is a parent of 1
    assert!(!check_identified_causality(&vec![0, 1], &p));
    assert!(check_identified_causality(&vec![0, 2], &p));
}

#[test]
fn prior_knowledge_blocks_forbidden_parent() {
    let pk = PriorKnowledge::from_pairs(vec![vec![0, 3]]).unwrap(); // 0 cannot cause 3
    let xj_list = vec![0, 2];
    assert!(check_prior_knowledge(Some(&pk), &xj_list, 3));
    assert!(!check_prior_knowledge(Some(&pk), &xj_list, 1));
    assert!(!check_prior_knowledge(None, &xj_list, 3));
}

#[test]
fn prior_knowledge_entries_must_be_pairs() {
    assert_eq!(PriorKnowledge::from_pairs(vec![vec![0, 1], vec![2], vec![1, 2]]).unwrap_err(), 1);
    assert!(PriorKnowledge::from_pairs(vec![]).is_ok());
}

#[test]
fn check_correlation_needs_all_neighbours() {
    let nb = vec![vec![false, true, true], vec![true, false, false], vec![true, false, false]];
    assert!(check_correlation(0, &vec![1, 2], &nb));
    assert!(!check_correlation(1, &vec![0, 2], &nb));
    assert!(check_correlation(2, &vec![], &nb));
}

#[test]
fn neighborhoods_are_symmetric() {
    let pairs = vec![(0, 1), (0, 2), (1, 2)];
    let nb = neighborhoods_from_tests(3, &pairs, &vec![true, false, true]);
    assert_eq!(nb, vec![vec![false, true, false], vec![true, false, true], vec![false, true, false]]);
}

#[test]
fn eligible_children_apply_both_checks() {
    let nb = vec![vec![false, true, true], vec![true, false, true], vec![true, true, false]];
    assert_eq!(eligible_children(&vec![0, 1, 2], &nb, None), vec![0, 1, 2]);
    let pk = PriorKnowledge::from_pairs(vec![vec![2, 0]]).unwrap();
    assert_eq!(eligible_children(&vec![0, 1, 2], &nb, Some(&pk)), vec![1, 2]);
    let sparse = vec![vec![false, true, false], vec![true, false, true], vec![false, true, false]];
    assert_eq!(eligible_children(&vec![0, 1, 2], &sparse, None), vec![1]);
}

#[test]
fn regressors_of_a_child() {
    let mut p = vec![vec![false; 4]; 4];
    p[2][3] = true;
    assert_eq!(without(&vec![0, 2, 1], 2), vec![0, 1]);
    assert_eq!(explanatory_columns(2, &vec![0, 2], &p), vec![0, 3]);
    assert_eq!(explanatory_columns(0, &vec![0, 2], &p), vec![2]);
}

/// Every pair of `d` variables found dependent.
fn all_neighbours(d: usize) -> Vec<Vec<bool>> {
    (0..d).map(|i| (0..d).map(|j| i != j).collect()).collect()
}

#[test]
fn parent_search_walks_the_passes() {
    let mut s = ParentSearch::new(3, 2, &all_neighbours(3), None);
    match s.step() {
        SearchStep::Examine(set) => assert_eq!(set, vec![0, 1]),
        other => panic!("unexpected {:?}", other),
    }
    s.add_parents(1);
    assert_eq!(s.parents_of(1), vec![0]);
    assert!(matches!(s.step(), SearchStep::Examine(ref set) if *set == vec![0, 2]));
    assert!(matches!(s.step(), SearchStep::Examine(ref set) if *set == vec![1, 2]));
    // The pass changed the pattern, so pairs are tried again.
    assert!(matches!(s.step(), SearchStep::NewPass));
    assert!(matches!(s.step(), SearchStep::Skipped));
    assert!(matches!(s.step(), SearchStep::Examine(_)));
    assert!(matches!(s.step(), SearchStep::Examine(_)));
    assert!(matches!(s.step(), SearchStep::Finished));
    assert!(matches!(s.step(), SearchStep::Finished));
    s.remove_parents(1, &vec![0]);
    assert!(s.parents_of(1).is_empty());
}

#[test]
fn parent_search_grows_the_sets() {
    let mut s = ParentSearch::new(3, 3, &all_neighbours(3), None);
    for _ in 0..3 {
        assert!(matches!(s.step(), SearchStep::Examine(_)));
    }
    assert!(matches!(s.step(), SearchStep::NewPass));
    assert!(matches!(s.step(), SearchStep::Examine(ref set) if *set == vec![0, 1, 2]));
    s.add_parents(2);
    assert_eq!(s.parents_of(2), vec![0, 1]);
    assert_eq!(s.parents(), &vec![vec![false; 3], vec![false; 3], vec![true, true, false]]);
}

#[test]
fn confounders_and_adjacency_marks() {
    let mut p = vec![vec![false; 3]; 3];
    p[1][0] = true;
    let nb = vec![vec![false, true, true], vec![true, false, true], vec![true, true, false]];
    let cands = confounder_candidates(&p, &nb);
    assert_eq!(cands, vec![(0, 2), (1, 2)]);
    let b = adjacency_marks(&p, &cands, &vec![false, true]);
    assert_eq!(b[1][0], EdgeMark::Direct);
    assert_eq!(b[1][2], EdgeMark::Confounded);
    assert_eq!(b[2][1], EdgeMark::Confounded);
    assert_eq!(b[0][2], EdgeMark::Absent);
    assert_eq!(b[0][1], EdgeMark::Absent);
}
