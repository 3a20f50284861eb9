use ruslingam::util::{
    argsort_desc, lex_less, ordered_pairs, positive_count, ranked_counts, resample_stream, rows_equal,
    unique_rows,
    upper_pairs, Rng,
};

#[test]
fn rng_first_draws_for_seed_zero() {
    let mut rng = Rng::seed_from_u64(0);
    assert_eq!(rng.next_u64(), 11091344671253066420);
    assert_eq!(rng.next_u64(), 13793997310169335082);
    assert_eq!(rng.next_u64(), 1900383378846508768);
}

#[test]
fn rng_first_draws_for_seed_42() {
    let mut rng = Rng::seed_from_u64(42);
    assert_eq!(rng.next_u64(), 1546998764402558742);
    assert_eq!(rng.next_u64(), 6990951692964543102);
    assert_eq!(rng.next_u64(), 12544586762248559009);
}

#[test]
fn rng_same_seed_same_stream() {
    let mut a = Rng::seed_from_u64(2024);
    let mut b = Rng::seed_from_u64(2024);
    for _ in 0..50 {
        assert_eq!(a.next_u64(), b.next_u64());
    }
}

#[test]
fn gen_index_is_draw_modulo_n() {
    let mut rng = Rng::seed_from_u64(42);
    let got: Vec<usize> = (0..8).map(|_| rng.gen_index(10)).collect();
    assert_eq!(got, vec![2, 2, 9, 3, 6, 4, 4, 7]);
}

#[test]
fn gen_index_of_one_is_zero() {
    let mut rng = Rng::seed_from_u64(123);
    for _ in 0..3 {
        assert_eq!(rng.gen_index(1), 0);
    }
}

#[test]
fn resample_indices_matches_gen_index() {
    let mut rng = Rng::seed_from_u64(42);
    assert_eq!(rng.resample_indices(10), vec![2, 2, 9, 3, 6, 4, 4, 7, 8, 5]);
    let mut a = Rng::seed_from_u64(42);
    let first = a.resample_indices(6);
    let second = a.resample_indices(6);
    assert_eq!(first, vec![0, 0, 5, 5, 4, 0]);
    assert_eq!(second, vec![4, 3, 4, 5, 1, 1]);
}

#[test]
fn resample_indices_of_empty_data() {
    let mut rng = Rng::seed_from_u64(9);
    assert!(rng.resample_indices(0).is_empty());
}

#[test]
fn argsort_desc_is_stable_on_ties() {
    assert_eq!(argsort_desc(&[3, 1, 3, 2, 1]), vec![0, 2, 3, 1, 4]);
    assert_eq!(argsort_desc(&[]), Vec::<usize>::new());
    assert_eq!(argsort_desc(&[-5, 7, 0]), vec![1, 2, 0]);
}

#[test]
fn lex_less_orders_like_slices() {
    assert!(lex_less(&vec![1, 2], &vec![1, 3]));
    assert!(lex_less(&vec![1, 2], &vec![1, 2, 0]));
    assert!(!lex_less(&vec![1, 2], &vec![1, 2]));
    assert!(!lex_less(&vec![2], &vec![1, 9]));
    assert!(rows_equal(&vec![4, 5], &vec![4, 5]));
    assert!(!rows_equal(&vec![4, 5], &vec![4]));
}

#[test]
fn unique_rows_sorts_and_counts() {
    let rows = vec![vec![2, 1], vec![0, 1], vec![2, 1], vec![0, 1, 5], vec![0, 1]];
    let (uniq, counts) = unique_rows(rows);
    assert_eq!(uniq, vec![vec![0, 1], vec![0, 1, 5], vec![2, 1]]);
    assert_eq!(counts, vec![2, 1, 2]);
}

#[test]
fn unique_rows_of_nothing() {
    let (uniq, counts) = unique_rows(Vec::new());
    assert!(uniq.is_empty());
    assert!(counts.is_empty());
}

#[test]
fn ranked_counts_orders_by_count_then_rows() {
    let rows = vec![vec![2, 1], vec![0, 1], vec![2, 1], vec![3, 0], vec![0, 1], vec![2, 1]];
    let (ranked, counts) = ranked_counts(rows.clone(), None);
    assert_eq!(ranked, vec![vec![2, 1], vec![0, 1], vec![3, 0]]);
    assert_eq!(counts, vec![3, 2, 1]);
    let (top, top_counts) = ranked_counts(rows, Some(2));
    assert_eq!(top, vec![vec![2, 1], vec![0, 1]]);
    assert_eq!(top_counts, vec![3, 2]);
}

#[test]
fn ordered_pairs_follow_the_order() {
    assert_eq!(ordered_pairs(&vec![2, 0, 1]), vec![(2, 0), (2, 1), (0, 1)]);
    assert!(ordered_pairs(&vec![4]).is_empty());
}

#[test]
fn upper_pairs_row_major() {
    assert_eq!(upper_pairs(3), vec![(0, 1), (0, 2), (1, 2)]);
    assert!(upper_pairs(1).is_empty());
    assert_eq!(upper_pairs(4).len(), 6);
}

#[test]
fn positive_count_rejects_non_positive() {
    assert_eq!(positive_count(0), None);
    assert_eq!(positive_count(-3), None);
    assert_eq!(positive_count(100), Some(100));
}

#[test]
fn resample_stream_continues_one_generator() {
    let draws = resample_stream(42, 6, 2);
    assert_eq!(draws, vec![vec![0, 0, 5, 5, 4, 0], vec![4, 3, 4, 5, 1, 1]]);
    assert_eq!(resample_stream(42, 6, 2), draws);
    assert!(resample_stream(7, 3, 0).is_empty());
}
