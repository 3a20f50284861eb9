use ruslingam::bootstrap::{
    causal_direction_counts, dag_counts, dag_edges, edge_frequencies, find_all_paths, path_key_of,
    rank_paths, ranked_directions,
};

/// Edges of `b` whose coefficient exceeds `min_effect` in absolute value:
/// `hits[i][j]` is the edge `j -> i`.
fn hits_of(b: &[Vec<f64>], min_effect: f64) -> Vec<Vec<bool>> {
    b.iter().map(|row| row.iter().map(|v| v.abs() > min_effect).collect()).collect()
}

/// Product of the coefficients along a path.
fn path_effect(b: &[Vec<f64>], path: &[usize]) -> f64 {
    let mut prod = 1.0;
    for w in path.windows(2) {
        prod *= b[w[1]][w[0]];
    }
    prod
}

#[test]
fn paths_and_total_effect_on_3x3() {
    // edges: 0->1 (2.0), 1->2 (-3.0), 0->2 (0.5)  [B[i,j] is edge j->i]
    let b = vec![vec![0.0, 0.0, 0.0], vec![2.0, 0.0, 0.0], vec![0.5, -3.0, 0.0]];
    let paths = find_all_paths(&hits_of(&b, 0.0), 0, 2);
    assert_eq!(paths, vec![vec![0, 1, 2], vec![0, 2]]);
    let effects: Vec<f64> = paths.iter().map(|p| path_effect(&b, p)).collect();
    assert!((effects[0] - (2.0 * -3.0)).abs() < 1e-12);
    assert!((effects[1] - 0.5).abs() < 1e-12);
    let total: f64 = effects.iter().sum();
    assert!((total - (-5.5)).abs() < 1e-12);
}

#[test]
fn min_effect_filters_edges() {
    let b = vec![vec![0.0, 0.0, 0.0], vec![2.0, 0.0, 0.0], vec![0.05, -3.0, 0.0]];
    let paths = find_all_paths(&hits_of(&b, 0.1), 0, 2);
    assert_eq!(paths, vec![vec![0, 1, 2]]);
}

#[test]
fn path_to_itself_is_the_single_node() {
    let hits = vec![vec![false, true], vec![true, false]];
    assert_eq!(find_all_paths(&hits, 1, 1), vec![vec![1]]);
}

#[test]
fn cycles_are_not_followed() {
    // 0 -> 1, 1 -> 0, 1 -> 2
    let hits = vec![vec![false, true, false], vec![true, false, false], vec![false, true, false]];
    assert_eq!(find_all_paths(&hits, 0, 2), vec![vec![0, 1, 2]]);
    assert!(find_all_paths(&hits, 2, 0).is_empty());
}

fn sample_marks() -> Vec<Vec<Vec<i64>>> {
    vec![
        vec![vec![0, 0, 0], vec![1, 0, 0], vec![0, -1, 0]],
        vec![vec![0, 0, 0], vec![1, 0, 0], vec![0, 0, 0]],
        vec![vec![0, 0, 0], vec![-1, 0, 0], vec![0, -1, 0]],
    ]
}

#[test]
fn direction_counts_rank_edges() {
    let (rows, counts) = causal_direction_counts(&sample_marks(), None, false);
    assert_eq!(rows, vec![vec![1, 0], vec![2, 1]]);
    assert_eq!(counts, vec![3, 2]);
    let (top, top_counts) = causal_direction_counts(&sample_marks(), Some(1), false);
    assert_eq!(top, vec![vec![1, 0]]);
    assert_eq!(top_counts, vec![3]);
}

#[test]
fn direction_counts_split_by_sign() {
    let (rows, counts) = causal_direction_counts(&sample_marks(), None, true);
    assert_eq!(rows, vec![vec![1, 0, 1], vec![2, 1, -1], vec![1, 0, -1]]);
    assert_eq!(counts, vec![2, 2, 1]);
}

#[test]
fn direction_counts_of_empty_samples() {
    let marks = vec![vec![vec![0, 0], vec![0, 0]]];
    let (rows, counts) = causal_direction_counts(&marks, None, false);
    assert!(rows.is_empty());
    assert!(counts.is_empty());
}

#[test]
fn dag_counts_rank_patterns() {
    let (keys, counts) = dag_counts(&sample_marks(), 3, None, false);
    assert_eq!(keys, vec![vec![0, 0, 0, 1, 0, 0, 0, 1, 0], vec![0, 0, 0, 1, 0, 0, 0, 0, 0]]);
    assert_eq!(counts, vec![2, 1]);
    let (signed, signed_counts) = dag_counts(&sample_marks(), 3, Some(2), true);
    assert_eq!(signed_counts, vec![1, 1]);
    assert_eq!(signed[0], vec![0, 0, 0, -1, 0, 0, 0, -1, 0]);
}

#[test]
fn dag_edges_decode_a_key() {
    let key = vec![0, 0, 0, -1, 0, 0, 0, 1, 0];
    assert_eq!(dag_edges(&key, 3), vec![(1, 0, -1), (2, 1, 1)]);
    assert!(dag_edges(&vec![0; 4], 2).is_empty());
}

#[test]
fn dag_key_round_trip_lists_the_sample_edges() {
    let marks = sample_marks();
    let (keys, _) = dag_counts(&marks, 3, None, true);
    for key in &keys {
        for (to, from, mark) in dag_edges(key, 3) {
            assert_ne!(mark, 0);
            assert_eq!(key[to * 3 + from], mark);
        }
    }
}

#[test]
fn edge_frequencies_count_samples() {
    let counts = edge_frequencies(&sample_marks(), 3);
    assert_eq!(counts, vec![vec![0, 0, 0], vec![3, 0, 0], vec![0, 2, 0]]);
}

#[test]
fn ranked_directions_by_count_then_row_major() {
    let counts = vec![vec![0, 2, 1], vec![2, 0, 0], vec![5, 0, 0]];
    assert_eq!(ranked_directions(&counts), vec![(2, 0), (0, 1), (1, 0), (0, 2)]);
    assert!(ranked_directions(&vec![vec![0]]).is_empty());
}

#[test]
fn path_keys_join_decimal_nodes() {
    let text = |k: Vec<i64>| -> String { k.iter().map(|&c| c as u8 as char).collect() };
    assert_eq!(text(path_key_of(&vec![0, 12, 3])), "0_12_3");
    assert_eq!(text(path_key_of(&vec![105])), "105");
    assert!(path_key_of(&vec![]).is_empty());
}

#[test]
fn rank_paths_by_frequency() {
    let paths = vec![vec![0, 2], vec![0, 1, 2], vec![0, 2], vec![0, 10, 2]];
    let (keys, counts, groups) = rank_paths(&paths);
    let text = |k: &Vec<i64>| -> String { k.iter().map(|&c| c as u8 as char).collect() };
    let names: Vec<String> = keys.iter().map(text).collect();
    assert_eq!(names, vec!["0_2", "0_10_2", "0_1_2"]);
    assert_eq!(counts, vec![2, 1, 1]);
    assert_eq!(groups, vec![vec![0, 2], vec![3], vec![1]]);
}
