use ruslingam::hsic::row_offsets;
use ruslingam::pool::{pool_choice, PoolChoice};

#[test]
fn row_offsets_of_packed_triangle() {
    assert_eq!(row_offsets(4), vec![0, 3, 5, 6]);
    assert_eq!(row_offsets(1), vec![0]);
    assert!(row_offsets(0).is_empty());
}

#[test]
fn pool_choice_by_worker_count() {
    assert_eq!(pool_choice(4), Some(PoolChoice::Dedicated(4)));
    assert_eq!(pool_choice(0), Some(PoolChoice::Global));
    assert_eq!(pool_choice(-1), None);
}
