use flock_core::arena::{Arena, ArenaError};
use flock_core::batch::RecordBatch;
use flock_core::task_id::{GroupKey, TaskId, TaskIdMinter};

fn batch(first: u64, n: u64) -> RecordBatch {
    RecordBatch { rows: (first..first + n).map(|v| vec![v]).collect() }
}

#[test]
fn arena_ready_on_third_of_three() {
    let mut m = TaskIdMinter::new("up".to_string());
    let ids = m.mint(3);
    let mut arena = Arena::new();
    let (r1, _) = arena.put(&ids[2], vec![batch(20, 2)]).unwrap();
    assert!(!r1);
    let (r2, _) = arena.put(&ids[0], vec![batch(0, 2)]).unwrap();
    assert!(!r2);
    let (r3, key) = arena.put(&ids[1], vec![batch(10, 2)]).unwrap();
    assert!(r3);
    let parts = arena.take(&key).unwrap();
    assert_eq!(parts.len(), 3);
    assert_eq!(parts[0][0].rows, vec![vec![0], vec![1]]);
    assert_eq!(parts[1][0].rows, vec![vec![10], vec![11]]);
    assert_eq!(parts[2][0].rows, vec![vec![20], vec![21]]);
    assert_eq!(arena.take(&key).unwrap_err(), ArenaError::NotFound);
}

#[test]
fn arena_take_before_ready_is_not_ready() {
    let mut m = TaskIdMinter::new("up".to_string());
    let ids = m.mint(2);
    let mut arena = Arena::new();
    let (ready, key) = arena.put(&ids[0], vec![batch(0, 1)]).unwrap();
    assert!(!ready);
    assert_eq!(arena.take(&key).unwrap_err(), ArenaError::NotReady);
    let (ready, key) = arena.put(&ids[1], vec![batch(1, 1)]).unwrap();
    assert!(ready);
    assert_eq!(arena.take(&key).unwrap().len(), 2);
}

#[test]
fn arena_repeated_fragment_is_ignored() {
    let mut m = TaskIdMinter::new("up".to_string());
    let ids = m.mint(2);
    let mut arena = Arena::new();
    assert!(!arena.put(&ids[0], vec![batch(0, 1)]).unwrap().0);
    assert!(!arena.put(&ids[0], vec![batch(5, 1)]).unwrap().0);
    assert!(arena.put(&ids[1], vec![batch(1, 1)]).unwrap().0);
    // A late repeat after completion does not report ready a second time.
    let (again, key) = arena.put(&ids[1], vec![batch(1, 1)]).unwrap();
    assert!(!again);
    let parts = arena.take(&key).unwrap();
    assert_eq!(parts[0][0].rows, vec![vec![0]]);
}

#[test]
fn arena_groups_are_kept_apart() {
    let mut m = TaskIdMinter::new("up".to_string());
    let a = m.mint(2);
    let b = m.mint(2);
    let mut arena = Arena::new();
    assert!(!arena.put(&a[0], vec![batch(0, 1)]).unwrap().0);
    assert!(!arena.put(&b[0], vec![batch(100, 1)]).unwrap().0);
    let (ready, key) = arena.put(&b[1], vec![batch(101, 1)]).unwrap();
    assert!(ready);
    assert_eq!(key.fanout, 1);
    let parts = arena.take(&key).unwrap();
    assert_eq!(parts[0][0].rows, vec![vec![100]]);
    assert_eq!(parts[1][0].rows, vec![vec![101]]);
}

#[test]
fn arena_refuses_invalid_ids() {
    let mut arena = Arena::new();
    let bad = TaskId { stage_name: "s".to_string(), fanout: 0, sequence_index: 3, total_fragments: 3 };
    assert_eq!(arena.put(&bad, vec![]).unwrap_err(), ArenaError::InvalidTaskId);
    let empty = TaskId { stage_name: "s".to_string(), fanout: 0, sequence_index: 0, total_fragments: 0 };
    assert_eq!(arena.put(&empty, vec![]).unwrap_err(), ArenaError::InvalidTaskId);
    let first = TaskId { stage_name: "s".to_string(), fanout: 0, sequence_index: 0, total_fragments: 2 };
    assert!(!arena.put(&first, vec![]).unwrap().0);
    let other_size = TaskId { stage_name: "s".to_string(), fanout: 0, sequence_index: 1, total_fragments: 3 };
    assert_eq!(arena.put(&other_size, vec![]).unwrap_err(), ArenaError::InvalidTaskId);
    let missing = GroupKey { stage_name: "t".to_string(), fanout: 0 };
    assert_eq!(arena.take(&missing).unwrap_err(), ArenaError::NotFound);
}
