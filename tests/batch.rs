use flock_core::batch::{coalesce, repartition, RecordBatch};

fn numbered(first: u64, n: u64) -> RecordBatch {
    RecordBatch { rows: (first..first + n).map(|v| vec![v]).collect() }
}

#[test]
fn repartition_round_robin_order() {
    let input = vec![numbered(0, 3), numbered(3, 4)];
    let parts = repartition(&input, 3);
    assert_eq!(parts.len(), 3);
    assert_eq!(parts[0].rows, vec![vec![0], vec![3], vec![6]]);
    assert_eq!(parts[1].rows, vec![vec![1], vec![4]]);
    assert_eq!(parts[2].rows, vec![vec![2], vec![5]]);
}

#[test]
fn repartition_keeps_row_count() {
    let input = vec![numbered(0, 37), numbered(37, 0), numbered(37, 26)];
    for n in 1..10usize {
        let parts = repartition(&input, n);
        assert_eq!(parts.len(), n);
        let total: usize = parts.iter().map(|p| p.rows.len()).sum();
        assert_eq!(total, 63);
    }
}

#[test]
fn repartition_more_partitions_than_rows() {
    let parts = repartition(&vec![numbered(0, 2)], 4);
    assert_eq!(parts[0].rows.len(), 1);
    assert_eq!(parts[1].rows.len(), 1);
    assert!(parts[2].rows.is_empty());
    assert!(parts[3].rows.is_empty());
}

#[test]
fn coalesce_chunks_rows_in_order() {
    let input = vec![numbered(0, 2), numbered(2, 1), numbered(3, 4), numbered(7, 0), numbered(7, 3)];
    let out = coalesce(&input, 4);
    assert_eq!(out.len(), 3);
    assert_eq!(out[0].rows, vec![vec![0], vec![1], vec![2], vec![3]]);
    assert_eq!(out[1].rows, vec![vec![4], vec![5], vec![6], vec![7]]);
    assert_eq!(out[2].rows, vec![vec![8], vec![9]]);
}

#[test]
fn coalesce_keeps_row_count() {
    let input = vec![numbered(0, 5), numbered(5, 11), numbered(16, 1)];
    for size in 1..20usize {
        let out = coalesce(&input, size);
        let all: Vec<Vec<u64>> = out.iter().flat_map(|b| b.rows.clone()).collect();
        assert_eq!(all.len(), 17);
        assert_eq!(all, (0..17u64).map(|v| vec![v]).collect::<Vec<_>>());
        assert!(out.iter().all(|b| !b.rows.is_empty() && b.rows.len() <= size));
    }
}

#[test]
fn coalesce_empty_input() {
    assert!(coalesce(&vec![], 3).is_empty());
    assert!(coalesce(&vec![numbered(0, 0)], 3).is_empty());
}
