use flock_core::task_id::TaskIdMinter;

#[test]
fn mint_gives_one_group_with_distinct_indices() {
    let mut m = TaskIdMinter::new("q1".to_string());
    let ids = m.mint(4);
    assert_eq!(ids.len(), 4);
    for (i, id) in ids.iter().enumerate() {
        assert_eq!(id.stage_name, "q1");
        assert_eq!(id.fanout, 0);
        assert_eq!(id.sequence_index, i as u64);
        assert_eq!(id.total_fragments, 4);
    }
    assert_eq!(m.next_fanout(), 1);
}

#[test]
fn two_mints_of_equal_size_give_distinct_groups() {
    let mut m = TaskIdMinter::new("stage".to_string());
    let a = m.mint(3);
    let b = m.mint(3);
    for x in &a {
        for y in &b {
            assert!(x.group().fanout != y.group().fanout);
        }
    }
    assert_eq!(b[0].fanout, 1);
}

#[test]
fn mint_of_one_fragment() {
    let mut m = TaskIdMinter::new("s".to_string());
    let ids = m.mint(1);
    assert_eq!(ids.len(), 1);
    assert_eq!(ids[0].sequence_index, 0);
    assert_eq!(ids[0].total_fragments, 1);
    assert!(m.can_mint());
    assert_eq!(m.stage_name(), "s");
}
