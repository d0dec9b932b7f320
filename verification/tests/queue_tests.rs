use bml::queue::steal_targets;

#[test]
fn steal_round_robin_after_self() {
    assert_eq!(steal_targets(0, 3), vec![1, 2]);
    assert_eq!(steal_targets(1, 3), vec![2, 0]);
    assert_eq!(steal_targets(2, 4), vec![3, 0, 1]);
}

#[test]
fn single_or_no_queue_steals_nothing() {
    assert!(steal_targets(0, 1).is_empty());
    assert!(steal_targets(0, 0).is_empty());
}
