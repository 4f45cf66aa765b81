use dashchat::consistency::{consistency_report, ConsistencyReport};

fn set(items: &[&str]) -> Vec<String> {
    items.iter().map(|s| s.to_string()).collect()
}

#[test]
fn equal_sets_are_consistent() {
    let r = consistency_report(vec![set(&["a", "b"]), set(&["a", "b"]), set(&["a", "b"])]);
    assert!(r.is_consistent());
    assert!(r.diffs.is_empty());
}

#[test]
fn differing_pairs_are_reported_with_size_difference() {
    let r = consistency_report(vec![set(&["a"]), set(&["a", "b", "c"]), set(&["a"])]);
    assert!(!r.is_consistent());
    assert_eq!(r.diffs, vec![((1, 0), 2), ((2, 1), 2)]);
}

#[test]
fn same_size_different_sets_differ_by_zero() {
    let r = consistency_report(vec![set(&["a"]), set(&["b"])]);
    assert_eq!(r.diffs, vec![((1, 0), 0)]);
}

#[test]
fn new_report_is_empty() {
    let r = ConsistencyReport::new(vec![set(&["x"])]);
    assert!(r.is_consistent());
    assert_eq!(r.sets, vec![set(&["x"])]);
}
