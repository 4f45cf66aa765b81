use std::collections::BTreeSet;

use dashchat::watermark::{compute_contiguous_watermark, compute_new_watermark, watermarks_from_keys};

#[test]
fn test_compute_contiguous_watermark_empty() {
    let sequences = BTreeSet::new();
    assert_eq!(compute_contiguous_watermark(&sequences), None);
}

#[test]
fn test_compute_contiguous_watermark_no_zero() {
    let sequences: BTreeSet<u64> = [1, 2, 3].into_iter().collect();
    assert_eq!(compute_contiguous_watermark(&sequences), None);
}

#[test]
fn test_compute_contiguous_watermark_only_zero() {
    let sequences: BTreeSet<u64> = [0].into_iter().collect();
    assert_eq!(compute_contiguous_watermark(&sequences), Some(0));
}

#[test]
fn test_compute_contiguous_watermark_contiguous() {
    let sequences: BTreeSet<u64> = [0, 1, 2, 3, 4].into_iter().collect();
    assert_eq!(compute_contiguous_watermark(&sequences), Some(4));
}

#[test]
fn test_compute_contiguous_watermark_with_gap() {
    let sequences: BTreeSet<u64> = [0, 1, 2, 5, 6].into_iter().collect();
    assert_eq!(compute_contiguous_watermark(&sequences), Some(2));
}

#[test]
fn test_compute_contiguous_watermark_with_gap_unordered() {
    let sequences: BTreeSet<u64> = [0, 2, 5, 1, 6].into_iter().collect();
    assert_eq!(compute_contiguous_watermark(&sequences), Some(2));
}

#[test]
fn test_compute_contiguous_watermark_gap_at_start() {
    let sequences: BTreeSet<u64> = [0, 2, 3, 4].into_iter().collect();
    assert_eq!(compute_contiguous_watermark(&sequences), Some(0));
}

#[test]
fn contiguous_watermark_at_top_of_range() {
    let sequences: BTreeSet<u64> = [0, 1, u64::MAX].into_iter().collect();
    assert_eq!(compute_contiguous_watermark(&sequences), Some(1));
}

#[test]
fn new_watermark_without_current_needs_zero() {
    let new: BTreeSet<u64> = [1, 2].into_iter().collect();
    let existing: BTreeSet<u64> = BTreeSet::new();
    assert_eq!(compute_new_watermark(None, &new, &existing), None);
    let existing: BTreeSet<u64> = [0].into_iter().collect();
    assert_eq!(compute_new_watermark(None, &new, &existing), Some(2));
}

#[test]
fn new_watermark_extends_over_new_and_existing() {
    let new: BTreeSet<u64> = [4, 6].into_iter().collect();
    let existing: BTreeSet<u64> = [5, 8].into_iter().collect();
    assert_eq!(compute_new_watermark(Some(3), &new, &existing), Some(6));
}

#[test]
fn new_watermark_stays_when_next_missing() {
    let new: BTreeSet<u64> = [5].into_iter().collect();
    let existing: BTreeSet<u64> = BTreeSet::new();
    assert_eq!(compute_new_watermark(Some(3), &new, &existing), Some(3));
}

#[test]
fn incremental_watermark_matches_full_scan() {
    let all: BTreeSet<u64> = [0, 1, 2, 3, 7].into_iter().collect();
    let first: BTreeSet<u64> = [0, 1].into_iter().collect();
    let rest: BTreeSet<u64> = [2, 3, 7].into_iter().collect();
    let w1 = compute_contiguous_watermark(&first);
    assert_eq!(w1, Some(1));
    assert_eq!(compute_new_watermark(w1, &rest, &first), compute_contiguous_watermark(&all));
}

#[test]
fn watermarks_from_stored_keys() {
    let keys = vec![
        "t:a:0:u".to_string(),
        "t:a:1:u".to_string(),
        "t:a:3:u".to_string(),
        "t:b:1:u".to_string(),
        "bad".to_string(),
    ];
    let w = watermarks_from_keys(&keys).unwrap();
    assert_eq!(w, vec![("t:a".to_string(), 1)]);
}

#[test]
fn watermarks_from_keys_rejects_bad_sequence() {
    let keys = vec!["t:a:x:u".to_string()];
    assert!(watermarks_from_keys(&keys).is_err());
}

#[test]
fn log_key_joins_topic_and_log() {
    assert_eq!(dashchat::watermark::log_key("topic", "log-1"), "topic:log-1");
}
