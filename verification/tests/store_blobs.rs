use std::collections::BTreeSet;

use dashchat::blobs::blobs_for_topic;
use dashchat::store_blobs::{blob_key, plan_log_store};

#[test]
fn blob_keys_have_four_parts_with_padded_sequence() {
    let clock = uuid::ContextV7::new();
    let k = blob_key(&clock, "topic", "log", 42).unwrap();
    let parts: Vec<&str> = k.split(':').collect();
    assert_eq!(parts.len(), 4);
    assert_eq!(&parts[..3], &["topic", "log", "00000000000000000042"]);
    assert!(uuid::Uuid::parse_str(parts[3]).is_ok());
}

#[test]
fn blob_keys_sort_by_sequence_then_creation() {
    let clock = uuid::ContextV7::new();
    let k9 = blob_key(&clock, "t", "l", 9).unwrap();
    let k10 = blob_key(&clock, "t", "l", 10).unwrap();
    assert!(k9 < k10);
    let a = blob_key(&clock, "t", "l", 5).unwrap();
    let b = blob_key(&clock, "t", "l", 5).unwrap();
    assert!(a < b);
}

#[test]
fn storing_moves_the_watermark() {
    let clock = uuid::ContextV7::new();
    let blobs = vec![(1u64, b"one".to_vec()), (2, b"two".to_vec()), (4, b"four".to_vec())];
    let existing: BTreeSet<u64> = [0, 3].into_iter().collect();
    let plan = plan_log_store(&clock, "t", "a", None, &blobs, &existing).unwrap();
    assert_eq!(plan.entries.len(), 3);
    assert!(plan.entries[0].0.starts_with("t:a:00000000000000000001:"));
    assert_eq!(plan.entries[2].1, b"four".to_vec());
    assert_eq!(plan.watermark, Some(4));
    assert!(plan.watermark_changed);
}

#[test]
fn unchanged_watermark_is_not_written() {
    let clock = uuid::ContextV7::new();
    let blobs = vec![(9u64, b"nine".to_vec())];
    let plan = plan_log_store(&clock, "t", "a", Some(4), &blobs, &BTreeSet::new()).unwrap();
    assert_eq!(plan.watermark, Some(4));
    assert!(!plan.watermark_changed);
    let plan = plan_log_store(&clock, "t", "a", None, &blobs, &BTreeSet::new()).unwrap();
    assert_eq!(plan.watermark, None);
    assert!(!plan.watermark_changed);
}

#[test]
fn stored_blobs_read_back() {
    let clock = uuid::ContextV7::new();
    let blobs = vec![(0u64, b"zero".to_vec()), (7, b"seven".to_vec())];
    let mut entries = plan_log_store(&clock, "t", "log", None, &blobs, &BTreeSet::new())
        .unwrap()
        .entries;
    entries.sort_by(|a, b| a.0.cmp(&b.0));
    let resp = blobs_for_topic(&vec![], &vec![], &entries).unwrap();
    assert_eq!(resp.blobs.len(), 1);
    assert_eq!(resp.blobs[0].0, "log");
    let mut got = resp.blobs[0].1.clone();
    got.sort();
    assert_eq!(got, vec![(0, b"zero".to_vec()), (7, b"seven".to_vec())]);
}
