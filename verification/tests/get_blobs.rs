use std::collections::BTreeSet;

use dashchat::blobs::{
    blobs_for_topic, missing_sequence_numbers, storage_key, store_blobs_entries,
    GetBlobsError, GetBlobsForTopicResponse, StoreBlobsRequest,
};
use dashchat::messages::topic_range;

/// The table entries of one topic after storing `logs`, sorted by key as
/// the table keeps them.
fn stored(topic: &str, logs: &[(&str, &[(u32, &[u8])])]) -> Vec<(String, Vec<u8>)> {
    let request = StoreBlobsRequest {
        blobs: vec![(
            topic.to_string(),
            logs.iter()
                .map(|(log, blobs)| {
                    (
                        log.to_string(),
                        blobs.iter().map(|(s, b)| (*s, b.to_vec())).collect(),
                    )
                })
                .collect(),
        )],
    };
    let mut entries = store_blobs_entries(&uuid::ContextV7::new(), &request).unwrap();
    entries.sort_by(|a, b| a.0.cmp(&b.0));
    entries
}

fn log_blobs<'a>(resp: &'a GetBlobsForTopicResponse, log: &str) -> Option<&'a Vec<(u32, Vec<u8>)>> {
    resp.blobs.iter().find(|(l, _)| l == log).map(|(_, b)| b)
}

fn log_missing<'a>(resp: &'a GetBlobsForTopicResponse, log: &str) -> Option<&'a Vec<u32>> {
    resp.missing.iter().find(|(l, _)| l == log).map(|(_, m)| m)
}

fn blob_of<'a>(blobs: &'a [(u32, Vec<u8>)], seq: u32) -> Option<&'a [u8]> {
    blobs.iter().find(|(s, _)| *s == seq).map(|(_, b)| b.as_slice())
}

#[test]
fn test_store_and_retrieve_single_message() {
    let message_data: &[u8] = b"Hello, World!";
    let entries = stored("test-topic-1", &[("log-a", &[(0, message_data)])]);
    let resp = blobs_for_topic(&vec![], &vec![], &entries).unwrap();
    let log = log_blobs(&resp, "log-a").unwrap();
    assert!(resp.missing.is_empty());
    assert_eq!(blob_of(log, 0).unwrap(), message_data);
}

#[test]
fn test_store_and_retrieve_multiple_messages_same_topic() {
    let entries = stored(
        "test-topic-multi",
        &[(
            "log-1",
            &[(0, b"First message"), (1, b"Second message"), (2, b"Third message")],
        )],
    );
    let resp = blobs_for_topic(&vec![], &vec![], &entries).unwrap();
    let log = log_blobs(&resp, "log-1").unwrap();
    assert_eq!(log.len(), 3);
    assert!(resp.missing.is_empty());
    assert_eq!(blob_of(log, 0).unwrap(), b"First message");
    assert_eq!(blob_of(log, 1).unwrap(), b"Second message");
    assert_eq!(blob_of(log, 2).unwrap(), b"Third message");
}

#[test]
fn test_retrieve_empty_topic() {
    let resp = blobs_for_topic(&vec![], &vec![], &vec![]).unwrap();
    assert!(resp.blobs.is_empty());
    assert!(resp.missing.is_empty());
}

#[test]
fn test_sequence_number_filtering() {
    let entries = stored(
        "test-topic",
        &[(
            "log-x",
            &[
                (0, b"Message 0"),
                (1, b"Message 1"),
                (2, b"Message 2"),
                (3, b"Message 3"),
                (4, b"Message 4"),
            ],
        )],
    );
    let resp = blobs_for_topic(&vec![("log-x".to_string(), 2)], &vec![None], &entries).unwrap();
    let log = log_blobs(&resp, "log-x").unwrap();
    assert_eq!(log.len(), 2);
    assert_eq!(blob_of(log, 3).unwrap(), b"Message 3");
    assert_eq!(blob_of(log, 4).unwrap(), b"Message 4");
    assert!(blob_of(log, 2).is_none());
    assert!(blob_of(log, 1).is_none());
    assert!(blob_of(log, 0).is_none());
    assert!(resp.missing.is_empty());
}

#[test]
fn test_get_returns_all_logs_for_topic() {
    let entries = stored(
        "test-topic",
        &[
            ("log-a", &[(0, b"Log A - Message 0"), (1, b"Log A - Message 1"), (2, b"Log A - Message 2")]),
            ("log-b", &[(0, b"Log B - Message 0"), (1, b"Log B - Message 1")]),
            ("log-c", &[(0, b"Log C - Message 0")]),
        ],
    );
    // Request only log-a with sequence > 0, but also get all of log-b and log-c.
    let resp = blobs_for_topic(&vec![("log-a".to_string(), 0)], &vec![None], &entries).unwrap();
    assert_eq!(resp.blobs.len(), 3);
    let a = log_blobs(&resp, "log-a").unwrap();
    assert_eq!(a.len(), 2);
    assert_eq!(blob_of(a, 1).unwrap(), b"Log A - Message 1");
    assert_eq!(blob_of(a, 2).unwrap(), b"Log A - Message 2");
    assert!(blob_of(a, 0).is_none());
    let b = log_blobs(&resp, "log-b").unwrap();
    assert_eq!(b.len(), 2);
    assert_eq!(blob_of(b, 0).unwrap(), b"Log B - Message 0");
    assert_eq!(blob_of(b, 1).unwrap(), b"Log B - Message 1");
    let c = log_blobs(&resp, "log-c").unwrap();
    assert_eq!(c.len(), 1);
    assert_eq!(blob_of(c, 0).unwrap(), b"Log C - Message 0");
    assert!(resp.missing.is_empty());
}

#[test]
fn test_missing_blobs_server_behind() {
    let entries = stored(
        "test-topic",
        &[("log-x", &[(0, b"Message 0"), (1, b"Message 1"), (2, b"Message 2")])],
    );
    let resp = blobs_for_topic(&vec![("log-x".to_string(), 5)], &vec![None], &entries).unwrap();
    assert!(log_blobs(&resp, "log-x").map_or(true, |log| log.is_empty()));
    assert_eq!(log_missing(&resp, "log-x").unwrap(), &vec![3, 4, 5]);
}

#[test]
fn test_missing_blobs_server_has_nothing() {
    let resp = blobs_for_topic(&vec![("log-x".to_string(), 3)], &vec![None], &vec![]).unwrap();
    assert!(resp.blobs.is_empty());
    assert_eq!(log_missing(&resp, "log-x").unwrap(), &vec![0, 1, 2, 3]);
}

#[test]
fn test_missing_blobs_multiple_logs() {
    let entries = stored("test-topic", &[("log-a", &[(0, b"Log A - 0"), (1, b"Log A - 1")])]);
    let resp = blobs_for_topic(
        &vec![("log-a".to_string(), 4), ("log-b".to_string(), 2)],
        &vec![None, None],
        &entries,
    )
    .unwrap();
    assert_eq!(resp.missing.len(), 2);
    assert_eq!(log_missing(&resp, "log-a").unwrap(), &vec![2, 3, 4]);
    assert_eq!(log_missing(&resp, "log-b").unwrap(), &vec![0, 1, 2]);
}

#[test]
fn test_no_missing_when_server_is_ahead() {
    let entries = stored(
        "test-topic",
        &[(
            "log-x",
            &[
                (0, b"Message 0"),
                (1, b"Message 1"),
                (2, b"Message 2"),
                (3, b"Message 3"),
                (4, b"Message 4"),
                (5, b"Message 5"),
            ],
        )],
    );
    let resp = blobs_for_topic(&vec![("log-x".to_string(), 2)], &vec![None], &entries).unwrap();
    let log = log_blobs(&resp, "log-x").unwrap();
    assert_eq!(log.len(), 3);
    assert!(blob_of(log, 3).is_some());
    assert!(blob_of(log, 4).is_some());
    assert!(blob_of(log, 5).is_some());
    assert!(resp.missing.is_empty());
}

#[test]
fn missing_above_watermark_only() {
    let stored_seqs: BTreeSet<u32> = [0, 1, 2, 5].into_iter().collect();
    assert_eq!(missing_sequence_numbers(Some(2), 6, &stored_seqs), vec![3, 4, 6]);
    assert_eq!(missing_sequence_numbers(Some(7), 6, &stored_seqs), Vec::<u32>::new());
    assert_eq!(missing_sequence_numbers(None, 3, &stored_seqs), vec![3]);
}

#[test]
fn later_blob_of_same_sequence_wins() {
    let entries = vec![
        (format!("t:log:1:{}", uuid::Uuid::from_u128(1)), b"old".to_vec()),
        (format!("t:log:1:{}", uuid::Uuid::from_u128(2)), b"new".to_vec()),
    ];
    let resp = blobs_for_topic(&vec![], &vec![], &entries).unwrap();
    let log = log_blobs(&resp, "log").unwrap();
    assert_eq!(log.len(), 1);
    assert_eq!(blob_of(log, 1).unwrap(), b"new");
}

#[test]
fn unreadable_keys_are_errors() {
    let entries = vec![("t:log:1".to_string(), vec![1u8])];
    assert!(matches!(
        blobs_for_topic(&vec![], &vec![], &entries),
        Err(GetBlobsError::InvalidKey { parts: 3, .. })
    ));
    let entries = vec![("t:log:x:u".to_string(), vec![1u8])];
    assert!(matches!(
        blobs_for_topic(&vec![], &vec![], &entries),
        Err(GetBlobsError::InvalidSequence { .. })
    ));
    let entries = vec![("t:log:4294967296:u".to_string(), vec![1u8])];
    assert!(matches!(
        blobs_for_topic(&vec![], &vec![], &entries),
        Err(GetBlobsError::InvalidSequence { .. })
    ));
}

#[test]
fn storage_key_layout() {
    let key = storage_key(&uuid::ContextV7::new(), "topic", "log", 12).unwrap();
    let parts: Vec<&str> = key.split(':').collect();
    assert_eq!(parts.len(), 4);
    assert_eq!(parts[0], "topic");
    assert_eq!(parts[1], "log");
    assert_eq!(parts[2], "12");
    assert!(uuid::Uuid::parse_str(parts[3]).is_ok());
}

#[test]
fn store_entries_one_per_blob() {
    let request = StoreBlobsRequest {
        blobs: vec![
            ("t1".to_string(), vec![("a".to_string(), vec![(0, vec![1]), (1, vec![2])])]),
            ("t2".to_string(), vec![("b".to_string(), vec![(7, vec![3])])]),
        ],
    };
    let entries = store_blobs_entries(&uuid::ContextV7::new(), &request).unwrap();
    assert_eq!(entries.len(), 3);
    assert!(entries[0].0.starts_with("t1:a:0:"));
    assert_eq!(entries[0].1, vec![1]);
    assert!(entries[1].0.starts_with("t1:a:1:"));
    assert!(entries[2].0.starts_with("t2:b:7:"));
    assert_eq!(entries[2].1, vec![3]);
}

/// The table after storing one blob at sequence 0 of `log-1` in each topic.
fn table_of(topics: &[(&str, &[u8])]) -> Vec<(String, Vec<u8>)> {
    let request = StoreBlobsRequest {
        blobs: topics
            .iter()
            .map(|(t, b)| (t.to_string(), vec![("log-1".to_string(), vec![(0, b.to_vec())])]))
            .collect(),
    };
    let mut entries = store_blobs_entries(&uuid::ContextV7::new(), &request).unwrap();
    entries.sort_by(|a, b| a.0.cmp(&b.0));
    entries
}

/// What a get request for `topic` (no logs named) answers: the entries in
/// the topic's key range, read as the server reads them.
fn get_topic(table: &[(String, Vec<u8>)], topic: &str) -> GetBlobsForTopicResponse {
    let (start, end) = topic_range(topic);
    let entries: Vec<(String, Vec<u8>)> = table
        .iter()
        .filter(|(k, _)| k.as_str() >= start.as_str() && k.as_str() < end.as_str())
        .cloned()
        .collect();
    blobs_for_topic(&vec![], &vec![], &entries).unwrap()
}

#[test]
fn test_retrieve_messages_from_multiple_topics() {
    let topic1_msg: &[u8] = b"Topic 1 message";
    let topic2_msg: &[u8] = b"Topic 2 message";
    let table = table_of(&[("topic-a", topic1_msg), ("topic-b", topic2_msg)]);

    let a = get_topic(&table, "topic-a");
    let b = get_topic(&table, "topic-b");
    assert_eq!(log_blobs(&a, "log-1").unwrap().len(), 1);
    assert_eq!(log_blobs(&b, "log-1").unwrap().len(), 1);
    assert!(a.missing.is_empty());
    assert!(b.missing.is_empty());
    assert_eq!(blob_of(log_blobs(&a, "log-1").unwrap(), 0).unwrap(), topic1_msg);
    assert_eq!(blob_of(log_blobs(&b, "log-1").unwrap(), 0).unwrap(), topic2_msg);
}

#[test]
fn test_topic_isolation() {
    let table = table_of(&[("isolated-topic-1", b"Message 1"), ("isolated-topic-2", b"Message 2")]);
    let t1 = get_topic(&table, "isolated-topic-1");
    let log = log_blobs(&t1, "log-1").unwrap();
    assert_eq!(log.len(), 1);
    assert_eq!(blob_of(log, 0).unwrap(), b"Message 1");
    assert!(t1.missing.is_empty());
    assert_eq!(t1.blobs.len(), 1);
}

#[test]
fn response_is_ordered_by_log_then_sequence() {
    let u = |n: u128| uuid::Uuid::from_u128(n);
    let entries = vec![
        (format!("t:log-b:5:{}", u(1)), b"b5".to_vec()),
        (format!("t:log-b:2:{}", u(2)), b"b2".to_vec()),
        (format!("t:log-a:9:{}", u(3)), b"a9".to_vec()),
        (format!("t:log-a:10:{}", u(4)), b"a10".to_vec()),
    ];
    let resp = blobs_for_topic(&vec![], &vec![], &entries).unwrap();
    assert_eq!(
        resp.blobs,
        vec![
            ("log-a".to_string(), vec![(9, b"a9".to_vec()), (10, b"a10".to_vec())]),
            ("log-b".to_string(), vec![(2, b"b2".to_vec()), (5, b"b5".to_vec())]),
        ]
    );
}
