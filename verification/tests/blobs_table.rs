use dashchat::blobs_key::{BlobsKey, BlobsKeyError, BlobsKeyPrefix};

fn fresh_uuid() -> u128 {
    uuid::Uuid::now_v7().as_u128()
}

#[test]
fn test_blobs_key_roundtrip() {
    let uuid = fresh_uuid();
    let key = BlobsKey::new("topic1".into(), "author1".into(), 42, uuid).unwrap();
    let serialized = key.to_string();
    let parsed = BlobsKey::parse(&serialized).unwrap();
    assert_eq!(key, parsed);
}

#[test]
fn test_blobs_key_zero_padding() {
    let uuid = fresh_uuid();
    let key = BlobsKey::new("topic".into(), "author".into(), 5, uuid).unwrap();
    let serialized = key.to_string();
    assert!(serialized.contains(":00000000000000000005:"));
}

#[test]
fn test_blobs_key_ordering() {
    let uuid = fresh_uuid();
    let key9 = BlobsKey::new("topic".into(), "author".into(), 9, uuid).unwrap();
    let key10 = BlobsKey::new("topic".into(), "author".into(), 10, uuid).unwrap();

    // With zero-padding, 9 should sort before 10
    assert!(key9.to_string() < key10.to_string());
}

#[test]
fn test_blobs_key_rejects_colon_in_topic() {
    let uuid = fresh_uuid();
    let result = BlobsKey::new("topic:bad".into(), "author".into(), 0, uuid);
    assert!(matches!(result, Err(BlobsKeyError::InvalidTopicId(_))));
}

#[test]
fn test_blobs_key_rejects_colon_in_author() {
    let uuid = fresh_uuid();
    let result = BlobsKey::new("topic".into(), "author:bad".into(), 0, uuid);
    assert!(matches!(result, Err(BlobsKeyError::InvalidAuthor(_))));
}

#[test]
fn test_watermarks_key_from_blobs_key() {
    let uuid = fresh_uuid();
    let blobs_key = BlobsKey::new("topic".into(), "author".into(), 42, uuid).unwrap();
    let watermarks_key = blobs_key.watermarks_key();
    assert_eq!(watermarks_key.topic_id, "topic");
    assert_eq!(watermarks_key.author, "author");
}

#[test]
fn test_prefix_range() {
    let prefix = BlobsKeyPrefix::TopicAuthor("topic".into(), "author".into());
    assert_eq!(prefix.range_start(), "topic:author:");
    assert!(prefix.range_end().starts_with("topic:author:"));
    assert!(prefix.range_end().len() > prefix.range_start().len());
}

#[test]
fn test_prefix_range_with_seq() {
    let prefix = BlobsKeyPrefix::TopicAuthorSeq("topic".into(), "author".into(), 5);
    assert_eq!(prefix.range_start(), "topic:author:00000000000000000005:");
}

#[test]
fn blobs_key_text_has_fixed_layout() {
    let key = BlobsKey::new("t".into(), "a".into(), 7, 0x0123456789abcdef0123456789abcdef).unwrap();
    assert_eq!(
        key.to_string(),
        "t:a:00000000000000000007:01234567-89ab-cdef-0123-456789abcdef"
    );
}

#[test]
fn blobs_key_parse_errors() {
    assert!(matches!(BlobsKey::parse("a:b:c"), Err(BlobsKeyError::ParseError(_))));
    assert!(matches!(
        BlobsKey::parse("a:b:x:01234567-89ab-cdef-0123-456789abcdef"),
        Err(BlobsKeyError::ParseError(_))
    ));
    assert!(matches!(BlobsKey::parse("a:b:1:not-a-uuid"), Err(BlobsKeyError::ParseError(_))));
}

#[test]
fn prefix_range_of_topic_and_ends() {
    let prefix = BlobsKeyPrefix::Topic("topic".into());
    assert_eq!(prefix.range_start(), "topic:");
    assert_eq!(prefix.range_end(), "topic:\u{10FFFF}");
    let start_key = prefix.range_start_key();
    assert_eq!(start_key.sequence_number, 0);
    assert_eq!(start_key.uuid, 0);
    let end_key = prefix.range_end_key();
    assert_eq!(end_key.author, "\u{10FFFF}");
    assert_eq!(end_key.sequence_number, u64::MAX);
    assert_eq!(end_key.uuid, u128::MAX);
}

#[test]
fn keys_of_prefix_fall_in_range() {
    let prefix = BlobsKeyPrefix::TopicAuthor("topic".into(), "author".into());
    let key = BlobsKey::new("topic".into(), "author".into(), 3, fresh_uuid()).unwrap().to_string();
    assert!(prefix.range_start() <= key && key < prefix.range_end());
    let other = BlobsKey::new("topic".into(), "other".into(), 3, fresh_uuid()).unwrap().to_string();
    assert!(!(prefix.range_start() <= other && other < prefix.range_end()));
}

#[test]
fn key_starts_with_prefix_exactly_when_it_matches() {
    let key = BlobsKey::new("topic".into(), "author".into(), 5, 1).unwrap().to_string();
    let yes = [
        BlobsKeyPrefix::Topic("topic".into()),
        BlobsKeyPrefix::TopicAuthor("topic".into(), "author".into()),
        BlobsKeyPrefix::TopicAuthorSeq("topic".into(), "author".into(), 5),
    ];
    for p in &yes {
        assert!(key.starts_with(&p.range_start()));
        assert!(p.range_start() <= key && key < p.range_end());
    }
    let no = [
        BlobsKeyPrefix::Topic("top".into()),
        BlobsKeyPrefix::Topic("topicx".into()),
        BlobsKeyPrefix::TopicAuthor("topic".into(), "auth".into()),
        BlobsKeyPrefix::TopicAuthorSeq("topic".into(), "author".into(), 50),
    ];
    for p in &no {
        assert!(!key.starts_with(&p.range_start()));
        assert!(!(p.range_start() <= key && key < p.range_end()));
    }
}

#[test]
fn key_uuid_is_read_in_simple_hyphenated_and_braced_form() {
    let value: u128 = 0x0123456789abcdef0123456789abcdef;
    let forms = [
        "01234567-89ab-cdef-0123-456789abcdef",
        "0123456789ABCDEF0123456789abcdef",
        "{01234567-89AB-cdef-0123-456789abcdef}",
    ];
    for f in forms {
        let k = BlobsKey::parse(&format!("t:a:1:{}", f)).unwrap();
        assert_eq!(k.uuid, value);
    }
    for bad in [
        "01234567-89ab-cdef-0123_456789abcdef",
        "0123456789abcdef0123456789abcde",
        "[01234567-89ab-cdef-0123-456789abcdef]",
    ] {
        assert!(BlobsKey::parse(&format!("t:a:1:{}", bad)).is_err());
    }
}
