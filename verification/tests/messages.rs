use dashchat::messages::{
    message_key, messages_for_topics, topic_range, values_in_range, GetMessagesRequest,
    StoreMessageRequest,
};

fn table(entries: &[(&str, &[u8])]) -> Vec<(String, Vec<u8>)> {
    let mut t: Vec<(String, Vec<u8>)> =
        entries.iter().map(|(k, v)| (k.to_string(), v.to_vec())).collect();
    t.sort_by(|a, b| a.0.cmp(&b.0));
    t
}

#[test]
fn range_of_a_topic() {
    let (start, end) = topic_range("topic");
    assert_eq!(start, "topic:");
    assert_eq!(end, "topic:\u{10FFFF}");
}

#[test]
fn messages_are_grouped_by_topic() {
    let t = table(&[
        ("a:1", b"one"),
        ("a:2", b"two"),
        ("ab:1", b"other"),
        ("b:1", b"bee"),
    ]);
    let resp = messages_for_topics(
        &GetMessagesRequest { topic_ids: vec!["a".into(), "b".into(), "c".into(), "a".into()] },
        &t,
    );
    assert_eq!(
        resp.messages,
        vec![
            ("a".to_string(), vec![b"one".to_vec(), b"two".to_vec()]),
            ("b".to_string(), vec![b"bee".to_vec()]),
            ("c".to_string(), vec![]),
        ]
    );
}

#[test]
fn stored_message_key_reads_back() {
    let req = StoreMessageRequest { topic_id: "topic".into(), message: vec![1, 2, 3] };
    let key = message_key(&uuid::ContextV7::new(), &req).unwrap();
    let (topic, uuid) = key.split_once(':').unwrap();
    assert_eq!(topic, "topic");
    assert!(uuid::Uuid::parse_str(uuid).is_ok());
    let t = vec![(key.clone(), req.message.clone())];
    let (start, end) = topic_range("topic");
    let s: Vec<char> = start.chars().collect();
    let e: Vec<char> = end.chars().collect();
    assert_eq!(values_in_range(&t, &s, &e), vec![vec![1, 2, 3]]);
}
