use dashchat::topic::{
    same_id, Chat, HexError, Topic, TopicParseError, Untyped,
};

#[test]
fn global_topic_is_all_ones() {
    let t = Topic::global();
    assert_eq!(t.id(), [255u8; 32]);
    assert_eq!(t.to_string(), "ff".repeat(32));
}

#[test]
fn topic_text_roundtrip() {
    let mut id = [0u8; 32];
    for (i, b) in id.iter_mut().enumerate() {
        *b = (i * 7) as u8;
    }
    let t = Topic::untyped(id);
    let text = t.to_string();
    assert_eq!(text.len(), 64);
    let back = Topic::<Untyped>::from_str(&text).unwrap();
    assert_eq!(back.id(), id);
    let upper = Topic::<Untyped>::from_str(&text.to_uppercase()).unwrap();
    assert_eq!(upper.id(), id);
}

#[test]
fn topic_text_errors() {
    assert!(matches!(
        Topic::<Untyped>::from_str("abc"),
        Err(TopicParseError::Hex(HexError::OddLength))
    ));
    assert!(matches!(
        Topic::<Untyped>::from_str("abcd"),
        Err(TopicParseError::InvalidLength(2))
    ));
    assert!(matches!(Topic::<Untyped>::from_str(&"zz".repeat(32)), Err(TopicParseError::Hex(_))));
}

#[test]
fn topic_text_is_lowercase_hex_and_reads_any_case() {
    let mut id = [0u8; 32];
    id[0] = 0x01;
    id[1] = 0xab;
    id[31] = 0xff;
    let t = Topic::<Untyped>::untyped(id);
    let text = t.to_string();
    assert!(text.starts_with("01ab00"));
    assert!(text.ends_with("00ff"));
    let upper = text.to_uppercase();
    assert_eq!(Topic::<Untyped>::from_str(&upper).unwrap().id(), id);
}

#[test]
fn direct_chat_is_hash_of_sorted_keys() {
    let a = [1u8; 32];
    let b = [2u8; 32];
    let t1 = Topic::<Chat>::direct_chat([a, b]);
    let t2 = Topic::<Chat>::direct_chat([b, a]);
    assert_eq!(t1.id(), t2.id());
    let mut hasher = blake3::Hasher::new();
    hasher.update(&a);
    hasher.update(&b);
    let expected: [u8; 32] = hasher.finalize().into();
    assert_eq!(t1.id(), expected);
}

#[test]
fn random_topics_differ() {
    let a = Topic::<Chat>::random();
    let b = Topic::<Chat>::random();
    assert!(!same_id(&a.id(), &b.id()));
}

#[test]
fn recast_keeps_bytes() {
    let t = Topic::untyped([9u8; 32]);
    let c: Topic<Chat> = t.recast();
    assert_eq!(c.id(), [9u8; 32]);
    assert_eq!(c.log_id().id(), [9u8; 32]);
}
