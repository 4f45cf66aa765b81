use std::cmp::Ordering;

use dashchat::inbox::{is_addressed_to_inbox, InboxTopic, INBOX_TOPIC_WIDTH};
use dashchat::topic::{LogId, Topic};

fn inbox(expires_at: i64, first: u8) -> InboxTopic {
    let mut id = [7u8; 32];
    id[0] = first;
    InboxTopic { expires_at, topic: Topic::untyped(id) }
}

#[test]
fn inbox_topic_is_forty_bytes_wide() {
    assert_eq!(InboxTopic::fixed_width(), Some(40));
    assert_eq!(INBOX_TOPIC_WIDTH, 40);
}

#[test]
fn inbox_topic_bytes_are_big_endian_expiry_then_topic() {
    let t = inbox(0x0102_0304_0506_0708, 9);
    let b = t.as_bytes();
    assert_eq!(&b[0..8], &[1, 2, 3, 4, 5, 6, 7, 8]);
    assert_eq!(b[8], 9);
    assert!(b[9..40].iter().all(|x| *x == 7));
}

#[test]
fn inbox_topic_negative_expiry_is_twos_complement() {
    let b = inbox(-1, 0).as_bytes();
    assert_eq!(&b[0..8], &[0xff; 8]);
}

#[test]
fn inbox_topic_roundtrip() {
    for expires_at in [0i64, 1, -1, i64::MAX, i64::MIN, 1_700_000_000_000_000_000] {
        let t = inbox(expires_at, 3);
        let back = InboxTopic::from_bytes(&t.as_bytes());
        assert_eq!(back.expires_at, expires_at);
        assert_eq!(back.topic.id, t.topic.id);
    }
}

#[test]
fn inbox_topic_from_longer_data_reads_first_forty_bytes() {
    let mut data = inbox(5, 1).as_bytes().to_vec();
    data.extend_from_slice(&[0xaa; 10]);
    let t = InboxTopic::from_bytes(&data);
    assert_eq!(t.expires_at, 5);
    assert_eq!(t.topic.id[0], 1);
}

#[test]
fn inbox_topic_compare_orders_by_expiry_then_topic() {
    let a = inbox(10, 200).as_bytes();
    let b = inbox(20, 1).as_bytes();
    let c = inbox(20, 2).as_bytes();
    assert_eq!(InboxTopic::compare(&a, &b), Ordering::Less);
    assert_eq!(InboxTopic::compare(&b, &a), Ordering::Greater);
    assert_eq!(InboxTopic::compare(&b, &c), Ordering::Less);
    assert_eq!(InboxTopic::compare(&c, &b), Ordering::Greater);
    assert_eq!(InboxTopic::compare(&c, &c), Ordering::Equal);
}

#[test]
fn inbox_topic_compare_orders_negative_expiry_first() {
    let early = inbox(-5, 9).as_bytes();
    let late = inbox(5, 0).as_bytes();
    assert_eq!(InboxTopic::compare(&early, &late), Ordering::Less);
}

#[test]
fn payload_for_inactive_inbox_is_ignored() {
    let active = vec![inbox(10, 1), inbox(20, 2)];
    let mut log = [7u8; 32];
    log[0] = 2;
    assert!(is_addressed_to_inbox(&active, &LogId(log)));
    log[0] = 3;
    assert!(!is_addressed_to_inbox(&active, &LogId(log)));
    assert!(!is_addressed_to_inbox(&[], &LogId(log)));
}
