use dashchat::mem_mailbox::MemMailbox;
use dashchat::topic::LogId;

fn op(s: u64) -> Vec<u8> {
    s.to_le_bytes().to_vec()
}

#[test]
fn fetch_returns_new_ops_and_gaps() {
    let alice = [1u8; 32];
    let bobbi = [2u8; 32];
    let topic = LogId([9u8; 32]);
    let mut mb = MemMailbox::new();
    mb.publish(&topic, &vec![(alice, 0, op(0)), (alice, 1, op(1)), (alice, 3, op(3)), (bobbi, 0, op(10))]);

    // The client holds alice up to 0 and bobbi up to 2.
    let r = mb.fetch(&topic, &vec![(alice, 0), (bobbi, 2)]);
    assert_eq!(r.ops, vec![op(1), op(3)]);
    let gaps_of = |a: [u8; 32]| r.missing.iter().find(|(x, _)| *x == a).map(|(_, g)| g.clone());
    assert_eq!(gaps_of(alice), Some(vec![2]));
    assert_eq!(gaps_of(bobbi), Some(vec![1, 2]));
}

#[test]
fn unknown_authors_and_topics_give_nothing() {
    let topic = LogId([9u8; 32]);
    let other = LogId([8u8; 32]);
    let mut mb = MemMailbox::new();
    mb.publish_one(&topic, &[1u8; 32], 0, op(0));
    let r = mb.fetch(&other, &vec![([1u8; 32], 0)]);
    assert!(r.ops.is_empty());
    assert!(r.missing.is_empty());
    // An author the client does not name comes with its whole log.
    let r = mb.fetch(&topic, &vec![([7u8; 32], 0)]);
    assert_eq!(r.ops, vec![op(0)]);
    assert!(r.missing.is_empty());
    let r = mb.fetch(&topic, &vec![]);
    assert_eq!(r.ops, vec![op(0)]);
}

#[test]
fn empty_request_returns_every_log() {
    let topic = LogId([9u8; 32]);
    let mut mb = MemMailbox::new();
    mb.publish(&topic, &vec![([1u8; 32], 0, op(0)), ([2u8; 32], 0, op(1)), ([1u8; 32], 1, op(2))]);
    let r = mb.fetch(&topic, &vec![]);
    assert_eq!(r.ops, vec![op(0), op(1), op(2)]);
    assert!(r.missing.is_empty());
    let r = mb.fetch(&topic, &vec![([1u8; 32], 1)]);
    assert_eq!(r.ops, vec![op(1)]);
    assert_eq!(r.missing, vec![([1u8; 32], vec![])]);
}

#[test]
fn publishing_again_replaces() {
    let topic = LogId([9u8; 32]);
    let mut mb = MemMailbox::new();
    mb.publish_one(&topic, &[1u8; 32], 1, op(1));
    mb.publish_one(&topic, &[1u8; 32], 1, op(42));
    let r = mb.fetch(&topic, &vec![([1u8; 32], 0)]);
    assert_eq!(r.ops, vec![op(42)]);
    assert_eq!(r.missing, vec![([1u8; 32], vec![0])]);
    assert_eq!(mb.last_held(&[9u8; 32], &[1u8; 32]), Some(1));
}
