use dashchat::op_store::{next_log_position, AuthorStore, ProcessedOps};
use dashchat::topic::LogId;

#[test]
fn first_operation_starts_the_log() {
    assert_eq!(next_log_position(None), (0, None));
    assert_eq!(next_log_position(Some((4, [7u8; 32]))), (5, Some([7u8; 32])));
}

#[test]
fn processed_marks_are_per_log_and_hash() {
    let mut p = ProcessedOps::new();
    let l1 = LogId([1u8; 32]);
    let l2 = LogId([2u8; 32]);
    assert!(!p.is_op_processed(&l1, &[5u8; 32]));
    p.mark_op_processed(&l1, &[5u8; 32]);
    assert!(p.is_op_processed(&l1, &[5u8; 32]));
    assert!(!p.is_op_processed(&l2, &[5u8; 32]));
    assert!(!p.is_op_processed(&l1, &[6u8; 32]));
    p.mark_op_processed(&l1, &[5u8; 32]);
    p.mark_op_processed(&l1, &[6u8; 32]);
    assert!(p.is_op_processed(&l1, &[5u8; 32]));
    assert!(p.is_op_processed(&l1, &[6u8; 32]));
}

#[test]
fn authors_are_recorded_per_topic() {
    let mut store = AuthorStore::new();
    let t = LogId([1u8; 32]);
    let u = LogId([2u8; 32]);
    assert!(store.authors(&t).is_none());
    assert!(store.get(&t).is_empty());
    assert!(store.add_author(&t, &[7u8; 32]));
    assert!(!store.add_author(&t, &[7u8; 32]));
    assert!(store.add_author(&t, &[8u8; 32]));
    assert_eq!(store.authors(&t), Some(vec![[7u8; 32], [8u8; 32]]));
    assert!(store.authors(&u).is_none());
    assert_eq!(
        store.get(&t),
        vec![([7u8; 32], vec![[1u8; 32]]), ([8u8; 32], vec![[1u8; 32]])]
    );
}

#[test]
fn first_author_of_a_topic_is_its_only_author() {
    let mut s = AuthorStore::new();
    let t = LogId([1u8; 32]);
    assert!(s.authors(&t).is_none());
    assert!(s.add_author(&t, &[7u8; 32]));
    assert_eq!(s.authors(&t), Some(vec![[7u8; 32]]));
    assert!(!s.add_author(&t, &[7u8; 32]));
    assert_eq!(s.authors(&t), Some(vec![[7u8; 32]]));
    assert!(s.authors(&LogId([2u8; 32])).is_none());
}
