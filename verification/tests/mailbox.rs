use dashchat::mailbox::{plan_topic_sync, republish_ops, Mailboxes, 
    interval_after_sync, lowest_sequence, poll_step, republish_indices, MailboxesConfig, PollStep,
};

#[test]
fn default_intervals() {
    let c = MailboxesConfig::default();
    assert_eq!(c.success_interval_ms, 5000);
    assert_eq!(c.error_interval_ms, 15000);
}

#[test]
fn poller_rotates_mailboxes() {
    let c = MailboxesConfig::default();
    assert_eq!(poll_step(&c, 0, 3, 1), PollStep::Sync { index: 1 });
    assert_eq!(poll_step(&c, 1, 3, 1), PollStep::Sync { index: 2 });
    assert_eq!(poll_step(&c, 2, 3, 1), PollStep::Sync { index: 0 });
    assert_eq!(poll_step(&c, 0, 1, 1), PollStep::Sync { index: 0 });
}

#[test]
fn poller_waits_without_mailboxes_or_topics() {
    let c = MailboxesConfig { success_interval_ms: 1, error_interval_ms: 2 };
    assert_eq!(poll_step(&c, 0, 0, 5), PollStep::Skip { interval_ms: 2, index: 0 });
    assert_eq!(poll_step(&c, 0, 2, 0), PollStep::Skip { interval_ms: 2, index: 1 });
    assert_eq!(interval_after_sync(&c, true), 1);
    assert_eq!(interval_after_sync(&c, false), 2);
}

#[test]
fn republish_picks_held_entries() {
    let seqs = vec![5, 3, 9, 4];
    let lowest = lowest_sequence(&seqs).unwrap();
    assert_eq!(lowest, 3);
    assert_eq!(republish_indices(&seqs, lowest, 3), vec![2, 0, 1]);
    assert_eq!(lowest_sequence(&vec![]), None);
}

#[test]
fn topic_sync_forwards_and_reads_from_lowest_missing() {
    let ops = vec![vec![1u8], vec![2u8]];
    let missing = vec![([1u8; 32], vec![5u64, 3, 9]), ([2u8; 32], vec![]), ([3u8; 32], vec![0])];
    let plan = plan_topic_sync(true, ops.clone(), &missing);
    assert_eq!(plan.forward, ops);
    assert_eq!(plan.reads, vec![([1u8; 32], 3), ([3u8; 32], 0)]);
    let plan = plan_topic_sync(false, ops, &missing);
    assert!(plan.forward.is_empty());
    assert!(plan.reads.is_empty());
}

#[test]
fn republished_ops_are_the_missing_entries_held() {
    // The log was read from sequence number 3 on: entries for 3, 4, 5.
    let log = vec![vec![3u8], vec![4u8], vec![5u8]];
    let ops = republish_ops(&vec![5, 3, 9], 3, &log);
    assert_eq!(ops, vec![vec![5u8], vec![3u8]]);
}

#[test]
fn mailboxes_keep_a_sorted_set_of_topics() {
    let mut m: Mailboxes<&str> = Mailboxes::new();
    assert!(m.subscribed_topics().is_empty());
    m.subscribe([3u8; 32]);
    m.subscribe([1u8; 32]);
    m.subscribe([3u8; 32]);
    m.subscribe([2u8; 32]);
    assert_eq!(m.subscribed_topics(), vec![[1u8; 32], [2u8; 32], [3u8; 32]]);
    m.unsubscribe(&[2u8; 32]);
    m.unsubscribe(&[9u8; 32]);
    assert_eq!(m.subscribed_topics(), vec![[1u8; 32], [3u8; 32]]);
    m.add("a");
    m.add("b");
    assert_eq!(m.len(), 2);
    m.clear();
    assert_eq!(m.len(), 0);
    assert_eq!(m.subscribed_topics(), vec![[1u8; 32], [3u8; 32]]);
}
