use dashchat::receipts::{unacknowledged_messages, ChatRecord, LogRecord};

fn rec(author: u8, hash: u8, record: ChatRecord) -> LogRecord {
    LogRecord { author: [author; 32], hash: [hash; 32], record }
}

#[test]
fn peer_messages_without_receipt_are_unacknowledged() {
    let me = [1u8; 32];
    let logs = vec![
        rec(2, 10, ChatRecord::Message),
        rec(2, 11, ChatRecord::Message),
        rec(1, 12, ChatRecord::Message),
        rec(1, 13, ChatRecord::ReceivedMessages(vec![[10u8; 32]])),
        rec(3, 14, ChatRecord::Message),
        rec(3, 15, ChatRecord::Other),
        rec(2, 11, ChatRecord::Message),
    ];
    assert_eq!(unacknowledged_messages(&me, &logs), vec![[11u8; 32], [14u8; 32]]);
}

#[test]
fn receipts_of_others_do_not_count() {
    let me = [1u8; 32];
    let logs = vec![
        rec(2, 10, ChatRecord::Message),
        rec(3, 13, ChatRecord::ReceivedMessages(vec![[10u8; 32]])),
    ];
    assert_eq!(unacknowledged_messages(&me, &logs), vec![[10u8; 32]]);
    assert!(unacknowledged_messages(&me, &vec![]).is_empty());
}
