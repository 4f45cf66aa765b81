use std::cmp::Ordering;

use dashchat::chat::{Chat, ChatMessage, ChatMessageContent};
use dashchat::topic::Topic;

fn msg(text: &str, author: u8, timestamp: u64) -> ChatMessage {
    ChatMessage::new(ChatMessageContent::from_str(text), [author; 32], timestamp)
}

#[test]
fn messages_order_by_time_text_author() {
    assert_eq!(msg("b", 1, 1).compare(&msg("a", 0, 2)), Ordering::Less);
    assert_eq!(msg("a", 1, 1).compare(&msg("b", 0, 1)), Ordering::Less);
    assert_eq!(msg("a", 0, 1).compare(&msg("a", 1, 1)), Ordering::Less);
    assert_eq!(msg("a", 1, 1).compare(&msg("a", 0, 1)), Ordering::Greater);
    assert_eq!(msg("a", 1, 1).compare(&msg("a", 1, 1)), Ordering::Equal);
}

#[test]
fn chat_keeps_messages_ordered_and_once() {
    let mut chat = Chat::new(Topic::random());
    assert!(chat.messages.is_empty());
    assert!(!chat.removed);
    assert!(chat.insert_message(msg("later", 0, 5)));
    assert!(chat.insert_message(msg("earlier", 0, 1)));
    assert!(!chat.insert_message(msg("later", 0, 5)));
    assert!(chat.insert_message(msg("middle", 0, 3)));
    let times: Vec<u64> = chat.messages.iter().map(|m| m.timestamp).collect();
    assert_eq!(times, vec![1, 3, 5]);
}
