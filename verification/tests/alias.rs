use dashchat::alias::{alias_of, alias_space_messages, set_alias, AliasRegistry, AliasedId, ShortId};
use dashchat::payload::ArgType;
use dashchat::topic::{Chat, Topic};

fn chat(first: u8) -> Topic<Chat> {
    let mut id = [0u8; 32];
    id[0] = first;
    id[1] = 0xab;
    Topic::untyped(id).recast()
}

#[test]
fn unaliased_ids_show_their_short_form() {
    let reg = AliasRegistry::new();
    assert_eq!(chat(1).short(), "T01ab");
    assert_eq!(chat(1).prefix(), "T");
    assert!(!chat(1).show_short_id());
    assert_eq!(chat(1).as_bytes(), chat(1).id().to_vec());
    assert_eq!(alias_of(&reg, &chat(1)), "T01ab");
}

#[test]
fn aliases_replace_each_other() {
    let mut reg = AliasRegistry::new();
    assert_eq!(set_alias(&mut reg, &chat(1), "first"), None);
    assert_eq!(alias_of(&reg, &chat(1)), "⟪T‖first⟫");
    assert_eq!(set_alias(&mut reg, &chat(1), "second"), Some("⟪T‖first⟫".to_string()));
    assert_eq!(alias_of(&reg, &chat(1)), "⟪T‖second⟫");
    assert_eq!(alias_of(&reg, &chat(2)), "T02ab");
}

#[test]
fn space_messages_are_aliased_by_position_and_kind() {
    let mut reg = AliasRegistry::new();
    let msgs = vec![(chat(1), ArgType::KeyBundle), (chat(2), ArgType::Application)];
    alias_space_messages(&mut reg, "init", &msgs);
    assert_eq!(alias_of(&reg, &msgs[0].0), "⟪T‖init/0/KeyBundle⟫");
    assert_eq!(alias_of(&reg, &msgs[1].0), "⟪T‖init/1/Application⟫");
}

#[test]
fn registry_get_and_insert() {
    let mut reg = AliasRegistry::new();
    assert_eq!(reg.get(&vec![1, 2]), None);
    assert_eq!(reg.insert(vec![1, 2], "x".to_string()), None);
    assert_eq!(reg.insert(vec![1, 2], "y".to_string()), Some("x".to_string()));
    assert_eq!(reg.get(&vec![1, 2]), Some("y".to_string()));
    assert_eq!(reg.get(&vec![1]), None);
}
