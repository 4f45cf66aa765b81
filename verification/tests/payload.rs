use dashchat::payload::{
    creates_direct_chat_space, needs_space_processing, AnnouncementsPayload, ArgType, Binary,
    Profile, ShareIntent,
};

#[test]
fn only_the_initiator_creates_the_direct_chat() {
    assert!(creates_direct_chat_space(ShareIntent::AddContact, false));
    assert!(!creates_direct_chat_space(ShareIntent::AddContact, true));
    assert!(!creates_direct_chat_space(ShareIntent::AddDevice, false));
}

#[test]
fn authors_process_only_application_messages() {
    assert!(needs_space_processing(false, ArgType::Auth));
    assert!(needs_space_processing(true, ArgType::Application));
    assert!(!needs_space_processing(true, ArgType::SpaceMembership));
}

#[test]
fn arg_type_names() {
    assert_eq!(ArgType::KeyBundle.name(), format!("{:?}", ArgType::KeyBundle));
    assert_eq!(ArgType::SpaceUpdate.name(), "SpaceUpdate");
}

#[test]
fn profile_payload_carries_profile() {
    let p = AnnouncementsPayload::SetProfile(Profile { name: "Alice".into(), avatar: None });
    let AnnouncementsPayload::SetProfile(profile) = p;
    assert_eq!(profile.name, "Alice");
    let Binary(x) = Binary(5u8);
    assert_eq!(x, 5);
}
