//! The plain data that nodes exchange, and the small decisions a node takes
//! on it.
use vstd::prelude::*;

verus! {

/// What a node tells its contacts about itself.
pub struct Profile {
    pub name: String,
    pub avatar: Option<String>,
}

/// Data a node pushes out to its contacts.
pub enum AnnouncementsPayload {
    SetProfile(Profile),
}

/// What a QR code invites the scanner to do.
#[derive(Debug, Clone, Copy, PartialEq, Eq, Structural)]
pub enum ShareIntent {
    AddDevice,
    AddContact,
}

/// The kinds of space control messages.
#[derive(Debug, Clone, Copy, PartialEq, Eq, Structural)]
pub enum ArgType {
    KeyBundle,
    Auth,
    SpaceMembership,
    SpaceUpdate,
    Application,
}

/// A value kept in a table in its serialized form.
pub struct Binary<T>(pub T);

impl ArgType {
    /// The name of the kind, as `Debug` writes it.
    pub fn name(&self) -> (s: &'static str)
        ensures
            s@ == arg_type_name(*self),
    {
        proof {
            reveal_strlit("KeyBundle");
            reveal_strlit("Auth");
            reveal_strlit("SpaceMembership");
            reveal_strlit("SpaceUpdate");
            reveal_strlit("Application");
        }
        match self {
            ArgType::KeyBundle => "KeyBundle",
            ArgType::Auth => "Auth",
            ArgType::SpaceMembership => "SpaceMembership",
            ArgType::SpaceUpdate => "SpaceUpdate",
            ArgType::Application => "Application",
        }
    }
}

pub open spec fn arg_type_name(a: ArgType) -> Seq<char> {
    match a {
        ArgType::KeyBundle => "KeyBundle"@,
        ArgType::Auth => "Auth"@,
        ArgType::SpaceMembership => "SpaceMembership"@,
        ArgType::SpaceUpdate => "SpaceUpdate"@,
        ArgType::Application => "Application"@,
    }
}

/// Whether a node that adds a contact from a QR code creates the direct
/// chat space: only the initiator does, that is when the code asks to add
/// a contact and carries no inbox topic.
pub fn creates_direct_chat_space(intent: ShareIntent, has_inbox_topic: bool) -> (b: bool)
    ensures
        b == (intent == ShareIntent::AddContact && !has_inbox_topic),
{
    intent == ShareIntent::AddContact && !has_inbox_topic
}

/// Whether a space control message still has to go through the space
/// manager: when authoring, every kind but `Application` is processed
/// already.
pub fn needs_space_processing(is_author: bool, arg_type: ArgType) -> (b: bool)
    ensures
        b == (!is_author || arg_type == ArgType::Application),
{
    !is_author || arg_type == ArgType::Application
}

} // verus!
