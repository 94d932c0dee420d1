//! Channel classification by name prefix.
use vstd::prelude::*;
use crate::text::{drop_prefix, starts_with};

verus! {

/// The kind of a channel, derived from its name.
#[derive(Debug, Clone, Copy, PartialEq, Eq, Structural)]
pub enum ChannelType {
    Public,
    Private,
    PrivateEncrypted,
    Presence,
    ServerToUser,
}

pub open spec fn presence_prefix() -> Seq<char> {
    seq!['p', 'r', 'e', 's', 'e', 'n', 'c', 'e', '-']
}

pub open spec fn private_prefix() -> Seq<char> {
    seq!['p', 'r', 'i', 'v', 'a', 't', 'e', '-']
}

pub open spec fn private_encrypted_prefix() -> Seq<char> {
    seq!['p', 'r', 'i', 'v', 'a', 't', 'e', '-', 'e', 'n', 'c', 'r', 'y', 'p', 't', 'e', 'd', '-']
}

pub open spec fn server_to_user_prefix() -> Seq<char> {
    seq!['#', 's', 'e', 'r', 'v', 'e', 'r', '-', 't', 'o', '-', 'u', 's', 'e', 'r', '-']
}

/// The type of the channel named `name`.
pub open spec fn channel_type_of(name: Seq<char>) -> ChannelType {
    if presence_prefix().is_prefix_of(name) {
        ChannelType::Presence
    } else if private_encrypted_prefix().is_prefix_of(name) {
        ChannelType::PrivateEncrypted
    } else if private_prefix().is_prefix_of(name) {
        ChannelType::Private
    } else if server_to_user_prefix().is_prefix_of(name) {
        ChannelType::ServerToUser
    } else {
        ChannelType::Public
    }
}

pub open spec fn spec_requires_authentication(t: ChannelType) -> bool {
    t == ChannelType::Private || t == ChannelType::PrivateEncrypted || t == ChannelType::Presence
}

/// For `#server-to-user-<uid>`, the `uid`.
pub open spec fn server_to_user_id(name: Seq<char>) -> Seq<char> {
    name.subrange(server_to_user_prefix().len() as int, name.len() as int)
}

impl ChannelType {
    /// Classifies a channel name by its prefix.
    pub fn from_name(name: &str) -> (r: ChannelType)
        ensures
            r == channel_type_of(name@),
    {
        proof {
            reveal_strlit("presence-");
            reveal_strlit("private-encrypted-");
            reveal_strlit("private-");
            reveal_strlit("#server-to-user-");
        }
        if starts_with(name, "presence-") {
            assert("presence-"@ =~= presence_prefix());
            ChannelType::Presence
        } else if starts_with(name, "private-encrypted-") {
            assert("presence-"@ =~= presence_prefix());
            assert("private-encrypted-"@ =~= private_encrypted_prefix());
            ChannelType::PrivateEncrypted
        } else if starts_with(name, "private-") {
            assert("presence-"@ =~= presence_prefix());
            assert("private-encrypted-"@ =~= private_encrypted_prefix());
            assert("private-"@ =~= private_prefix());
            ChannelType::Private
        } else if starts_with(name, "#server-to-user-") {
            assert("presence-"@ =~= presence_prefix());
            assert("private-encrypted-"@ =~= private_encrypted_prefix());
            assert("private-"@ =~= private_prefix());
            assert("#server-to-user-"@ =~= server_to_user_prefix());
            ChannelType::ServerToUser
        } else {
            assert("presence-"@ =~= presence_prefix());
            assert("private-encrypted-"@ =~= private_encrypted_prefix());
            assert("private-"@ =~= private_prefix());
            assert("#server-to-user-"@ =~= server_to_user_prefix());
            ChannelType::Public
        }
    }

    /// Private, private-encrypted and presence channels need a signed token.
    pub fn requires_authentication(&self) -> (r: bool)
        ensures
            r == spec_requires_authentication(*self),
    {
        match self {
            ChannelType::Private | ChannelType::PrivateEncrypted | ChannelType::Presence => true,
            _ => false,
        }
    }

    pub fn is_presence(&self) -> (r: bool)
        ensures
            r == (*self == ChannelType::Presence),
    {
        match self {
            ChannelType::Presence => true,
            _ => false,
        }
    }
}

/// The user id addressed by a `#server-to-user-<uid>` channel.
pub fn server_to_user_target(name: &str) -> (r: Option<String>)
    ensures
        r.is_some() == server_to_user_prefix().is_prefix_of(name@),
        r.is_some() ==> r.unwrap()@ == server_to_user_id(name@),
{
    proof { reveal_strlit("#server-to-user-"); }
    if starts_with(name, "#server-to-user-") {
        assert("#server-to-user-"@ =~= server_to_user_prefix());
        Some(drop_prefix(name, 16))
    } else {
        assert("#server-to-user-"@ =~= server_to_user_prefix());
        None
    }
}

} // verus!
