use vstd::prelude::*;
use vstd::string::{StrSliceExecFns, StringExecFns};

verus! {

/// Longest message body (in characters) that the hub accepts.  Anything
/// longer is silently dropped before it reaches a room.
pub const MAX_MESSAGE_LEN: usize = 128;

/// The mathematical value of a chat message: the optional sender name and
/// the message body, both as character sequences.
#[verifier::ext_equal]
pub struct MsgView {
    pub user: Option<Seq<char>>,
    pub message: Seq<char>,
}

/// A chat message.  An inbound message has no `user`; the hub enriches it
/// with the sender's display name before broadcasting it.
pub struct Chat {
    pub user: Option<String>,
    pub message: String,
}

impl View for Chat {
    type V = MsgView;

    open spec fn view(&self) -> MsgView {
        MsgView {
            user: match self.user {
                Some(u) => Some(u@),
                None => None,
            },
            message: self.message@,
        }
    }
}

impl Clone for Chat {
    fn clone(&self) -> (r: Self)
        ensures
            r@ == self@,
    {
        Chat {
            user: match &self.user {
                Some(u) => Some(u.clone()),
                None => None,
            },
            message: self.message.clone(),
        }
    }
}

/// A message body is accepted only if it does not exceed the length bound.
pub open spec fn valid_message(m: Seq<char>) -> bool {
    m.len() <= MAX_MESSAGE_LEN
}

/// The broadcast unit built from an accepted body: the body plus the
/// sender's display name.
pub open spec fn enriched(name: Seq<char>, m: Seq<char>) -> MsgView {
    MsgView { user: Some(name), message: m }
}

impl Chat {
    /// Build an inbound message, not yet attributed to a sender.
    pub fn inbound(message: String) -> (c: Chat)
        ensures
            c@ == (MsgView { user: None, message: message@ }),
    {
        Chat { user: None, message }
    }

    /// Attach the sender's display name to an accepted message body.
    pub fn enrich(name: &str, message: String) -> (c: Chat)
        ensures
            c@ == enriched(name@, message@),
    {
        Chat { user: Some(String::from_str(name)), message }
    }

    /// Whether the message body is short enough to broadcast.
    pub fn is_valid(&self) -> (r: bool)
        ensures
            r == valid_message(self@.message),
    {
        self.message.as_str().unicode_len() <= MAX_MESSAGE_LEN
    }
}

} // verus!
