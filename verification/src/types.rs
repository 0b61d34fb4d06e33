//! Platform-agnostic input types and the [`AnalysisInput`] bundle.
//!
//! All identifiers are opaque strings. A message with `thread_root_id ==
//! None` is a top-level message (a thread root); a reply carries
//! `Some(root_id)`. A root may equivalently be encoded as `Some(self.id)`.
//! Timestamps are microseconds since the Unix epoch (UTC).

use vstd::prelude::*;

use crate::config::CommConfig;
use crate::models::{ChannelCategory, Role};

verus! {

/// A message in any chat / collaboration platform.
#[derive(Debug)]
pub struct Message {
    pub id: String,
    pub channel_id: String,
    pub author_id: String,
    pub text: String,
    /// Send time, microseconds since the Unix epoch (UTC).
    pub timestamp: i64,
    /// `None` => top-level / thread root; `Some(root_id)` => reply.
    pub thread_root_id: Option<String>,
    /// Aggregate reaction count if known; `0` when unused.
    pub reaction_count: usize,
}

pub fn clone_opt_string(s: &Option<String>) -> (r: Option<String>)
    ensures
        r == *s,
{
    match s {
        Some(x) => Some(x.clone()),
        None => None,
    }
}

impl Clone for Message {
    fn clone(&self) -> (r: Self)
        ensures
            r == *self,
    {
        Message {
            id: self.id.clone(),
            channel_id: self.channel_id.clone(),
            author_id: self.author_id.clone(),
            text: self.text.clone(),
            timestamp: self.timestamp,
            thread_root_id: clone_opt_string(&self.thread_root_id),
            reaction_count: self.reaction_count,
        }
    }
}

/// A channel / room / forum.
#[derive(Debug)]
pub struct Channel {
    pub id: String,
    pub name: String,
    /// Pre-resolved by the caller via config or platform metadata.
    pub category: Option<ChannelCategory>,
    /// Decision / leadership channel (set by the caller).
    pub is_decision_channel: bool,
}

impl Clone for Channel {
    fn clone(&self) -> (r: Self)
        ensures
            r == *self,
    {
        Channel {
            id: self.id.clone(),
            name: self.name.clone(),
            category: self.category,
            is_decision_channel: self.is_decision_channel,
        }
    }
}

/// A user / member.
#[derive(Debug)]
pub struct User {
    pub id: String,
    pub display_name: String,
    /// Pre-resolved by the caller; `Role::Unknown` when unknown.
    pub role: Role,
}

impl Clone for User {
    fn clone(&self) -> (r: Self)
        ensures
            r == *self,
    {
        User { id: self.id.clone(), display_name: self.display_name.clone(), role: self.role }
    }
}

/// A reaction (e.g. an emoji on a message).
#[derive(Debug)]
pub struct Reaction {
    pub message_id: String,
    pub channel_id: String,
    pub user_id: String,
    /// Canonical short name (e.g. `"thumbsup"`, `"+1"`).
    pub emoji_name: String,
}

impl Clone for Reaction {
    fn clone(&self) -> (r: Self)
        ensures
            r == *self,
    {
        Reaction {
            message_id: self.message_id.clone(),
            channel_id: self.channel_id.clone(),
            user_id: self.user_id.clone(),
            emoji_name: self.emoji_name.clone(),
        }
    }
}

/// Bundle of in-memory slices that every `compute_h*` consumes.
pub struct AnalysisInput<'a> {
    pub messages: &'a [Message],
    pub channels: &'a [Channel],
    pub users: &'a [User],
    pub reactions: &'a [Reaction],
    pub config: &'a CommConfig,
}

} // verus!
