//! Reactions attached to chat messages: the emoji vocabulary and the
//! operations a live feed can apply to a message's reaction list.

use vstd::prelude::*;

verus! {

/// Whether a reaction is an ordinary one or a "burst" reaction.
#[derive(Clone, Copy, Debug, PartialEq, Eq)]
pub enum MessageReactionType {
    Normal,
    Burst,
}

/// An emoji used in a reaction: either a plain unicode emoji or a
/// custom one hosted by the chat platform.
#[derive(Clone, Debug, PartialEq, Eq)]
pub enum ReactionEmoji {
    Simple(String),
    Custom { url: String, animated: bool, name: Option<String>, id: u64 },
}

/// One change to a message's reaction list, as delivered by the live
/// feed.
#[derive(Clone, Debug)]
pub enum ReactionOperation {
    Add(ReactionEmoji, MessageReactionType),
    AddSelf(ReactionEmoji, MessageReactionType),
    Remove(ReactionEmoji),
    RemoveSelf(ReactionEmoji),
    RemoveAll,
    RemoveEmoji(ReactionEmoji),
    SetMembers(ReactionEmoji, Vec<String>),
}

/// A reaction change paired with the identifier of the message it
/// applies to.
pub type ReactionEvent<T> = (T, ReactionOperation);

} // verus!
