//! Core vocabulary of the ordered-list cache: positional queries, list
//! items, and query results.

use vstd::prelude::*;

verus! {

/// A position in the true (remote) sequence, expressed either relative to
/// one of its two ends or relative to an already known item.
#[derive(Clone, Copy, Debug)]
pub enum AsyncListIndex<I> {
    /// The item `n` positions after the true start of the sequence.
    RelativeToTop(usize),
    /// The item immediately preceding the anchor; `Before` is closer to
    /// the top.
    Before(I),
    /// The item `n` positions before the true end of the sequence.
    RelativeToBottom(usize),
    /// The item immediately following the anchor; `After` is closer to
    /// the bottom.
    After(I),
}

/// An item that can live in an ordered-list cache.
///
/// Identifiers are opaque to the cache except for equality: order between
/// two identifiers is only ever learned through adjacency of insertions.
/// They are represented as `i64` so that equality of identifiers is plain
/// integer equality.
pub trait AsyncListItem: Sized {
    /// The identifier of this item, as a specification-level value.
    spec fn list_identifier(&self) -> i64;

    /// The identifier of this item.
    fn get_list_identifier(&self) -> (id: i64)
        ensures
            id == self.list_identifier(),
    ;

    /// An owned copy of this item, equal to the original.
    fn duplicate(&self) -> (other: Self)
        ensures
            other == *self,
    ;
}

/// A minimal list item carrying nothing but its identifier.
#[derive(Clone, Copy, Debug, PartialEq, Eq)]
pub struct ListItem(pub i64);

impl AsyncListItem for ListItem {
    open spec fn list_identifier(&self) -> i64 {
        self.0
    }

    fn get_list_identifier(&self) -> (id: i64) {
        self.0
    }

    fn duplicate(&self) -> (other: Self) {
        ListItem(self.0)
    }
}

/// A positional query answer: the item found, together with whether that
/// item is known to be the very first or the very last of the true
/// sequence.
#[derive(Clone, Copy, Debug, PartialEq, Eq)]
pub struct AsyncListResult<T> {
    pub content: T,
    pub is_top: bool,
    pub is_bottom: bool,
}

} // verus!
