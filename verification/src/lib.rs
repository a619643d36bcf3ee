//! A partial ordered-list cache: an incrementally discovered, possibly
//! discontiguous view of an unbounded, remotely hosted ordered sequence
//! (such as a chat history), addressed by opaque item identifiers.
//!
//! The cache tracks multiple disjoint windows ("segments") of known data,
//! extends and bridges them as new items arrive, tracks whether a window
//! touches the true start or end of the remote sequence, and answers
//! positional queries with a tri-state result: known, known-absent, or
//! unknown.

pub mod async_list;
pub mod cache;
pub mod fetch;
pub mod message;
pub mod reaction;
pub mod refcache;
pub mod refcacheslice;
pub mod settings;
pub mod snowflake;
