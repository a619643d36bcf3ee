//! Snowflake identifiers: the 64-bit identifiers the chat platform
//! assigns to every entity.

use vstd::prelude::*;

verus! {

/// A 64-bit platform identifier.
#[derive(Clone, Hash, PartialEq, Eq, Copy, Debug)]
pub struct Snowflake(pub u64);

impl From<u64> for Snowflake {
    fn from(content: u64) -> (r: Self) {
        Snowflake(content)
    }
}

impl vstd::std_specs::convert::FromSpecImpl<u64> for Snowflake {
    open spec fn obeys_from_spec() -> bool {
        true
    }

    open spec fn from_spec(content: u64) -> Self {
        Snowflake(content)
    }
}

} // verus!
