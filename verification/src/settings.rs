//! The client's persisted settings. Reading and writing them on disk
//! is the surrounding application's concern; the library only defines
//! the value.

use vstd::prelude::*;

verus! {

/// The persisted settings: at most a login token.
#[derive(Debug)]
pub struct Settings {
    pub token: Option<String>,
}

impl Settings {
    /// Fresh settings, with no token yet.
    pub fn new() -> (r: Self)
        ensures
            r.token is None,
    {
        Settings { token: None }
    }
}

} // verus!
