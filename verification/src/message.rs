//! Rendering configuration carried alongside a message author's icon.

use vstd::prelude::*;

verus! {

/// How large an author icon should be rendered, in pixels.
#[derive(Clone, Copy, Debug)]
pub struct IconRenderConfig {
    size: usize,
}

impl IconRenderConfig {
    /// The configured size.
    pub closed spec fn spec_size(&self) -> usize {
        self.size
    }

    /// A small icon, as used inline next to a message.
    pub fn small() -> (c: Self)
        ensures
            c.spec_size() == 32,
    {
        IconRenderConfig { size: 32 }
    }

    /// The same configuration with another size.
    pub fn with_size(self, size: usize) -> (c: IconRenderConfig)
        ensures
            c.spec_size() == size,
    {
        IconRenderConfig { size }
    }

    pub fn size(&self) -> (s: usize)
        ensures
            s == self.spec_size(),
    {
        self.size
    }
}

impl Default for IconRenderConfig {
    /// The full-resolution default.
    fn default() -> (c: Self)
        ensures
            c.spec_size() == 1024,
    {
        IconRenderConfig { size: 1024 }
    }
}

} // verus!
