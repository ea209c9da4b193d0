//! Names of resolvers: passes over all events once tokenizing is done.

use vstd::prelude::*;

verus! {

/// Resolvers that the constructs in this crate register.
#[derive(Clone, Copy, Debug, PartialEq, Eq, Structural)]
pub enum Name {
    /// Resolve labels into links and images.
    Label,
    /// Resolve headings (setext).
    HeadingSetext,
}

} // verus!
