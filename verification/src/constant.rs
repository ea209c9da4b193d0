//! Constants of the markdown grammar.

use vstd::prelude::*;

verus! {

/// Number of columns a tab stop spans.
pub const TAB_SIZE: usize = 4;

/// How many unbalanced parens a raw resource destination may contain.
pub const RESOURCE_DESTINATION_BALANCE_MAX: usize = 32;

} // verus!
