//! Utilities used when processing markdown.

pub mod edit_map;
pub mod nesting;
pub mod normalize_identifier;
pub mod skip;
pub mod slice;
