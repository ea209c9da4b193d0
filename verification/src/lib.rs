//! Parts of a markdown tokenizer: heading (setext), label end, and
//! whitespace that may hold one line ending.

pub mod constant;
pub mod construct;
pub mod event;
pub mod resolve;
pub mod state;
pub mod subtokenize;
pub mod tokenizer;
pub mod util;
