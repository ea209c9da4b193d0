//! Constructs found in markdown.

pub mod heading_setext;
pub mod label_end;
pub mod partial_space_or_tab;
pub mod partial_space_or_tab_eol;
