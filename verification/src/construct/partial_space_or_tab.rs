//! Spaces and tabs (`space_or_tab`).

use vstd::prelude::*;
use crate::event::{Content, Name};
use crate::state::Name as StateName;
use crate::tokenizer::{Tokenizer, TokenizerModel, TokenizeStateModel};

verus! {

/// Options to parse `space_or_tab`.
#[derive(Clone, Copy, Debug)]
pub struct Options {
    /// Token name to use.
    pub kind: Name,
    /// Minimum allowed bytes (inclusive).
    pub min: usize,
    /// Maximum allowed bytes (inclusive).
    pub max: usize,
    /// Embedded content type to use.
    pub content_type: Option<Content>,
    /// Connect this whitespace to the previous.
    pub connect: bool,
}

/// The tokenizer once `space_or_tab` is set up with `options`.
pub open spec fn space_or_tab_set(m: TokenizerModel, options: Options) -> TokenizerModel {
    m.with_state(
        TokenizeStateModel {
            space_or_tab_connect: options.connect,
            space_or_tab_content_type: options.content_type,
            space_or_tab_min: options.min,
            space_or_tab_max: options.max,
            space_or_tab_token: options.kind,
            ..m.tokenize_state
        },
    )
}

/// One or more `space_or_tab`.
pub fn space_or_tab(tokenizer: &mut Tokenizer) -> (r: StateName)
    ensures
        r == StateName::SpaceOrTabStart,
        final(tokenizer)@ == space_or_tab_set(
            old(tokenizer)@,
            Options {
                kind: Name::SpaceOrTab,
                min: 1,
                max: usize::MAX,
                content_type: None,
                connect: false,
            },
        ),
{
    space_or_tab_min_max(tokenizer, 1, usize::MAX)
}

/// Between `min` and `max` `space_or_tab`.
pub fn space_or_tab_min_max(tokenizer: &mut Tokenizer, min: usize, max: usize) -> (r: StateName)
    ensures
        r == StateName::SpaceOrTabStart,
        final(tokenizer)@ == space_or_tab_set(
            old(tokenizer)@,
            Options { kind: Name::SpaceOrTab, min, max, content_type: None, connect: false },
        ),
{
    space_or_tab_with_options(
        tokenizer,
        Options { kind: Name::SpaceOrTab, min, max, content_type: None, connect: false },
    )
}

/// `space_or_tab`, with the given options.
pub fn space_or_tab_with_options(tokenizer: &mut Tokenizer, options: Options) -> (r: StateName)
    ensures
        r == StateName::SpaceOrTabStart,
        final(tokenizer)@ == space_or_tab_set(old(tokenizer)@, options),
{
    tokenizer.tokenize_state.space_or_tab_connect = options.connect;
    tokenizer.tokenize_state.space_or_tab_content_type = options.content_type;
    tokenizer.tokenize_state.space_or_tab_min = options.min;
    tokenizer.tokenize_state.space_or_tab_max = options.max;
    tokenizer.tokenize_state.space_or_tab_token = options.kind;
    StateName::SpaceOrTabStart
}

} // verus!
