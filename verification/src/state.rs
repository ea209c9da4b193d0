//! States of the tokenizer's state machine.

use vstd::prelude::*;

verus! {

/// Names of the states that the constructs in this crate move to.
#[derive(Clone, Copy, Debug, PartialEq, Eq, Structural)]
pub enum Name {
    /// Start of a destination.
    DestinationStart,
    /// After a heading (setext) underline and its whitespace.
    HeadingSetextAfter,
    /// Before a heading (setext) underline, after whitespace.
    HeadingSetextBefore,
    /// In a heading (setext) underline.
    HeadingSetextInside,
    /// After a label end.
    LabelEndAfter,
    /// A label end that matched nothing.
    LabelEndNok,
    /// A label end that matched.
    LabelEndOk,
    /// At the `[` of a collapsed reference.
    LabelEndReferenceCollapsed,
    /// At the `]` of a collapsed reference.
    LabelEndReferenceCollapsedOpen,
    /// At the `[` of a full reference.
    LabelEndReferenceFull,
    /// After a full reference.
    LabelEndReferenceFullAfter,
    /// At a reference that is not full.
    LabelEndReferenceNotFull,
    /// After the `(` of a resource.
    LabelEndResourceBefore,
    /// In a resource, after the destination and whitespace.
    LabelEndResourceBetween,
    /// In a resource, after the destination.
    LabelEndResourceDestinationAfter,
    /// In a resource, without a destination.
    LabelEndResourceDestinationMissing,
    /// At the `)` of a resource.
    LabelEndResourceEnd,
    /// In a resource, after the `(` and whitespace.
    LabelEndResourceOpen,
    /// At the `(` of a resource.
    LabelEndResourceStart,
    /// In a resource, after the title.
    LabelEndResourceTitleAfter,
    /// Start of a label.
    LabelStart,
    /// `space_or_tab_eol`: after the line ending.
    SpaceOrTabEolAfterEol,
    /// `space_or_tab_eol`: after whitespace before the line ending.
    SpaceOrTabEolAfterFirst,
    /// `space_or_tab_eol`: after whitespace after the line ending.
    SpaceOrTabEolAfterMore,
    /// `space_or_tab_eol`: at the line ending, if any.
    SpaceOrTabEolAtEol,
    /// `space_or_tab_eol`: start.
    SpaceOrTabEolStart,
    /// `space_or_tab`: start.
    SpaceOrTabStart,
    /// Start of a title.
    TitleStart,
}

/// What a state function answers.
#[derive(Clone, Copy, Debug, PartialEq, Eq, Structural)]
pub enum State {
    /// Move to the named state at the next byte.
    Next(Name),
    /// Move to the named state at the current byte.
    Retry(Name),
    /// The construct succeeded.
    Okay,
    /// The construct failed.
    Nok,
}

} // verus!
