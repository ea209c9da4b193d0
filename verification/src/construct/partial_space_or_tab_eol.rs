//! Several helpers to parse whitespace (`space_or_tab`, `space_or_tab_eol`).
//!
//! ## References
//!
//! *   [`micromark-factory-space/index.js` in `micromark`](https://github.com/micromark/micromark/blob/main/packages/micromark-factory-space/dev/index.js)

use vstd::prelude::*;
use crate::construct::partial_space_or_tab::{
    space_or_tab_set, space_or_tab_with_options, Options as SpaceOrTabOptions,
};
use crate::event::{Content, Name};
use crate::state::{Name as StateName, State};
use crate::subtokenize::{link, linked};
use crate::tokenizer::{content_link, Tokenizer, TokenizerModel, TokenizeStateModel};

verus! {

/// Options to parse `space_or_tab` and one optional eol, but no blank line.
#[derive(Clone, Copy, Debug)]
pub struct Options {
    /// Connect this whitespace to the previous.
    pub connect: bool,
    /// Embedded content type to use.
    pub content_type: Option<Content>,
}

/// The tokenizer once `space_or_tab_eol` is set up.
pub open spec fn eol_set(m: TokenizerModel, content_type: Option<Content>, connect: bool) -> TokenizerModel {
    m.with_state(
        TokenizeStateModel {
            space_or_tab_eol_content_type: content_type,
            space_or_tab_eol_connect: connect,
            ..m.tokenize_state
        },
    )
}

/// The tokenizer once `space_or_tab_eol` is done: its state is cleared.
pub open spec fn eol_reset(m: TokenizerModel) -> TokenizerModel {
    m.with_state(
        TokenizeStateModel {
            space_or_tab_eol_content_type: None,
            space_or_tab_eol_connect: false,
            space_or_tab_eol_ok: false,
            ..m.tokenize_state
        },
    )
}

/// The `space_or_tab` that `space_or_tab_eol` tries, with its content type
/// and connection.
pub open spec fn eol_whitespace(m: TokenizerModel) -> SpaceOrTabOptions {
    SpaceOrTabOptions {
        kind: Name::SpaceOrTab,
        min: 1,
        max: usize::MAX,
        content_type: m.tokenize_state.space_or_tab_eol_content_type,
        connect: m.tokenize_state.space_or_tab_eol_connect,
    }
}

/// The tokenizer once whitespace came before the line ending: the run is
/// fine without a line ending, and with a content type it connects.
pub open spec fn eol_whitespace_seen(m: TokenizerModel) -> TokenizerModel {
    m.with_state(
        TokenizeStateModel {
            space_or_tab_eol_ok: true,
            space_or_tab_eol_connect: m.tokenize_state.space_or_tab_eol_connect
                || m.tokenize_state.space_or_tab_eol_content_type is Some,
            ..m.tokenize_state
        },
    )
}

/// The tokenizer after the line ending is entered (and linked, if it
/// connects), before it is consumed.
pub open spec fn eol_line_ending(m: TokenizerModel) -> TokenizerModel {
    let content_type = m.tokenize_state.space_or_tab_eol_content_type;
    let entered = m.entered_with_link(Name::LineEnding, content_link(content_type));
    if m.tokenize_state.space_or_tab_eol_connect {
        let index = m.events.len() as usize;
        TokenizerModel {
            events: linked(entered.events, (index - 2) as usize, index),
            ..entered
        }
    } else if content_type is Some {
        entered.with_state(
            TokenizeStateModel { space_or_tab_eol_connect: true, ..entered.tokenize_state },
        )
    } else {
        entered
    }
}

/// `space_or_tab`, or optionally `space_or_tab`, one `eol`, and
/// optionally `space_or_tab`.
///
/// ```bnf
/// space_or_tab_eol ::= 1*( ' ' '\t' ) | 0*( ' ' '\t' ) eol 0*( ' ' '\t' )
/// ```
pub fn space_or_tab_eol(tokenizer: &mut Tokenizer) -> (r: StateName)
    ensures
        r == StateName::SpaceOrTabEolStart,
        final(tokenizer)@ == eol_set(old(tokenizer)@, None, false),
{
    space_or_tab_eol_with_options(tokenizer, Options { content_type: None, connect: false })
}

/// `space_or_tab_eol`, with the given options.
pub fn space_or_tab_eol_with_options(tokenizer: &mut Tokenizer, options: Options) -> (r: StateName)
    ensures
        r == StateName::SpaceOrTabEolStart,
        final(tokenizer)@ == eol_set(old(tokenizer)@, options.content_type, options.connect),
{
    tokenizer.tokenize_state.space_or_tab_eol_content_type = options.content_type;
    tokenizer.tokenize_state.space_or_tab_eol_connect = options.connect;
    StateName::SpaceOrTabEolStart
}

/// `space_or_tab_eol`: start, trying whitespace before the line ending.
///
/// ```markdown
/// > | a
///      ^
///   | b
/// ```
pub fn eol_start(tokenizer: &mut Tokenizer) -> (r: State)
    ensures
        r == State::Retry(StateName::SpaceOrTabStart),
        final(tokenizer)@ == space_or_tab_set(
            old(tokenizer)@.attempted(
                State::Next(StateName::SpaceOrTabEolAfterFirst),
                State::Next(StateName::SpaceOrTabEolAtEol),
            ),
            eol_whitespace(old(tokenizer)@),
        ),
{
    tokenizer.attempt(
        State::Next(StateName::SpaceOrTabEolAfterFirst),
        State::Next(StateName::SpaceOrTabEolAtEol),
    );
    let content_type = tokenizer.tokenize_state.space_or_tab_eol_content_type;
    let connect = tokenizer.tokenize_state.space_or_tab_eol_connect;
    State::Retry(
        space_or_tab_with_options(
            tokenizer,
            SpaceOrTabOptions {
                kind: Name::SpaceOrTab,
                min: 1,
                max: usize::MAX,
                content_type,
                connect,
            },
        ),
    )
}

/// `space_or_tab_eol`: after whitespace before a line ending.
///
/// ```markdown
/// > | a␠␠
///        ^
///   | b
/// ```
pub fn eol_after_first(tokenizer: &mut Tokenizer) -> (r: State)
    ensures
        r == State::Retry(StateName::SpaceOrTabEolAtEol),
        final(tokenizer)@ == eol_whitespace_seen(old(tokenizer)@),
{
    tokenizer.tokenize_state.space_or_tab_eol_ok = true;

    if tokenizer.tokenize_state.space_or_tab_eol_content_type.is_some() {
        tokenizer.tokenize_state.space_or_tab_eol_connect = true;
    }

    State::Retry(StateName::SpaceOrTabEolAtEol)
}

/// `space_or_tab_eol`: after optionally first `space_or_tab`.
///
/// ```markdown
/// > | a
///      ^
///   | b
/// ```
pub fn eol_at_eol(tokenizer: &mut Tokenizer) -> (r: State)
    requires
        old(tokenizer)@.current == Some(0x0Au8) ==> old(tokenizer)@.can_consume(),
        old(tokenizer)@.current == Some(0x0Au8)
            && old(tokenizer)@.tokenize_state.space_or_tab_eol_connect ==> {
            &&& old(tokenizer)@.tokenize_state.space_or_tab_eol_content_type is Some
            &&& old(tokenizer)@.events.len() >= 2
            &&& old(tokenizer)@.events[old(tokenizer)@.events.len() - 2].link is Some
        },
    ensures
        old(tokenizer)@.current == Some(0x0Au8) ==> {
            &&& r == State::Next(StateName::SpaceOrTabEolAfterEol)
            &&& final(tokenizer)@ == eol_line_ending(old(tokenizer)@).consumed().exited(
                Name::LineEnding,
            )
        },
        old(tokenizer)@.current != Some(0x0Au8) ==> {
            &&& r == (if old(tokenizer)@.tokenize_state.space_or_tab_eol_ok {
                State::Okay
            } else {
                State::Nok
            })
            &&& final(tokenizer)@ == eol_reset(old(tokenizer)@)
        },
{
    if tokenizer.current == Some(0x0Au8) {
        let content_type = tokenizer.tokenize_state.space_or_tab_eol_content_type;
        tokenizer.enter_with_content(Name::LineEnding, content_type);

        if tokenizer.tokenize_state.space_or_tab_eol_connect {
            let index: usize = tokenizer.events.len() - 1;
            link(&mut tokenizer.events, index);
        } else if tokenizer.tokenize_state.space_or_tab_eol_content_type.is_some() {
            tokenizer.tokenize_state.space_or_tab_eol_connect = true;
        }

        tokenizer.consume();
        tokenizer.exit(Name::LineEnding);
        State::Next(StateName::SpaceOrTabEolAfterEol)
    } else {
        let ok = tokenizer.tokenize_state.space_or_tab_eol_ok;
        tokenizer.tokenize_state.space_or_tab_eol_content_type = None;
        tokenizer.tokenize_state.space_or_tab_eol_connect = false;
        tokenizer.tokenize_state.space_or_tab_eol_ok = false;
        if ok {
            State::Okay
        } else {
            State::Nok
        }
    }
}

/// `space_or_tab_eol`: after eol.
///
/// ```markdown
///   | a
/// > | b
///     ^
/// ```
pub fn eol_after_eol(tokenizer: &mut Tokenizer) -> (r: State)
    ensures
        r == State::Retry(StateName::SpaceOrTabStart),
        final(tokenizer)@ == space_or_tab_set(
            old(tokenizer)@.attempted(
                State::Next(StateName::SpaceOrTabEolAfterMore),
                State::Next(StateName::SpaceOrTabEolAfterMore),
            ),
            eol_whitespace(old(tokenizer)@),
        ),
{
    tokenizer.attempt(
        State::Next(StateName::SpaceOrTabEolAfterMore),
        State::Next(StateName::SpaceOrTabEolAfterMore),
    );
    let content_type = tokenizer.tokenize_state.space_or_tab_eol_content_type;
    let connect = tokenizer.tokenize_state.space_or_tab_eol_connect;
    State::Retry(
        space_or_tab_with_options(
            tokenizer,
            SpaceOrTabOptions {
                kind: Name::SpaceOrTab,
                min: 1,
                max: usize::MAX,
                content_type,
                connect,
            },
        ),
    )
}

/// `space_or_tab_eol`: after more (optional) `space_or_tab`.
///
/// ```markdown
///   | a
/// > | b
///     ^
/// ```
pub fn eol_after_more(tokenizer: &mut Tokenizer) -> (r: State)
    ensures
        r == (if old(tokenizer)@.current is None || old(tokenizer)@.current == Some(0x0Au8) {
            State::Nok
        } else {
            State::Okay
        }),
        final(tokenizer)@ == eol_reset(old(tokenizer)@),
{
    tokenizer.tokenize_state.space_or_tab_eol_content_type = None;
    tokenizer.tokenize_state.space_or_tab_eol_connect = false;
    tokenizer.tokenize_state.space_or_tab_eol_ok = false;

    // Blank line not allowed.
    match tokenizer.current {
        None | Some(0x0A) => State::Nok,
        _ => State::Okay,
    }
}

/// A run of `space_or_tab_eol` with a content type forms one chain: once it
/// has taken whitespace or a line ending it connects, the states in between
/// keep that, and each later whitespace or line ending then links to the
/// previous one.
pub proof fn lemma_eol_run_connects(m: TokenizerModel, ok: State, nok: State)
    requires
        m.tokenize_state.space_or_tab_eol_content_type is Some,
    ensures
        eol_whitespace_seen(m).tokenize_state.space_or_tab_eol_connect,
        eol_whitespace_seen(m).tokenize_state.space_or_tab_eol_content_type
            == m.tokenize_state.space_or_tab_eol_content_type,
        eol_line_ending(m).consumed().exited(
            Name::LineEnding,
        ).tokenize_state.space_or_tab_eol_connect,
        eol_line_ending(m).consumed().exited(
            Name::LineEnding,
        ).tokenize_state.space_or_tab_eol_content_type
            == m.tokenize_state.space_or_tab_eol_content_type,
        space_or_tab_set(m.attempted(ok, nok), eol_whitespace(m)).tokenize_state.space_or_tab_eol_connect
            == m.tokenize_state.space_or_tab_eol_connect,
        space_or_tab_set(
            m.attempted(ok, nok),
            eol_whitespace(m),
        ).tokenize_state.space_or_tab_eol_content_type
            == m.tokenize_state.space_or_tab_eol_content_type,
        eol_whitespace(m).connect == m.tokenize_state.space_or_tab_eol_connect,
        eol_whitespace(m).content_type == m.tokenize_state.space_or_tab_eol_content_type,
{
}

} // verus!
