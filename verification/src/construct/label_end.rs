//! Label end is a construct that occurs in the [text][] content type.
//!
//! It forms with the following BNF:
//!
//! ```bnf
//! label_end ::= ']' [ resource | reference_full | reference_collapsed ]
//!
//! resource ::= '(' [ whitespace ] destination [ whitespace title ] [ whitespace ] ')'
//! reference_full ::= '[' label ']'
//! reference_collapsed ::= '[' ']'
//!
//! ; See the `destination`, `title`, and `label` constructs for the BNF of
//! ; those parts.
//! ```
//!
//! See [`destination`][destination], [`label`][label], and [`title`][title]
//! for grammar, notes, and recommendations.
//!
//! Label end does not, on its own, relate to anything in HTML.
//! When matched with a [label start (link)][label_start_link], they together
//! relate to the `<a>` element in HTML.
//! See [*§ 4.5.1 The `a` element*][html-a] in the HTML spec for more info.
//! It can also match with [label start (image)][label_start_image], in which
//! case they form an `<img>` element.
//! See [*§ 4.8.3 The `img` element*][html-img] in the HTML spec for more info.
//!
//! In the case of a resource, the destination and title are given directly
//! with the label end.
//! In the case of a reference, this information is provided by a matched
//! [definition][].
//! Full references (`[x][y]`) match to definitions through their explicit,
//! second, label (`y`).
//! Collapsed references (`[x][]`) and shortcut references (`[x]`) match by
//! interpreting the text provided between the first, implicit, label (`x`).
//! To match, the effective label of the reference must be equal to the label
//! of the definition after normalizing with
//! [`normalize_identifier`][normalize_identifier].
//!
//! Importantly, while the label of a full reference *can* include [string][]
//! content, and in case of collapsed and shortcut references even [text][]
//! content, that content is not considered when matching.
//! To illustrate, neither label matches the definition:
//!
//! ```markdown
//! [a&b]: https://example.com
//!
//! [x][a&amp;b], [a\&b][]
//! ```
//!
//! When the resource or reference matches, the destination forms the `href`
//! attribute in case of a [label start (link)][label_start_link], and an
//! `src` attribute otherwise.
//! The title is formed, optionally, on either `<a>` or `<img>`.
//!
//! For info on how to encode characters in URLs, see
//! [`destination`][destination].
//! For info on how characters are encoded as `href` on `<a>` or `src` on
//! `<img>` when compiling, see
//! [`sanitize_uri`][sanitize_uri].
//!
//! In case of a matched [label start (link)][label_start_link], the interpreted
//! content between it and the label end, is placed between the opening and
//! closing tags.
//! Otherwise, the text is also interpreted, but used *without* the resulting
//! tags:
//!
//! ```markdown
//! [a *b* c](#)
//!
//! ![a *b* c](#)
//! ```
//!
//! Yields:
//!
//! ```html
//! <p><a href="#">a <em>b</em> c</a></p>
//! <p><img src="#" alt="a b c" /></p>
//! ```
//!
//! It is possible to use images in links.
//! It’s somewhat possible to have links in images (the text will be used, not
//! the HTML, see above).
//! But it’s not possible to use links in links.
//! The “deepest” link wins.
//! To illustrate:
//!
//! ```markdown
//! a [b [c](#) d](#) e
//! ```
//!
//! Yields:
//!
//! ```html
//! <p>a [b <a href="#">c</a> d](#) e</p>
//! ```
//!
//! This limiation is imposed because links in links is invalid according to
//! HTML.
//! Technically though, in markdown it is still possible to construct them by
//! using an [autolink][] in a link.
//! You definitely should not do that.
//!
//! ## Tokens
//!
//! *   [`Data`][Name::Data]
//! *   [`Image`][Name::Image]
//! *   [`Label`][Name::Label]
//! *   [`LabelEnd`][Name::LabelEnd]
//! *   [`LabelMarker`][Name::LabelMarker]
//! *   [`LabelText`][Name::LabelText]
//! *   [`LineEnding`][Name::LineEnding]
//! *   [`Link`][Name::Link]
//! *   [`Reference`][Name::Reference]
//! *   [`ReferenceMarker`][Name::ReferenceMarker]
//! *   [`ReferenceString`][Name::ReferenceString]
//! *   [`Resource`][Name::Resource]
//! *   [`ResourceDestination`][Name::ResourceDestination]
//! *   [`ResourceDestinationLiteral`][Name::ResourceDestinationLiteral]
//! *   [`ResourceDestinationLiteralMarker`][Name::ResourceDestinationLiteralMarker]
//! *   [`ResourceDestinationRaw`][Name::ResourceDestinationRaw]
//! *   [`ResourceDestinationString`][Name::ResourceDestinationString]
//! *   [`ResourceMarker`][Name::ResourceMarker]
//! *   [`ResourceTitle`][Name::ResourceTitle]
//! *   [`ResourceTitleMarker`][Name::ResourceTitleMarker]
//! *   [`ResourceTitleString`][Name::ResourceTitleString]
//! *   [`SpaceOrTab`][Name::SpaceOrTab]
//!
//! ## References
//!
//! *   [`label-end.js` in `micromark`](https://github.com/micromark/micromark/blob/main/packages/micromark-core-commonmark/dev/lib/label-end.js)
//! *   [*§ 4.7 Link reference definitions* in `CommonMark`](https://spec.commonmark.org/0.30/#link-reference-definitions)
//! *   [*§ 6.3 Links* in `CommonMark`](https://spec.commonmark.org/0.30/#links)
//! *   [*§ 6.4 Images* in `CommonMark`](https://spec.commonmark.org/0.30/#images)
//!
//! [html-a]: https://html.spec.whatwg.org/multipage/text-level-semantics.html#the-a-element
//! [html-img]: https://html.spec.whatwg.org/multipage/embedded-content.html#the-img-element

use vstd::prelude::*;
use crate::constant::RESOURCE_DESTINATION_BALANCE_MAX;
use crate::construct::partial_space_or_tab_eol::{eol_set, space_or_tab_eol};
use crate::event::{Event, Kind, Name};
use crate::resolve::Name as ResolveName;
use crate::state::{Name as StateName, State};
use crate::tokenizer::{LabelStart, Media, Tokenizer, TokenizerModel, TokenizeStateModel};
use crate::util::edit_map::{
    add_all, applied, edits_fit, lemma_add_all, lemma_add_all_concat, lemma_add_all_push,
    lemma_add_all_appends, lemma_add_all_keeps_lead, lemma_removes_in_prefix, adds_at, inserted_at,
    only_appends, removes_at, removes_in, EditMap, layout_events,
    lemma_applied_shape, lemma_distinct_keys,
    replaces_runs, lemma_adds_at_step, lemma_inserted_at_push,
    lemma_inserted_at_concat, lemma_removes_in_concat, layout_between, own_event,
    lemma_layout_between, lemma_layout_between_join, lemma_layout_between_one,
    lemma_layout_between_same, lemma_runs_between, lemma_kept_same, lemma_kept_outside_runs,
    lemma_between_plain, kept, sum_before, adds_count, kept_count,
    lemma_layout_len, edits_adds_before, edits_removes_before, lemma_adds_sum, lemma_removes_sum,
    lemma_sum_same, lemma_sum_zero, lemma_kept_removed,
};
use crate::util::nesting::{
    open_spans, well_nested, lemma_open_spans_concat, lemma_open_spans_enter,
    lemma_open_spans_exit, lemma_open_spans_then, lemma_open_spans_shape, lemma_well_nested_keeps,
};
use crate::util::normalize_identifier::{normalize_identifier, normalized};
use crate::util::skip::{to_back, to_back_spec};
use crate::util::slice::{enter_back, Position, Slice};

verus! {

/// Byte `]`.
pub const RIGHT_SQUARE_BRACKET: u8 = 0x5D;

/// Byte `[`.
pub const LEFT_SQUARE_BRACKET: u8 = 0x5B;

/// Byte `(`.
pub const LEFT_PARENTHESIS: u8 = 0x28;

/// Byte `)`.
pub const RIGHT_PARENTHESIS: u8 = 0x29;

/// Byte `"`.
pub const QUOTATION_MARK: u8 = 0x22;

/// Byte `'`.
pub const APOSTROPHE: u8 = 0x27;

/// Whether the label in `bytes` matches one of `definitions` once
/// normalized.
pub open spec fn defined_label(definitions: Seq<Seq<char>>, bytes: Seq<u8>) -> bool {
    match normalized(bytes) {
        Some(identifier) => definitions.contains(identifier),
        None => false,
    }
}

/// Whether `identifier` is one of `definitions`.
fn contains_definition(definitions: &Vec<String>, identifier: &String) -> (r: bool)
    ensures
        r == definitions@.map_values(|d: String| d@).contains(identifier@),
{
    let ghost views = definitions@.map_values(|d: String| d@);
    let mut i: usize = 0;
    while i < definitions.len()
        invariant
            i <= definitions@.len(),
            views == definitions@.map_values(|d: String| d@),
            forall|j: int| 0 <= j < i ==> views[j] != identifier@,
        decreases definitions@.len() - i,
    {
        if definitions[i] == *identifier {
            assert(views[i as int] == identifier@);
            return true;
        }
        i = i + 1;
    }
    proof {
        if views.contains(identifier@) {
            let j = choose|j: int| 0 <= j < views.len() && views[j] == identifier@;
            assert(views[j] != identifier@);
        }
    }
    false
}

/// Whether the label in `bytes` is defined.
fn is_defined(definitions: &Vec<String>, bytes: &[u8]) -> (r: bool)
    ensures
        r == defined_label(definitions@.map_values(|d: String| d@), bytes@),
{
    match normalize_identifier(bytes) {
        Some(identifier) => contains_definition(definitions, &identifier),
        None => false,
    }
}

/// The tokenizer with another label end index.
pub open spec fn with_end(m: TokenizerModel, end: usize) -> TokenizerModel {
    m.with_state(TokenizeStateModel { end, ..m.tokenize_state })
}

/// Whether a label end can start here: at `]`, with the construct on, and
/// with a label start waiting for it.
pub open spec fn at_label_end(m: TokenizerModel) -> bool {
    &&& m.current == Some(RIGHT_SQUARE_BRACKET)
    &&& m.parse_state.constructs.label_end
    &&& m.tokenize_state.label_start_stack.len() > 0
}

/// The innermost open label start.
pub open spec fn last_label_start(m: TokenizerModel) -> LabelStart {
    m.tokenize_state.label_start_stack.last()
}

/// The tokenizer once the label end (`]`) is marked.
pub open spec fn label_end_marked(m: TokenizerModel) -> TokenizerModel {
    with_end(m, m.events.len() as usize).entered(Name::LabelEnd).entered(
        Name::LabelMarker,
    ).consumed().exited(Name::LabelMarker).exited(Name::LabelEnd)
}

/// Start of label end.
///
/// ```markdown
/// > | [a](b) c
///       ^
/// > | [a][b] c
///       ^
/// > | [a][] b
///       ^
/// > | [a] b
/// ```
pub fn start(tokenizer: &mut Tokenizer) -> (r: State)
    requires
        at_label_end(old(tokenizer)@) ==> old(tokenizer)@.can_consume(),
    ensures
        at_label_end(old(tokenizer)@) && last_label_start(old(tokenizer)@).inactive ==> {
            &&& r == State::Retry(StateName::LabelEndNok)
            &&& final(tokenizer)@ == with_end(
                old(tokenizer)@,
                old(tokenizer)@.events.len() as usize,
            )
        },
        at_label_end(old(tokenizer)@) && !last_label_start(old(tokenizer)@).inactive ==> {
            &&& r == State::Next(StateName::LabelEndAfter)
            &&& final(tokenizer)@ == label_end_marked(old(tokenizer)@)
        },
        !at_label_end(old(tokenizer)@) ==> r == State::Nok && final(tokenizer)@ == old(
            tokenizer,
        )@,
{
    if Some(RIGHT_SQUARE_BRACKET) == tokenizer.current && tokenizer.parse_state.constructs.label_end {
        // If there is an okay opening:
        if !tokenizer.tokenize_state.label_start_stack.is_empty() {
            let last: usize = tokenizer.tokenize_state.label_start_stack.len() - 1;
            let label_start = tokenizer.tokenize_state.label_start_stack[last];

            tokenizer.tokenize_state.end = tokenizer.events.len();

            // Mark as balanced if the info is inactive.
            if label_start.inactive {
                return State::Retry(StateName::LabelEndNok);
            }

            tokenizer.enter(Name::LabelEnd);
            tokenizer.enter(Name::LabelMarker);
            tokenizer.consume();
            tokenizer.exit(Name::LabelMarker);
            tokenizer.exit(Name::LabelEnd);
            return State::Next(StateName::LabelEndAfter);
        }
    }

    State::Nok
}

/// The bytes of the label that ends here: from the exit of the label start
/// to the enter of the label end.
pub open spec fn label_bytes(m: TokenizerModel) -> Seq<u8> {
    let start = last_label_start(m);
    m.parse_state.bytes.subrange(
        m.events[start.start.1 as int].point.index as int,
        m.events[m.tokenize_state.end as int].point.index as int,
    )
}

/// Whether the label between the label start and the label end can be
/// read.
pub open spec fn label_readable(m: TokenizerModel) -> bool {
    let start = last_label_start(m);
    &&& m.tokenize_state.label_start_stack.len() > 0
    &&& start.start.1 < m.events.len()
    &&& m.tokenize_state.end < m.events.len()
    &&& m.events[start.start.1 as int].point.index <= m.events[m.tokenize_state.end as int].point.index
    &&& m.events[m.tokenize_state.end as int].point.index <= m.parse_state.bytes.len()
}

/// Whether the label that ends here is defined.
pub open spec fn label_defined(m: TokenizerModel) -> bool {
    defined_label(m.parse_state.definitions, label_bytes(m))
}

/// After `]`.
///
/// ```markdown
/// > | [a](b) c
///       ^
/// > | [a][b] c
///       ^
/// > | [a][] b
///       ^
/// > | [a] b
///       ^
/// ```
pub fn after(tokenizer: &mut Tokenizer) -> (r: State)
    requires
        label_readable(old(tokenizer)@),
    ensures
        old(tokenizer)@.current == Some(LEFT_PARENTHESIS) ==> {
            &&& r == State::Retry(StateName::LabelEndResourceStart)
            &&& final(tokenizer)@ == old(tokenizer)@.attempted(
                State::Next(StateName::LabelEndOk),
                State::Next(
                    if label_defined(old(tokenizer)@) {
                        StateName::LabelEndOk
                    } else {
                        StateName::LabelEndNok
                    },
                ),
            )
        },
        old(tokenizer)@.current == Some(LEFT_SQUARE_BRACKET) ==> {
            &&& r == State::Retry(StateName::LabelEndReferenceFull)
            &&& final(tokenizer)@ == old(tokenizer)@.attempted(
                State::Next(StateName::LabelEndOk),
                State::Next(
                    if label_defined(old(tokenizer)@) {
                        StateName::LabelEndReferenceNotFull
                    } else {
                        StateName::LabelEndNok
                    },
                ),
            )
        },
        old(tokenizer)@.current != Some(LEFT_PARENTHESIS) && old(tokenizer)@.current != Some(
            LEFT_SQUARE_BRACKET,
        ) ==> {
            &&& r == State::Retry(
                if label_defined(old(tokenizer)@) {
                    StateName::LabelEndOk
                } else {
                    StateName::LabelEndNok
                },
            )
            &&& final(tokenizer)@ == old(tokenizer)@
        },
{
    let last: usize = tokenizer.tokenize_state.label_start_stack.len() - 1;
    let start = tokenizer.tokenize_state.label_start_stack[last];
    // We don’t care about virtual spaces, so `indices` is fine.
    let defined = is_defined(
        &tokenizer.parse_state.definitions,
        Slice::from_indices(
            tokenizer.parse_state.bytes.as_slice(),
            tokenizer.events[start.start.1].point.index,
            tokenizer.events[tokenizer.tokenize_state.end].point.index,
        ).bytes,
    );

    match tokenizer.current {
        // Resource (`[asd](fgh)`)?
        Some(0x28) => {
            tokenizer.attempt(
                State::Next(StateName::LabelEndOk),
                State::Next(
                    if defined {
                        StateName::LabelEndOk
                    } else {
                        StateName::LabelEndNok
                    },
                ),
            );
            State::Retry(StateName::LabelEndResourceStart)
        },
        // Full (`[asd][fgh]`) or collapsed (`[asd][]`) reference?
        Some(0x5B) => {
            tokenizer.attempt(
                State::Next(StateName::LabelEndOk),
                State::Next(
                    if defined {
                        StateName::LabelEndReferenceNotFull
                    } else {
                        StateName::LabelEndNok
                    },
                ),
            );
            State::Retry(StateName::LabelEndReferenceFull)
        },
        // Shortcut (`[asd]`) reference?
        _ => State::Retry(
            if defined {
                StateName::LabelEndOk
            } else {
                StateName::LabelEndNok
            },
        ),
    }
}

/// After `]`, at `[`, but not at a full reference.
///
/// > 👉 **Note**: we only get here if the label is defined.
///
/// ```markdown
/// > | [a][] b
///        ^
/// > | [a] b
///        ^
/// ```
pub fn reference_not_full(tokenizer: &mut Tokenizer) -> (r: State)
    ensures
        r == State::Retry(StateName::LabelEndReferenceCollapsed),
        final(tokenizer)@ == old(tokenizer)@.attempted(
            State::Next(StateName::LabelEndOk),
            State::Next(StateName::LabelEndNok),
        ),
{
    tokenizer.attempt(State::Next(StateName::LabelEndOk), State::Next(StateName::LabelEndNok));
    State::Retry(StateName::LabelEndReferenceCollapsed)
}

/// Whether the label start `s` opens a link (not an image).
pub open spec fn opens_link(events: Seq<Event>, s: LabelStart) -> bool {
    events[s.start.0 as int].name == Name::LabelLink
}

/// The open label starts once a label start matched: when it opened a link,
/// all other link starts become inactive, as links cannot contain links.
pub open spec fn deactivated(m: TokenizerModel) -> Seq<LabelStart> {
    let stack = m.tokenize_state.label_start_stack;
    let rest = stack.drop_last();
    let is_link = opens_link(m.events, stack.last());
    Seq::new(
        rest.len(),
        |i: int|
            if is_link && opens_link(m.events, rest[i]) {
                LabelStart { inactive: true, ..rest[i] }
            } else {
                rest[i]
            },
    )
}

/// The tokenizer once the innermost label start matched the label end.
pub open spec fn matched(m: TokenizerModel) -> TokenizerModel {
    let start = last_label_start(m);
    m.with_state(
        TokenizeStateModel {
            label_start_stack: deactivated(m),
            media_list: m.tokenize_state.media_list.push(
                Media {
                    start: start.start,
                    end: (m.tokenize_state.end, (m.events.len() - 1) as usize),
                },
            ),
            end: 0,
            ..m.tokenize_state
        },
    ).with_resolver_before(ResolveName::Label)
}

/// Whether `ok` can read the label starts it needs.
pub open spec fn can_match(m: TokenizerModel) -> bool {
    let stack = m.tokenize_state.label_start_stack;
    &&& stack.len() > 0
    &&& m.events.len() > 0
    &&& stack.last().start.0 < m.events.len()
    &&& opens_link(m.events, stack.last()) ==> forall|i: int|
        0 <= i < stack.len() - 1 ==> #[trigger] stack[i].start.0 < m.events.len()
}

/// Done, we found something.
///
/// ```markdown
/// > | [a](b) c
///           ^
/// > | [a][b] c
///           ^
/// > | [a][] b
///          ^
/// > | [a] b
///        ^
/// ```
pub fn ok(tokenizer: &mut Tokenizer) -> (r: State)
    requires
        can_match(old(tokenizer)@),
    ensures
        r == State::Okay,
        final(tokenizer)@ == matched(old(tokenizer)@),
{
    let ghost m = tokenizer@;
    // Remove the start.
    let label_start = tokenizer.tokenize_state.label_start_stack.pop().unwrap();

    let is_link = tokenizer.events[label_start.start.0].name == Name::LabelLink;

    if is_link {
        let mut index: usize = 0;
        while index < tokenizer.tokenize_state.label_start_stack.len()
            invariant
                tokenizer.events@ == m.events,
                can_match(m),
                is_link,
                is_link == opens_link(m.events, m.tokenize_state.label_start_stack.last()),
                index <= tokenizer.tokenize_state.label_start_stack@.len(),
                tokenizer.tokenize_state.label_start_stack@.len() == deactivated(m).len(),
                forall|i: int|
                    0 <= i < index ==> #[trigger] tokenizer.tokenize_state.label_start_stack@[i]
                        == deactivated(m)[i],
                forall|i: int|
                    index <= i < deactivated(m).len() ==> #[trigger] tokenizer.tokenize_state.label_start_stack@[i]
                        == m.tokenize_state.label_start_stack[i],
                tokenizer@ == (TokenizerModel {
                    tokenize_state: TokenizeStateModel {
                        label_start_stack: tokenizer@.tokenize_state.label_start_stack,
                        ..m.tokenize_state
                    },
                    ..m
                }),
            decreases deactivated(m).len() - index,
        {
            let mut label_start = tokenizer.tokenize_state.label_start_stack[index];
            proof {
                let stack = m.tokenize_state.label_start_stack;
                assert(label_start == stack[index as int]);
                assert(stack.drop_last()[index as int] == stack[index as int]);
                assert(stack[index as int].start.0 < m.events.len());
            }
            if tokenizer.events[label_start.start.0].name == Name::LabelLink {
                label_start.inactive = true;
                tokenizer.tokenize_state.label_start_stack.set(index, label_start);
            }
            assert(tokenizer.tokenize_state.label_start_stack@[index as int] == deactivated(m)[index as int]);
            index = index + 1;
        }
    }
    assert(tokenizer.tokenize_state.label_start_stack@ =~= deactivated(m));

    let end: usize = tokenizer.tokenize_state.end;
    let last: usize = tokenizer.events.len() - 1;
    tokenizer.tokenize_state.media_list.push(Media { start: label_start.start, end: (end, last) });
    tokenizer.tokenize_state.end = 0;
    tokenizer.register_resolver_before(ResolveName::Label);
    State::Okay
}

/// The tokenizer once the innermost label start did not match.
pub open spec fn unmatched(m: TokenizerModel) -> TokenizerModel {
    let stack = m.tokenize_state.label_start_stack;
    m.with_state(
        TokenizeStateModel {
            label_start_stack: stack.drop_last(),
            label_start_list_loose: m.tokenize_state.label_start_list_loose.push(stack.last()),
            end: 0,
            ..m.tokenize_state
        },
    )
}

/// Done, it’s nothing.
///
/// There was an okay opening, but we didn’t match anything.
///
/// ```markdown
/// > | [a](b c
///        ^
/// > | [a][b c
///        ^
/// > | [a] b
///        ^
/// ```
pub fn nok(tokenizer: &mut Tokenizer) -> (r: State)
    requires
        old(tokenizer)@.tokenize_state.label_start_stack.len() > 0,
    ensures
        r == State::Nok,
        final(tokenizer)@ == unmatched(old(tokenizer)@),
{
    let start = tokenizer.tokenize_state.label_start_stack.pop().unwrap();

    tokenizer.tokenize_state.label_start_list_loose.push(start);

    tokenizer.tokenize_state.end = 0;
    State::Nok
}

/// The tokenizer with the token names of a resource destination.
pub open spec fn with_destination_tokens(m: TokenizerModel) -> TokenizerModel {
    m.with_state(
        TokenizeStateModel {
            token_1: Name::ResourceDestination,
            token_2: Name::ResourceDestinationLiteral,
            token_3: Name::ResourceDestinationLiteralMarker,
            token_4: Name::ResourceDestinationRaw,
            token_5: Name::ResourceDestinationString,
            size_b: RESOURCE_DESTINATION_BALANCE_MAX,
            ..m.tokenize_state
        },
    )
}

/// The tokenizer with the five token names cleared.
pub open spec fn with_destination_cleared(m: TokenizerModel) -> TokenizerModel {
    m.with_state(
        TokenizeStateModel {
            token_1: Name::Data,
            token_2: Name::Data,
            token_3: Name::Data,
            token_4: Name::Data,
            token_5: Name::Data,
            size_b: 0,
            ..m.tokenize_state
        },
    )
}

/// The tokenizer with the first three token names set.
pub open spec fn with_tokens(m: TokenizerModel, token_1: Name, token_2: Name, token_3: Name) -> TokenizerModel {
    m.with_state(TokenizeStateModel { token_1, token_2, token_3, ..m.tokenize_state })
}

/// Before a resource, at `(`.
///
/// ```markdown
/// > | [a](b) c
///        ^
/// ```
pub fn resource_start(tokenizer: &mut Tokenizer) -> (r: State)
    requires
        old(tokenizer)@.current == Some(LEFT_PARENTHESIS),
        old(tokenizer)@.can_consume(),
    ensures
        r == State::Next(StateName::LabelEndResourceBefore),
        final(tokenizer)@ == old(tokenizer)@.entered(Name::Resource).entered(
            Name::ResourceMarker,
        ).consumed().exited(Name::ResourceMarker),
{
    tokenizer.enter(Name::Resource);
    tokenizer.enter(Name::ResourceMarker);
    tokenizer.consume();
    tokenizer.exit(Name::ResourceMarker);
    State::Next(StateName::LabelEndResourceBefore)
}

/// At the start of a resource, after `(`, before a destination.
///
/// ```markdown
/// > | [a](b) c
///         ^
/// ```
pub fn resource_before(tokenizer: &mut Tokenizer) -> (r: State)
    ensures
        r == State::Retry(StateName::SpaceOrTabEolStart),
        final(tokenizer)@ == eol_set(
            old(tokenizer)@.attempted(
                State::Next(StateName::LabelEndResourceOpen),
                State::Next(StateName::LabelEndResourceOpen),
            ),
            None,
            false,
        ),
{
    tokenizer.attempt(
        State::Next(StateName::LabelEndResourceOpen),
        State::Next(StateName::LabelEndResourceOpen),
    );
    State::Retry(space_or_tab_eol(tokenizer))
}

/// At the start of a resource, after optional whitespace.
///
/// ```markdown
/// > | [a](b) c
///         ^
/// ```
pub fn resource_open(tokenizer: &mut Tokenizer) -> (r: State)
    ensures
        old(tokenizer)@.current == Some(RIGHT_PARENTHESIS) ==> {
            &&& r == State::Retry(StateName::LabelEndResourceEnd)
            &&& final(tokenizer)@ == old(tokenizer)@
        },
        old(tokenizer)@.current != Some(RIGHT_PARENTHESIS) ==> {
            &&& r == State::Retry(StateName::DestinationStart)
            &&& final(tokenizer)@ == with_destination_tokens(old(tokenizer)@).attempted(
                State::Next(StateName::LabelEndResourceDestinationAfter),
                State::Next(StateName::LabelEndResourceDestinationMissing),
            )
        },
{
    if let Some(0x29) = tokenizer.current {
        State::Retry(StateName::LabelEndResourceEnd)
    } else {
        tokenizer.tokenize_state.token_1 = Name::ResourceDestination;
        tokenizer.tokenize_state.token_2 = Name::ResourceDestinationLiteral;
        tokenizer.tokenize_state.token_3 = Name::ResourceDestinationLiteralMarker;
        tokenizer.tokenize_state.token_4 = Name::ResourceDestinationRaw;
        tokenizer.tokenize_state.token_5 = Name::ResourceDestinationString;
        tokenizer.tokenize_state.size_b = RESOURCE_DESTINATION_BALANCE_MAX;

        tokenizer.attempt(
            State::Next(StateName::LabelEndResourceDestinationAfter),
            State::Next(StateName::LabelEndResourceDestinationMissing),
        );
        State::Retry(StateName::DestinationStart)
    }
}

/// In a resource, after a destination, before optional whitespace.
///
/// ```markdown
/// > | [a](b) c
///          ^
/// ```
pub fn resource_destination_after(tokenizer: &mut Tokenizer) -> (r: State)
    ensures
        r == State::Retry(StateName::SpaceOrTabEolStart),
        final(tokenizer)@ == eol_set(
            with_destination_cleared(old(tokenizer)@).attempted(
                State::Next(StateName::LabelEndResourceBetween),
                State::Next(StateName::LabelEndResourceEnd),
            ),
            None,
            false,
        ),
{
    tokenizer.tokenize_state.token_1 = Name::Data;
    tokenizer.tokenize_state.token_2 = Name::Data;
    tokenizer.tokenize_state.token_3 = Name::Data;
    tokenizer.tokenize_state.token_4 = Name::Data;
    tokenizer.tokenize_state.token_5 = Name::Data;
    tokenizer.tokenize_state.size_b = 0;
    tokenizer.attempt(
        State::Next(StateName::LabelEndResourceBetween),
        State::Next(StateName::LabelEndResourceEnd),
    );
    State::Retry(space_or_tab_eol(tokenizer))
}

/// Without destination.
pub fn resource_destination_missing(tokenizer: &mut Tokenizer) -> (r: State)
    ensures
        r == State::Nok,
        final(tokenizer)@ == with_destination_cleared(old(tokenizer)@),
{
    tokenizer.tokenize_state.token_1 = Name::Data;
    tokenizer.tokenize_state.token_2 = Name::Data;
    tokenizer.tokenize_state.token_3 = Name::Data;
    tokenizer.tokenize_state.token_4 = Name::Data;
    tokenizer.tokenize_state.token_5 = Name::Data;
    tokenizer.tokenize_state.size_b = 0;
    State::Nok
}

/// Whether the current byte can start a title.
pub open spec fn at_title(m: TokenizerModel) -> bool {
    m.current == Some(QUOTATION_MARK) || m.current == Some(APOSTROPHE) || m.current == Some(
        LEFT_PARENTHESIS,
    )
}

/// In a resource, after a destination, after whitespace.
///
/// ```markdown
/// > | [a](b ) c
///           ^
/// ```
pub fn resource_between(tokenizer: &mut Tokenizer) -> (r: State)
    ensures
        at_title(old(tokenizer)@) ==> {
            &&& r == State::Retry(StateName::TitleStart)
            &&& final(tokenizer)@ == with_tokens(
                old(tokenizer)@,
                Name::ResourceTitle,
                Name::ResourceTitleMarker,
                Name::ResourceTitleString,
            ).attempted(State::Next(StateName::LabelEndResourceTitleAfter), State::Nok)
        },
        !at_title(old(tokenizer)@) ==> {
            &&& r == State::Retry(StateName::LabelEndResourceEnd)
            &&& final(tokenizer)@ == old(tokenizer)@
        },
{
    match tokenizer.current {
        Some(0x22 | 0x27 | 0x28) => {
            tokenizer.tokenize_state.token_1 = Name::ResourceTitle;
            tokenizer.tokenize_state.token_2 = Name::ResourceTitleMarker;
            tokenizer.tokenize_state.token_3 = Name::ResourceTitleString;
            tokenizer.attempt(State::Next(StateName::LabelEndResourceTitleAfter), State::Nok);
            State::Retry(StateName::TitleStart)
        },
        _ => State::Retry(StateName::LabelEndResourceEnd),
    }
}

/// In a resource, after a title.
///
/// ```markdown
/// > | [a](b "c") d
///              ^
/// ```
pub fn resource_title_after(tokenizer: &mut Tokenizer) -> (r: State)
    ensures
        r == State::Retry(StateName::SpaceOrTabEolStart),
        final(tokenizer)@ == eol_set(
            with_tokens(old(tokenizer)@, Name::Data, Name::Data, Name::Data).attempted(
                State::Next(StateName::LabelEndResourceEnd),
                State::Next(StateName::LabelEndResourceEnd),
            ),
            None,
            false,
        ),
{
    tokenizer.tokenize_state.token_1 = Name::Data;
    tokenizer.tokenize_state.token_2 = Name::Data;
    tokenizer.tokenize_state.token_3 = Name::Data;
    tokenizer.attempt(
        State::Next(StateName::LabelEndResourceEnd),
        State::Next(StateName::LabelEndResourceEnd),
    );
    State::Retry(space_or_tab_eol(tokenizer))
}

/// In a resource, at the `)`.
///
/// ```markdown
/// > | [a](b) d
///          ^
/// ```
pub fn resource_end(tokenizer: &mut Tokenizer) -> (r: State)
    requires
        old(tokenizer)@.current == Some(RIGHT_PARENTHESIS) ==> old(tokenizer)@.can_consume()
            && old(tokenizer)@.can_exit(Name::Resource),
    ensures
        old(tokenizer)@.current == Some(RIGHT_PARENTHESIS) ==> {
            &&& r == State::Okay
            &&& final(tokenizer)@ == old(tokenizer)@.entered(
                Name::ResourceMarker,
            ).consumed().exited(Name::ResourceMarker).exited(Name::Resource)
        },
        old(tokenizer)@.current != Some(RIGHT_PARENTHESIS) ==> {
            &&& r == State::Nok
            &&& final(tokenizer)@ == old(tokenizer)@
        },
{
    match tokenizer.current {
        Some(0x29) => {
            tokenizer.enter(Name::ResourceMarker);
            tokenizer.consume();
            tokenizer.exit(Name::ResourceMarker);
            tokenizer.exit(Name::Resource);
            State::Okay
        },
        _ => State::Nok,
    }
}

/// In a reference (full), at the `[`.
///
/// ```markdown
/// > | [a][b] d
///        ^
/// ```
pub fn reference_full(tokenizer: &mut Tokenizer) -> (r: State)
    requires
        old(tokenizer)@.current == Some(LEFT_SQUARE_BRACKET),
    ensures
        r == State::Retry(StateName::LabelStart),
        final(tokenizer)@ == with_tokens(
            old(tokenizer)@,
            Name::Reference,
            Name::ReferenceMarker,
            Name::ReferenceString,
        ).attempted(State::Next(StateName::LabelEndReferenceFullAfter), State::Nok),
{
    tokenizer.tokenize_state.token_1 = Name::Reference;
    tokenizer.tokenize_state.token_2 = Name::ReferenceMarker;
    tokenizer.tokenize_state.token_3 = Name::ReferenceString;
    tokenizer.attempt(State::Next(StateName::LabelEndReferenceFullAfter), State::Nok);
    State::Retry(StateName::LabelStart)
}

/// Name of the span that holds the label of a full reference.
pub open spec fn reference_string_names() -> Seq<Name> {
    seq![Name::ReferenceString]
}

/// Index of the last reference string exit.
pub open spec fn reference_string_exit(m: TokenizerModel) -> int {
    to_back_spec(m.events, m.events.len() - 1, reference_string_names())
}

/// Index of the enter of the last reference string.
pub open spec fn reference_string_enter(m: TokenizerModel) -> int {
    let exit = reference_string_exit(m);
    enter_back(m.events, m.events[exit].name, exit - 1)
}

/// Whether the label of the full reference can be read.
pub open spec fn reference_readable(m: TokenizerModel) -> bool {
    let exit = reference_string_exit(m);
    let enter = reference_string_enter(m);
    &&& m.events.len() > 0
    &&& 0 <= exit < m.events.len()
    &&& enter >= 0
    &&& m.events[enter].point.index <= m.events[exit].point.index
    &&& m.events[exit].point.index <= m.parse_state.bytes.len()
}

/// The bytes of the label of the full reference.
pub open spec fn reference_bytes(m: TokenizerModel) -> Seq<u8> {
    m.parse_state.bytes.subrange(
        m.events[reference_string_enter(m)].point.index as int,
        m.events[reference_string_exit(m)].point.index as int,
    )
}

/// In a reference (full), after `]`.
///
/// ```markdown
/// > | [a][b] d
///          ^
/// ```
pub fn reference_full_after(tokenizer: &mut Tokenizer) -> (r: State)
    requires
        reference_readable(old(tokenizer)@),
    ensures
        r == (if defined_label(
            old(tokenizer)@.parse_state.definitions,
            reference_bytes(old(tokenizer)@),
        ) {
            State::Okay
        } else {
            State::Nok
        }),
        final(tokenizer)@ == with_tokens(old(tokenizer)@, Name::Data, Name::Data, Name::Data),
{
    tokenizer.tokenize_state.token_1 = Name::Data;
    tokenizer.tokenize_state.token_2 = Name::Data;
    tokenizer.tokenize_state.token_3 = Name::Data;

    let names = [Name::ReferenceString];
    assert(names@ =~= reference_string_names());
    let exit: usize = to_back(tokenizer.events.as_slice(), tokenizer.events.len() - 1, &names);
    let position = Position::from_exit_event(tokenizer.events.as_slice(), exit);
    // We don’t care about virtual spaces, so `as_str` is fine.
    if is_defined(
        &tokenizer.parse_state.definitions,
        Slice::from_position(tokenizer.parse_state.bytes.as_slice(), &position).bytes,
    ) {
        State::Okay
    } else {
        State::Nok
    }
}

/// In a reference (collapsed), at the `[`.
///
/// > 👉 **Note**: we only get here if the label is defined.
///
/// ```markdown
/// > | [a][] d
///        ^
/// ```
pub fn reference_collapsed(tokenizer: &mut Tokenizer) -> (r: State)
    requires
        old(tokenizer)@.current == Some(LEFT_SQUARE_BRACKET) ==> old(tokenizer)@.can_consume(),
    ensures
        old(tokenizer)@.current == Some(LEFT_SQUARE_BRACKET) ==> {
            &&& r == State::Next(StateName::LabelEndReferenceCollapsedOpen)
            &&& final(tokenizer)@ == old(tokenizer)@.entered(Name::Reference).entered(
                Name::ReferenceMarker,
            ).consumed().exited(Name::ReferenceMarker)
        },
        old(tokenizer)@.current != Some(LEFT_SQUARE_BRACKET) ==> {
            &&& r == State::Nok
            &&& final(tokenizer)@ == old(tokenizer)@
        },
{
    match tokenizer.current {
        Some(0x5B) => {
            tokenizer.enter(Name::Reference);
            tokenizer.enter(Name::ReferenceMarker);
            tokenizer.consume();
            tokenizer.exit(Name::ReferenceMarker);
            State::Next(StateName::LabelEndReferenceCollapsedOpen)
        },
        _ => State::Nok,
    }
}

/// In a reference (collapsed), at the `]`.
///
/// > 👉 **Note**: we only get here if the label is defined.
///
/// ```markdown
/// > | [a][] d
///         ^
/// ```
pub fn reference_collapsed_open(tokenizer: &mut Tokenizer) -> (r: State)
    requires
        old(tokenizer)@.current == Some(RIGHT_SQUARE_BRACKET) ==> old(tokenizer)@.can_consume()
            && old(tokenizer)@.can_exit(Name::Reference),
    ensures
        old(tokenizer)@.current == Some(RIGHT_SQUARE_BRACKET) ==> {
            &&& r == State::Okay
            &&& final(tokenizer)@ == old(tokenizer)@.entered(
                Name::ReferenceMarker,
            ).consumed().exited(Name::ReferenceMarker).exited(Name::Reference)
        },
        old(tokenizer)@.current != Some(RIGHT_SQUARE_BRACKET) ==> {
            &&& r == State::Nok
            &&& final(tokenizer)@ == old(tokenizer)@
        },
{
    match tokenizer.current {
        Some(0x5D) => {
            tokenizer.enter(Name::ReferenceMarker);
            tokenizer.consume();
            tokenizer.exit(Name::ReferenceMarker);
            tokenizer.exit(Name::Reference);
            State::Okay
        },
        _ => State::Nok,
    }
}

/// The edit that turns an unmatched label start back into data.
pub open spec fn data_edit(events: Seq<Event>, s: LabelStart) -> (usize, usize, Seq<Event>, bool) {
    (
        s.start.0,
        (s.start.1 - s.start.0 + 1) as usize,
        seq![
            Event { kind: Kind::Enter, name: Name::Data, point: events[s.start.0 as int].point, link: None },
            Event { kind: Kind::Exit, name: Name::Data, point: events[s.start.1 as int].point, link: None },
        ],
        false,
    )
}

/// The edits for unmatched label starts.
pub open spec fn loose_edits(events: Seq<Event>, left: Seq<LabelStart>) -> Seq<
    (usize, usize, Seq<Event>, bool),
> {
    left.map_values(|s: LabelStart| data_edit(events, s))
}

/// Whether the media opens with a link start.
pub open spec fn media_is_link(events: Seq<Event>, media: Media) -> bool {
    events[media.start.0 as int].name == Name::LabelLink
}

/// The name of the group a media forms: a link or an image.
pub open spec fn group_name(events: Seq<Event>, media: Media) -> Name {
    if media_is_link(events, media) {
        Name::Link
    } else {
        Name::Image
    }
}

/// Index of the first event after the label start of a media: a link start
/// has four events, an image start six.
pub open spec fn text_enter_index(events: Seq<Event>, media: Media) -> int {
    media.start.0 + if media_is_link(events, media) {
        4int
    } else {
        6int
    }
}

/// The edits for one media: a group and a label open before the label start;
/// label text wraps what is between the label start and end, unless that is
/// empty; the label closes after the label end and the group after the
/// media.
/// The label text opens before anything else inserted at its index, so that
/// a media that starts right there (an image in a link) lies inside it.
pub open spec fn media_edit_list(events: Seq<Event>, media: Media) -> Seq<(usize, usize, Seq<Event>, bool)> {
    let group_enter = media.start.0;
    let point = events[group_enter as int].point;
    let text_enter = text_enter_index(events, media);
    let text_exit = media.end.0;
    let label_exit = media.end.0 + 3;
    let group_end = media.end.1;
    let name = group_name(events, media);
    let opening = seq![
        (
            group_enter,
            0usize,
            seq![
                Event { kind: Kind::Enter, name, point, link: None },
                Event { kind: Kind::Enter, name: Name::Label, point, link: None },
            ],
            false,
        ),
    ];
    let text = if text_enter != text_exit {
        seq![
            (
                text_enter as usize,
                0usize,
                seq![Event { kind: Kind::Enter, name: Name::LabelText, point: events[text_enter].point, link: None }],
                true,
            ),
            (
                text_exit,
                0usize,
                seq![Event { kind: Kind::Exit, name: Name::LabelText, point: events[text_exit as int].point, link: None }],
                false,
            ),
        ]
    } else {
        Seq::empty()
    };
    let closing = seq![
        (
            (label_exit + 1) as usize,
            0usize,
            seq![Event { kind: Kind::Exit, name: Name::Label, point: events[label_exit].point, link: None }],
            false,
        ),
        (
            (group_end + 1) as usize,
            0usize,
            seq![Event { kind: Kind::Exit, name, point: events[group_end as int].point, link: None }],
            false,
        ),
    ];
    opening + text + closing
}

/// The edits for all media, in order.
pub open spec fn media_edits(events: Seq<Event>, media: Seq<Media>) -> Seq<(usize, usize, Seq<Event>, bool)>
    decreases media.len(),
{
    if media.len() == 0 {
        Seq::empty()
    } else {
        media_edits(events, media.drop_last()) + media_edit_list(events, media.last())
    }
}

/// Label starts that did not match: the loose ones, then those still open.
pub open spec fn left_starts(m: TokenizerModel) -> Seq<LabelStart> {
    m.tokenize_state.label_start_list_loose + m.tokenize_state.label_start_stack
}

/// All edits that resolving labels makes, in order: media first, so that
/// the closing events of a media come before an unmatched label start that
/// follows it at the same index.
pub open spec fn label_edits(m: TokenizerModel) -> Seq<(usize, usize, Seq<Event>, bool)> {
    media_edits(m.events, m.tokenize_state.media_list) + loose_edits(m.events, left_starts(m))
}

/// The events of a label start exist.
pub open spec fn start_in_bounds(events: Seq<Event>, s: LabelStart) -> bool {
    s.start.0 <= s.start.1 < events.len()
}

/// The events of a media exist.
pub open spec fn media_in_bounds(events: Seq<Event>, media: Media) -> bool {
    &&& media.start.0 < events.len()
    &&& media.end.0 + 3 < events.len()
    &&& media.end.1 < events.len()
    &&& text_enter_index(events, media) != media.end.0 ==> text_enter_index(events, media)
        < events.len()
}

/// Whether labels can be resolved: all events they name exist, and the
/// removals at each index stay within the events.
pub open spec fn can_resolve(m: TokenizerModel) -> bool {
    let events = m.events;
    &&& events.len() + 8 <= usize::MAX
    &&& forall|i: int| 0 <= i < left_starts(m).len() ==> #[trigger] start_in_bounds(events, left_starts(m)[i])
    &&& forall|i: int|
        0 <= i < m.tokenize_state.media_list.len() ==> #[trigger] media_in_bounds(
            events,
            m.tokenize_state.media_list[i],
        )
    &&& forall|k: usize|
        (m.map.dom().contains(k) || removes_in(label_edits(m), k) > 0) ==> k + removes_at(
            m.map,
            k as nat,
        ) + removes_in(label_edits(m), k) <= events.len()
}

/// The tokenizer once labels are resolved.
pub open spec fn labels_resolved(m: TokenizerModel) -> TokenizerModel {
    TokenizerModel {
        events: applied(m.events, add_all(m.map, label_edits(m))),
        map: Map::empty(),
        tokenize_state: TokenizeStateModel {
            label_start_stack: Seq::empty(),
            label_start_list_loose: Seq::empty(),
            media_list: Seq::empty(),
            ..m.tokenize_state
        },
        ..m
    }
}

proof fn lemma_media_keys(events: Seq<Event>, media: Seq<Media>)
    requires
        forall|i: int| 0 <= i < media.len() ==> #[trigger] media_in_bounds(events, media[i]),
    ensures
        forall|j: int|
            0 <= j < media_edits(events, media).len() ==> #[trigger] media_edits(
                events,
                media,
            )[j].0 <= events.len(),
        forall|k: usize| removes_in(media_edits(events, media), k) == 0,
    decreases media.len(),
{
    if media.len() > 0 {
        let rest = media.drop_last();
        assert forall|i: int| 0 <= i < rest.len() implies #[trigger] media_in_bounds(events, rest[i]) by {
            assert(rest[i] == media[i]);
        }
        lemma_media_keys(events, rest);
        let md = media.last();
        assert(media_in_bounds(events, media[media.len() - 1]));
        let a = media_edits(events, rest);
        let b = media_edit_list(events, md);
        assert forall|j: int| 0 <= j < (a + b).len() implies #[trigger] (a + b)[j].0 <= events.len() by {
            if j >= a.len() {
                assert((a + b)[j] == b[j - a.len()]);
            } else {
                assert((a + b)[j] == a[j]);
            }
        }
        assert forall|k: usize| removes_in(a + b, k) == 0 by {
            lemma_removes_in_concat_zero(a, b, k);
        }
    }
}

proof fn lemma_removes_in_concat_zero(
    a: Seq<(usize, usize, Seq<Event>, bool)>,
    b: Seq<(usize, usize, Seq<Event>, bool)>,
    k: usize,
)
    requires
        removes_in(a, k) == 0,
        forall|j: int| 0 <= j < b.len() ==> #[trigger] b[j].1 == 0,
    ensures
        removes_in(a + b, k) == 0,
    decreases b.len(),
{
    if b.len() > 0 {
        assert((a + b).drop_last() =~= a + b.drop_last());
        assert forall|j: int| 0 <= j < b.drop_last().len() implies #[trigger] b.drop_last()[j].1 == 0 by {
            assert(b.drop_last()[j] == b[j]);
        }
        lemma_removes_in_concat_zero(a, b.drop_last(), k);
        assert((a + b).last() == b.last());
        assert(b[b.len() - 1].1 == 0);
    }
}

proof fn lemma_label_edits_fit(m: TokenizerModel)
    requires
        can_resolve(m),
    ensures
        edits_fit(add_all(m.map, label_edits(m)), m.events.len()),
{
    let all = label_edits(m);
    let loose = loose_edits(m.events, left_starts(m));
    let media = media_edits(m.events, m.tokenize_state.media_list);
    lemma_media_keys(m.events, m.tokenize_state.media_list);
    assert forall|j: int| 0 <= j < all.len() implies #[trigger] all[j].0 <= m.events.len() by {
        if j < media.len() {
            assert(all[j] == media[j]);
        } else {
            assert(all[j] == loose[j - media.len()]);
            assert(start_in_bounds(m.events, left_starts(m)[j - media.len()]));
        }
    }
    assert forall|k: usize| #[trigger] add_all(m.map, all).dom().contains(k) implies k + add_all(
        m.map,
        all,
    )[k].0 <= m.events.len() by {
        lemma_add_all(m.map, all, k);
        if !m.map.dom().contains(k) && removes_in(all, k) == 0 {
            let j = choose|j: int|
                0 <= j < all.len() && #[trigger] all[j].0 == k && (all[j].1 > 0 || all[j].2.len()
                    > 0);
            assert(all[j].0 <= m.events.len());
        }
    }
}

/// Turn an unmatched label start back into data.
fn add_data(map: &mut EditMap, events: &Vec<Event>, label_start: LabelStart)
    requires
        start_in_bounds(events@, label_start),
        events@.len() + 8 <= usize::MAX,
        old(map)@.dom().contains(label_start.start.0) ==> old(map)@[label_start.start.0].0
            + data_edit(events@, label_start).1 <= usize::MAX,
    ensures
        final(map)@ == add_all(old(map)@, seq![data_edit(events@, label_start)]),
{
    let data_enter_index: usize = label_start.start.0;
    let data_exit_index: usize = label_start.start.1;
    let ghost e = data_edit(events@, label_start);
    let additions = vec![
        Event {
            kind: Kind::Enter,
            name: Name::Data,
            point: events[data_enter_index].point,
            link: None,
        },
        Event { kind: Kind::Exit, name: Name::Data, point: events[data_exit_index].point, link: None },
    ];
    assert(additions@ =~= e.2);
    map.add(data_enter_index, data_exit_index - data_enter_index + 1, additions);
    proof {
        lemma_add_all_push(old(map)@, Seq::empty(), e);
        assert(Seq::<(usize, usize, Seq<Event>, bool)>::empty().push(e) =~= seq![e]);
    }
}

/// Add the groups of one media.
fn add_media(map: &mut EditMap, events: &Vec<Event>, media: Media)
    requires
        media_in_bounds(events@, media),
        events@.len() + 8 <= usize::MAX,
    ensures
        final(map)@ == add_all(old(map)@, media_edit_list(events@, media)),
{
    let ghost m0 = map@;
    let ghost list = media_edit_list(events@, media);
    let ghost mut done: Seq<(usize, usize, Seq<Event>, bool)> = Seq::empty();
    // LabelLink:Enter or LabelImage:Enter.
    let group_enter_index: usize = media.start.0;
    let group_enter_event = events[group_enter_index];
    let is_link = group_enter_event.name == Name::LabelLink;
    // LabelLink:Exit or LabelImage:Exit.
    let text_enter_index: usize = media.start.0 + (if is_link {
        4
    } else {
        6
    });
    // LabelEnd:Enter.
    let text_exit_index: usize = media.end.0;
    // LabelEnd:Exit.
    let label_exit_index: usize = media.end.0 + 3;
    // Resource:Exit, etc.
    let group_end_index: usize = media.end.1;
    let group = if is_link {
        Name::Link
    } else {
        Name::Image
    };

    // Insert a group enter and label enter.
    let opening = vec![
        Event { kind: Kind::Enter, name: group, point: group_enter_event.point, link: None },
        Event { kind: Kind::Enter, name: Name::Label, point: group_enter_event.point, link: None },
    ];
    assert(opening@ =~= list[0].2);
    map.add(group_enter_index, 0, opening);
    proof {
        lemma_add_all_push(m0, done, list[0]);
        done = done.push(list[0]);
    }

    // Empty events not allowed.
    if text_enter_index != text_exit_index {
        // Insert a text enter.
        let text_enter = vec![
            Event {
                kind: Kind::Enter,
                name: Name::LabelText,
                point: events[text_enter_index].point,
                link: None,
            },
        ];
        assert(text_enter@ =~= list[1].2);
        map.add_before(text_enter_index, 0, text_enter);
        proof {
            lemma_add_all_push(m0, done, list[1]);
            done = done.push(list[1]);
        }

        // Insert a text exit.
        let text_exit = vec![
            Event {
                kind: Kind::Exit,
                name: Name::LabelText,
                point: events[text_exit_index].point,
                link: None,
            },
        ];
        assert(text_exit@ =~= list[2].2);
        map.add(text_exit_index, 0, text_exit);
        proof {
            lemma_add_all_push(m0, done, list[2]);
            done = done.push(list[2]);
        }
    }
    let ghost at: int = if text_enter_index != text_exit_index {
        3
    } else {
        1
    };

    // Insert a label exit.
    let label_exit = vec![
        Event {
            kind: Kind::Exit,
            name: Name::Label,
            point: events[label_exit_index].point,
            link: None,
        },
    ];
    assert(label_exit@ =~= list[at].2);
    map.add(label_exit_index + 1, 0, label_exit);
    proof {
        lemma_add_all_push(m0, done, list[at]);
        done = done.push(list[at]);
    }

    // Insert a group exit.
    let group_exit = vec![
        Event { kind: Kind::Exit, name: group, point: events[group_end_index].point, link: None },
    ];
    assert(group_exit@ =~= list[at + 1].2);
    map.add(group_end_index + 1, 0, group_exit);
    proof {
        lemma_add_all_push(m0, done, list[at + 1]);
        done = done.push(list[at + 1]);
        assert(done =~= list);
    }
}

/// Resolve media.
///
/// This turns correct label start (image, link) and label end into links and
/// images, or turns them back into data.
pub fn resolve(tokenizer: &mut Tokenizer)
    requires
        can_resolve(old(tokenizer)@),
    ensures
        final(tokenizer)@ == labels_resolved(old(tokenizer)@),
{
    let ghost m = tokenizer@;
    let ghost all = label_edits(m);
    let mut left = tokenizer.tokenize_state.label_start_list_loose.split_off(0);
    let mut left_2 = tokenizer.tokenize_state.label_start_stack.split_off(0);
    let media = tokenizer.tokenize_state.media_list.split_off(0);
    left.append(&mut left_2);
    assert(left@ =~= left_starts(m));
    assert(media@ =~= m.tokenize_state.media_list);
    let ghost state = tokenizer.tokenize_state@;
    assert(tokenizer@ == (TokenizerModel { map: tokenizer@.map, tokenize_state: state, ..m }));

    let ghost mut done: Seq<(usize, usize, Seq<Event>, bool)> = Seq::empty();
    assert(tokenizer.map@ == add_all(m.map, done));
    assert(done =~= media_edits(m.events, media@.take(0)));

    // Add grouping events.
    let mut index: usize = 0;
    while index < media.len()
        invariant
            media@ == m.tokenize_state.media_list,
            tokenizer.events@ == m.events,
            tokenizer.tokenize_state@ == state,
            tokenizer@ == (TokenizerModel { map: tokenizer@.map, tokenize_state: state, ..m }),
            can_resolve(m),
            all == label_edits(m),
            index <= media@.len(),
            done == media_edits(m.events, media@.take(index as int)),
            tokenizer.map@ == add_all(m.map, done),
        decreases media@.len() - index,
    {
        let media_item = media[index];
        let ghost list = media_edit_list(m.events, media_item);
        proof {
            assert(media_in_bounds(m.events, m.tokenize_state.media_list[index as int]));
        }
        add_media(&mut tokenizer.map, &tokenizer.events, media_item);
        proof {
            lemma_add_all_concat(m.map, done, list);
            assert(media@.take(index + 1).drop_last() =~= media@.take(index as int));
            assert(media_edits(m.events, media@.take(index + 1)) == media_edits(
                m.events,
                media@.take(index as int),
            ) + list);
            done = done + list;
        }
        index = index + 1;
    }
    let ghost media_part = done;
    proof {
        assert(media@.take(media@.len() as int) =~= media@);
        assert(media_part == media_edits(m.events, m.tokenize_state.media_list));
        assert(all.take(media_part.len() as int) =~= media_part);
    }

    // Remove loose label starts.
    let mut index: usize = 0;
    while index < left.len()
        invariant
            left@ == left_starts(m),
            tokenizer.events@ == m.events,
            tokenizer.tokenize_state@ == state,
            tokenizer@ == (TokenizerModel { map: tokenizer@.map, tokenize_state: state, ..m }),
            can_resolve(m),
            all == label_edits(m),
            media_part == media_edits(m.events, m.tokenize_state.media_list),
            index <= left@.len(),
            done == all.take(media_part.len() + index),
            tokenizer.map@ == add_all(m.map, done),
        decreases left@.len() - index,
    {
        let label_start = left[index];
        let ghost e = data_edit(m.events, label_start);
        let ghost k = label_start.start.0;
        proof {
            assert(start_in_bounds(m.events, left_starts(m)[index as int]));
            assert(all[media_part.len() + index] == loose_edits(m.events, left_starts(m))[index as int]);
            assert(all.take(media_part.len() + index + 1) =~= done.push(e));
            lemma_removes_in_prefix(all, media_part.len() + index + 1, k);
            assert(done.push(e).drop_last() =~= done);
            assert(removes_in(all, k) > 0);
            lemma_add_all(m.map, done, k);
        }
        add_data(&mut tokenizer.map, &tokenizer.events, label_start);
        proof {
            lemma_add_all_concat(m.map, done, seq![e]);
            assert(done + seq![e] =~= done.push(e));
            done = done.push(e);
        }
        index = index + 1;
    }
    proof {
        assert(done =~= all);
        lemma_label_edits_fit(m);
    }

    tokenizer.map.consume(&mut tokenizer.events);
    proof {
        assert(tokenizer.tokenize_state.label_start_stack@ =~= Seq::<LabelStart>::empty());
        assert(tokenizer.tokenize_state.label_start_list_loose@ =~= Seq::<LabelStart>::empty());
        assert(tokenizer.tokenize_state.media_list@ =~= Seq::<Media>::empty());
    }
}

/// How many label starts the tokenizer tracks: open, unmatched, and
/// matched.
pub open spec fn label_start_count(m: TokenizerModel) -> nat {
    m.tokenize_state.label_start_stack.len() + m.tokenize_state.label_start_list_loose.len()
        + m.tokenize_state.media_list.len()
}

/// A label end settles exactly one label start: `ok` moves the innermost
/// label start into the media, `nok` into the unmatched starts, and none is
/// lost or made up.
pub proof fn lemma_label_starts_kept(m: TokenizerModel)
    requires
        m.tokenize_state.label_start_stack.len() > 0,
    ensures
        label_start_count(unmatched(m)) == label_start_count(m),
        unmatched(m).tokenize_state.label_start_stack.len() + 1
            == m.tokenize_state.label_start_stack.len(),
        can_match(m) ==> label_start_count(matched(m)) == label_start_count(m),
        can_match(m) ==> matched(m).tokenize_state.label_start_stack.len() + 1
            == m.tokenize_state.label_start_stack.len(),
{
}

/// Links cannot contain links (the deepest link wins): once the label start
/// of a link matches, every link start that is still open is inactive, so a
/// later label end that reaches one of them fails: `start` answers
/// `LabelEndNok` for it.
pub proof fn lemma_no_links_in_links(m: TokenizerModel, later: TokenizerModel)
    requires
        can_match(m),
        opens_link(m.events, last_label_start(m)),
        later.tokenize_state.label_start_stack == matched(m).tokenize_state.label_start_stack,
        later.tokenize_state.label_start_stack.len() > 0,
        m.events.len() <= later.events.len(),
        forall|i: int| 0 <= i < m.events.len() ==> later.events[i] == m.events[i],
        opens_link(later.events, last_label_start(later)),
    ensures
        last_label_start(later).inactive,
{
    let stack = m.tokenize_state.label_start_stack;
    let j = later.tokenize_state.label_start_stack.len() - 1;
    assert(stack.drop_last()[j] == stack[j]);
    assert(stack[j].start.0 < m.events.len());
}

proof fn lemma_media_edits_concat(events: Seq<Event>, a: Seq<Media>, b: Seq<Media>)
    ensures
        media_edits(events, a + b) == media_edits(events, a) + media_edits(events, b),
    decreases b.len(),
{
    if b.len() == 0 {
        assert(a + b =~= a);
        assert(media_edits(events, a) + media_edits(events, b) =~= media_edits(events, a));
    } else {
        assert((a + b).drop_last() =~= a + b.drop_last());
        lemma_media_edits_concat(events, a, b.drop_last());
        assert(media_edits(events, a + b) =~= media_edits(events, a) + media_edits(events, b));
    }
}

/// Edits of media that put events before others do so only where the label
/// text of one of those media starts.
proof fn lemma_media_leads(events: Seq<Event>, media: Seq<Media>)
    requires
        events.len() <= usize::MAX,
        forall|t: int| 0 <= t < media.len() ==> #[trigger] media_in_bounds(events, media[t]),
    ensures
        forall|j: int|
            0 <= j < media_edits(events, media).len() && (#[trigger] media_edits(events, media)[j]).3
                ==> exists|t: int|
                0 <= t < media.len() && text_enter_index(events, media[t]) != media[t].end.0
                    && media_edits(events, media)[j].0 == text_enter_index(events, media[t]),
    decreases media.len(),
{
    if media.len() > 0 {
        let rest = media.drop_last();
        assert forall|t: int| 0 <= t < rest.len() implies #[trigger] media_in_bounds(events, rest[t]) by {
            assert(rest[t] == media[t]);
        }
        lemma_media_leads(events, rest);
        let a = media_edits(events, rest);
        let b = media_edit_list(events, media.last());
        let last = media.len() - 1;
        assert(media_in_bounds(events, media[last]));
        assert forall|j: int|
            0 <= j < (a + b).len() && (#[trigger] (a + b)[j]).3 implies exists|t: int|
            0 <= t < media.len() && text_enter_index(events, media[t]) != media[t].end.0
                && (a + b)[j].0 == text_enter_index(events, media[t]) by {
            if j < a.len() {
                assert((a + b)[j] == a[j]);
                let t = choose|t: int|
                    0 <= t < rest.len() && text_enter_index(events, rest[t]) != rest[t].end.0
                        && a[j].0 == text_enter_index(events, rest[t]);
                assert(media[t] == rest[t]);
            } else {
                let md = media[last];
                assert(md == media.last());
                assert((a + b)[j] == b[j - a.len()]);
                let te = text_enter_index(events, md);
                if te != md.end.0 {
                    assert(b.len() == 5);
                    assert(b[1].0 == te as usize);
                    assert(!b[0].3 && !b[2].3 && !b[3].3 && !b[4].3);
                    assert(j - a.len() == 1);
                    assert(0 <= last < media.len() && text_enter_index(events, media[last])
                        != media[last].end.0 && (a + b)[j].0 == text_enter_index(events, media[last]));
                } else {
                    assert(b.len() == 3);
                    assert(!b[0].3 && !b[1].3 && !b[2].3);
                }
            }
        }
    }
}

/// The label texts of different media start at different events.
pub open spec fn media_texts_distinct(m: TokenizerModel) -> bool {
    let events = m.events;
    let media = m.tokenize_state.media_list;
    forall|i: int, j: int|
        0 <= i < media.len() && 0 <= j < media.len() && i != j ==> text_enter_index(
            events,
            #[trigger] media[i],
        ) != text_enter_index(events, #[trigger] media[j])
}

/// Label text comes first: where the text of a link or image starts, its
/// label text opens before anything else inserted there, so an image or
/// link that starts right there (an image in a link, `[![a](b)](c)`) lies
/// inside that text.
pub proof fn lemma_label_text_first(m: TokenizerModel, i: int)
    requires
        can_resolve(m),
        media_texts_distinct(m),
        0 <= i < m.tokenize_state.media_list.len(),
        text_enter_index(m.events, m.tokenize_state.media_list[i])
            != m.tokenize_state.media_list[i].end.0,
    ensures
        ({
            let k = text_enter_index(m.events, m.tokenize_state.media_list[i]);
            let inserted = adds_at(add_all(m.map, label_edits(m)), k as nat);
            &&& inserted.len() > 0
            &&& inserted[0] == (Event {
                kind: Kind::Enter,
                name: Name::LabelText,
                point: m.events[k].point,
                link: None,
            })
        }),
{
    let events = m.events;
    let media = m.tokenize_state.media_list;
    let md = media[i];
    let k = text_enter_index(events, md);
    assert(media_in_bounds(events, media[i]));
    let before = media.take(i);
    let after = media.skip(i + 1);
    assert(media =~= before + seq![md] + after);
    lemma_media_edits_concat(events, before + seq![md], after);
    lemma_media_edits_concat(events, before, seq![md]);
    assert(seq![md].drop_last() =~= Seq::<Media>::empty());
    assert(seq![md].last() == md);
    assert(media_edits(events, Seq::<Media>::empty()) =~= Seq::<(usize, usize, Seq<Event>, bool)>::empty());
    assert(media_edits(events, seq![md]) =~= media_edit_list(events, md));
    let list = media_edit_list(events, md);
    let p = media_edits(events, before);
    let loose = loose_edits(events, left_starts(m));
    let q = list.skip(2) + media_edits(events, after) + loose;
    assert(label_edits(m) =~= p + list.take(2) + q);
    lemma_add_all_concat(m.map, p + list.take(2), q);
    lemma_add_all_concat(m.map, p, list.take(2));
    let x = add_all(m.map, p);
    assert(list.take(2) =~= seq![list[0]].push(list[1]));
    lemma_add_all_push(x, seq![list[0]], list[1]);
    lemma_add_all_push(x, Seq::empty(), list[0]);
    assert(Seq::<(usize, usize, Seq<Event>, bool)>::empty().push(list[0]) =~= seq![list[0]]);
    let y = add_all(x, list.take(2));
    let lead = seq![Event { kind: Kind::Enter, name: Name::LabelText, point: events[k].point, link: None }];
    assert(adds_at(y, k as nat).take(1) =~= lead);
    // Nothing later puts events before it.
    assert forall|t: int| 0 <= t < after.len() implies #[trigger] media_in_bounds(events, after[t]) by {
        assert(after[t] == media[i + 1 + t]);
        assert(media_in_bounds(events, media[i + 1 + t]));
    }
    lemma_media_leads(events, after);
    let later = media_edits(events, after);
    assert forall|j: int| 0 <= j < q.len() implies !((#[trigger] q[j]).3 && q[j].0 == k) by {
        if j < list.skip(2).len() {
            assert(q[j] == list[j + 2]);
        } else if j < list.skip(2).len() + later.len() {
            let jj = j - list.skip(2).len();
            assert(q[j] == later[jj]);
            if later[jj].3 && later[jj].0 == k {
                let t = choose|t: int|
                    0 <= t < after.len() && text_enter_index(events, after[t]) != after[t].end.0
                        && later[jj].0 == text_enter_index(events, after[t]);
                assert(after[t] == media[i + 1 + t]);
                assert(media_in_bounds(events, after[t]));
            }
        } else {
            let jj = j - list.skip(2).len() - later.len();
            assert(q[j] == loose[jj]);
        }
    }
    lemma_add_all_keeps_lead(y, q, k as usize, lead);
    assert(add_all(m.map, label_edits(m)) == add_all(y, q));
    assert((k as usize) as nat == k as nat);
    let inserted = adds_at(add_all(m.map, label_edits(m)), k as nat);
    assert(inserted.take(1)[0] == inserted[0]);
}

/// Where a link or image closes at the same index as an unmatched label
/// start that is turned back into data, the closing events come first: the
/// data stays outside that link or image (`[a]![b`).
pub proof fn lemma_media_before_loose(m: TokenizerModel, k: usize)
    ensures
        adds_at(add_all(m.map, label_edits(m)), k as nat) == adds_at(
            add_all(m.map, media_edits(m.events, m.tokenize_state.media_list)),
            k as nat,
        ) + inserted_at(loose_edits(m.events, left_starts(m)), k),
{
    let media = media_edits(m.events, m.tokenize_state.media_list);
    let loose = loose_edits(m.events, left_starts(m));
    lemma_add_all_concat(m.map, media, loose);
    assert(only_appends(loose));
    lemma_add_all_appends(add_all(m.map, media), loose, k);
}

/// Whether a label is defined is decided by the bytes after its whole label
/// start (`[` or `![`) and before its `]`, normalized and looked up in the
/// definitions: the label start itself is never part of the label.
pub proof fn lemma_label_is_between_start_and_end(m: TokenizerModel)
    requires
        label_readable(m),
    ensures
        label_defined(m) == match normalized(
            m.parse_state.bytes.subrange(
                m.events[m.tokenize_state.label_start_stack.last().start.1 as int].point.index as int,
                m.events[m.tokenize_state.end as int].point.index as int,
            ),
        ) {
            Some(identifier) => m.parse_state.definitions.contains(identifier),
            None => false,
        },
{
}

/// Two labels with the same text are defined alike, whatever their label
/// starts: `![foo]` is defined exactly when `[foo]` is.
pub proof fn lemma_label_defined_by_text(m1: TokenizerModel, m2: TokenizerModel)
    requires
        label_readable(m1),
        label_readable(m2),
        m1.parse_state.definitions == m2.parse_state.definitions,
        m1.parse_state.bytes.subrange(
            m1.events[m1.tokenize_state.label_start_stack.last().start.1 as int].point.index as int,
            m1.events[m1.tokenize_state.end as int].point.index as int,
        ) == m2.parse_state.bytes.subrange(
            m2.events[m2.tokenize_state.label_start_stack.last().start.1 as int].point.index as int,
            m2.events[m2.tokenize_state.end as int].point.index as int,
        ),
    ensures
        label_defined(m1) == label_defined(m2),
{
}

/// `ok` makes link starts inactive only when a link matched, and never
/// touches image starts: every other label start keeps its place, and its
/// inactive flag is set exactly when it opens a link and the matched start
/// opened a link (links cannot contain links, but images can hold links).
/// The matched start is recorded as a link or image that runs from it to
/// the label end and on to the last event.
pub proof fn lemma_ok_deactivates_only_links(m: TokenizerModel)
    requires
        m.tokenize_state.label_start_stack.len() > 0,
    ensures
        ({
            let before = m.tokenize_state.label_start_stack;
            let after = matched(m).tokenize_state.label_start_stack;
            let link_matched = m.events[before.last().start.0 as int].name == Name::LabelLink;
            &&& after.len() + 1 == before.len()
            &&& matched(m).tokenize_state.media_list == m.tokenize_state.media_list.push(
                Media {
                    start: before.last().start,
                    end: (m.tokenize_state.end, (m.events.len() - 1) as usize),
                },
            )
            &&& forall|i: int|
                0 <= i < after.len() ==> (#[trigger] after[i]).start == before[i].start
                    && after[i].inactive == (before[i].inactive || (link_matched
                    && m.events[before[i].start.0 as int].name == Name::LabelLink))
        }),
{
}

/// Whether a label is defined depends on its normalized identifier alone.
pub proof fn lemma_defined_by_identifier(definitions: Seq<Seq<char>>, a: Seq<u8>, b: Seq<u8>)
    requires
        normalized(a) == normalized(b),
    ensures
        defined_label(definitions, a) == defined_label(definitions, b),
{
}

/// The indices of a link or image come in order: its label start, its
/// label text, its label end, and then its last event.
pub open spec fn media_ordered(events: Seq<Event>, media: Media) -> bool {
    &&& media.start.0 < text_enter_index(events, media) <= media.end.0
    &&& media.end.0 + 3 <= media.end.1
}

/// The parts of a link or image hang together: its label start, its label
/// text, its label end, and what follows the label end (a resource or
/// reference) each have well nested events.
pub open spec fn media_nested(events: Seq<Event>, media: Media) -> bool {
    let s = media.start.0 as int;
    let te = text_enter_index(events, media);
    let e = media.end.0 as int;
    let g = media.end.1 as int;
    &&& media_ordered(events, media)
    &&& g < events.len()
    &&& well_nested(events.subrange(s, te))
    &&& well_nested(events.subrange(te, e))
    &&& well_nested(events.subrange(e, e + 4))
    &&& well_nested(events.subrange(e + 4, g + 1))
}

/// Unmatched label starts stand apart: the events of each are well nested,
/// and no two share an event.
pub open spec fn starts_apart(m: TokenizerModel) -> bool {
    let events = m.events;
    let left = left_starts(m);
    &&& forall|i: int|
        0 <= i < left.len() ==> well_nested(
            events.subrange((#[trigger] left[i]).start.0 as int, left[i].start.1 + 1),
        )
    &&& forall|i: int, j: int|
        0 <= i < left.len() && 0 <= j < left.len() && i != j ==> #[trigger] left[i].start.1
            < #[trigger] left[j].start.0 || left[j].start.1 < left[i].start.0
}

/// The edit map that turns the unmatched label starts back into data.
proof fn lemma_loose_map(m: TokenizerModel)
    requires
        can_resolve(m),
        starts_apart(m),
    ensures
        ({
            let events = m.events;
            let left = left_starts(m);
            let loose = loose_edits(events, left);
            let mm = add_all(Map::<usize, (usize, Seq<Event>)>::empty(), loose);
            &&& replaces_runs(events, mm)
            &&& forall|k: usize| #[trigger] removes_at(mm, k as nat) == removes_in(loose, k) && adds_at(
                mm,
                k as nat,
            ) == inserted_at(loose, k)
            &&& forall|k: nat|
                #[trigger] removes_at(mm, k) > 0 ==> exists|i: int|
                    0 <= i < left.len() && #[trigger] left[i].start.0 == k && removes_at(mm, k)
                        == left[i].start.1 - left[i].start.0 + 1
            &&& forall|i: int, j: int| 0 <= i < j < loose.len() ==> #[trigger] loose[i].0 != #[trigger] loose[j].0
        }),
{
    let events = m.events;
    let left = left_starts(m);
    let loose = loose_edits(events, left);
    let empty_map = Map::<usize, (usize, Seq<Event>)>::empty();
    let mm = add_all(empty_map, loose);
    assert forall|i: int, j: int| 0 <= i < j < loose.len() implies #[trigger] loose[i].0
        != #[trigger] loose[j].0 by {
        assert(start_in_bounds(events, left[i]));
        assert(start_in_bounds(events, left[j]));
    }
    assert(only_appends(loose));
    // What the map holds at each index.
    assert forall|k: usize| #[trigger] removes_at(mm, k as nat) == removes_in(loose, k) && adds_at(
        mm,
        k as nat,
    ) == inserted_at(loose, k) by {
        lemma_distinct_keys(loose, k);
        if exists|i: int| 0 <= i < loose.len() && #[trigger] loose[i].0 == k {
            let i = choose|i: int| 0 <= i < loose.len() && #[trigger] loose[i].0 == k;
            assert(removes_in(loose, k) == loose[i].1);
        }
        lemma_add_all(empty_map, loose, k);
        lemma_add_all_appends(empty_map, loose, k);
        assert(adds_at(empty_map, k as nat) + inserted_at(loose, k) =~= inserted_at(loose, k));
    }
    // Each index holds the edit of the start there, or nothing.
    assert forall|k: nat|
        #[trigger] removes_at(mm, k) > 0 implies exists|i: int|
            0 <= i < left.len() && #[trigger] left[i].start.0 == k && removes_at(mm, k) == left[i].start.1
                - left[i].start.0 + 1 && adds_at(mm, k) == data_edit(events, left[i]).2 by {
        let ku = k as usize;
        assert(ku as nat == k);
        lemma_distinct_keys(loose, ku);
        assert(removes_at(mm, ku as nat) == removes_in(loose, ku));
        let i = choose|i: int| 0 <= i < loose.len() && #[trigger] loose[i].0 == ku;
        assert(loose[i] == data_edit(events, left[i]));
        assert(start_in_bounds(events, left[i]));
    }
    assert forall|k: nat| #[trigger] removes_at(mm, k) == 0 implies adds_at(mm, k).len() == 0 by {
        if k <= usize::MAX {
            let ku = k as usize;
            assert(ku as nat == k);
            lemma_distinct_keys(loose, ku);
            assert(removes_at(mm, ku as nat) == removes_in(loose, ku));
            if exists|i: int| 0 <= i < loose.len() && #[trigger] loose[i].0 == ku {
                let i = choose|i: int| 0 <= i < loose.len() && #[trigger] loose[i].0 == ku;
                assert(loose[i] == data_edit(events, left[i]));
                assert(start_in_bounds(events, left[i]));
            }
        }
    }
    assert forall|a: nat, k: nat|
        #![trigger removes_at(mm, a), removes_at(mm, k)]
        removes_at(mm, a) > 0 && a < k < a + removes_at(mm, a) implies removes_at(mm, k) == 0 by {
        let i = choose|i: int|
            0 <= i < left.len() && #[trigger] left[i].start.0 == a && removes_at(mm, a)
                == left[i].start.1 - left[i].start.0 + 1 && adds_at(mm, a) == data_edit(events, left[i]).2;
        if removes_at(mm, k) > 0 {
            let j = choose|j: int|
                0 <= j < left.len() && #[trigger] left[j].start.0 == k && removes_at(mm, k)
                    == left[j].start.1 - left[j].start.0 + 1 && adds_at(mm, k) == data_edit(events, left[j]).2;
            assert(start_in_bounds(events, left[j]));
            assert(left[i].start.1 < left[j].start.0 || left[j].start.1 < left[i].start.0);
        }
    }
    assert forall|a: nat| #[trigger] removes_at(mm, a) > 0 implies {
        &&& a + removes_at(mm, a) <= events.len()
        &&& well_nested(events.subrange(a as int, (a + removes_at(mm, a)) as int))
        &&& well_nested(adds_at(mm, a))
    } by {
        let i = choose|i: int|
            0 <= i < left.len() && #[trigger] left[i].start.0 == a && removes_at(mm, a)
                == left[i].start.1 - left[i].start.0 + 1 && adds_at(mm, a) == data_edit(events, left[i]).2;
        assert(start_in_bounds(events, left[i]));
        assert(well_nested(events.subrange(left[i].start.0 as int, left[i].start.1 + 1)));
        let pair = data_edit(events, left[i]).2;
        assert(pair =~= seq![pair[0]] + seq![pair[1]]);
        lemma_open_spans_enter(Seq::empty(), pair[0]);
        lemma_open_spans_then(Seq::empty(), seq![pair[0]], seq![pair[1]], seq![Name::Data]);
        lemma_open_spans_exit(seq![Name::Data], pair[1]);
        assert(seq![Name::Data].drop_last() =~= Seq::<Name>::empty());
        assert(Seq::<Name>::empty().push(Name::Data) =~= seq![Name::Data]);
    }
    assert(replaces_runs(events, mm));
}

/// The edits of a link or image that add their events after those already
/// inserted at the same index: all but the one that opens its label text.
pub open spec fn media_appends(events: Seq<Event>, media: Media) -> Seq<
    (usize, usize, Seq<Event>, bool),
> {
    let list = media_edit_list(events, media);
    if text_enter_index(events, media) != media.end.0 {
        seq![list[0], list[2], list[3], list[4]]
    } else {
        list
    }
}

/// The events that the media add after those already inserted at index
/// `k`, media by media.
pub open spec fn media_appended_at(events: Seq<Event>, media: Seq<Media>, k: usize) -> Seq<Event>
    decreases media.len(),
{
    if media.len() == 0 {
        Seq::empty()
    } else {
        media_appended_at(events, media.drop_last(), k) + inserted_at(
            media_appends(events, media.last()),
            k,
        )
    }
}

/// The label text that opens at index `k`, when the label text of one of
/// the media starts there.
pub open spec fn text_opened_at(events: Seq<Event>, media: Seq<Media>, k: usize) -> Seq<Event>
    decreases media.len(),
{
    if media.len() == 0 {
        Seq::empty()
    } else {
        let md = media.last();
        let te = text_enter_index(events, md);
        (if te != md.end.0 && te == k {
            media_edit_list(events, md)[1].2
        } else {
            Seq::empty()
        }) + text_opened_at(events, media.drop_last(), k)
    }
}

/// No label text opens at `k` when no text of the media starts there.
proof fn lemma_no_text_opened(events: Seq<Event>, media: Seq<Media>, k: usize)
    requires
        forall|t: int|
            0 <= t < media.len() ==> text_enter_index(events, #[trigger] media[t]) == media[t].end.0
                || text_enter_index(events, media[t]) != k,
    ensures
        text_opened_at(events, media, k) == Seq::<Event>::empty(),
    decreases media.len(),
{
    if media.len() > 0 {
        let rest = media.drop_last();
        assert forall|t: int| 0 <= t < rest.len() implies text_enter_index(events, #[trigger] rest[t])
            == rest[t].end.0 || text_enter_index(events, rest[t]) != k by {
            assert(rest[t] == media[t]);
        }
        lemma_no_text_opened(events, rest, k);
        assert(media[media.len() - 1] == media.last());
        assert(text_opened_at(events, media, k) =~= Seq::<Event>::empty());
    }
}

/// What the edits of one more link or image do at index `k`.
#[verifier::spinoff_prover]
#[verifier::rlimit(40)]
proof fn lemma_media_list_adds(p: Map<usize, (usize, Seq<Event>)>, events: Seq<Event>, md: Media, k: usize)
    requires
        media_in_bounds(events, md),
        media_ordered(events, md),
        events.len() + 8 <= usize::MAX,
    ensures
        adds_at(add_all(p, media_edit_list(events, md)), k as nat) == (if text_enter_index(events, md)
            != md.end.0 && text_enter_index(events, md) == k {
            media_edit_list(events, md)[1].2
        } else {
            Seq::empty()
        }) + adds_at(p, k as nat) + inserted_at(media_appends(events, md), k),
{
    let list = media_edit_list(events, md);
    let te = text_enter_index(events, md);
    let on = te != md.end.0;
    let before = adds_at(p, k as nat);
    let q0 = Seq::<(usize, usize, Seq<Event>, bool)>::empty();
    let p1 = q0.push(list[0]);
    lemma_add_all_push(p, q0, list[0]);
    lemma_adds_at_step(p, list[0], k);
    lemma_inserted_at_push(q0, list[0], k);
    let a0 = if list[0].0 == k {
        list[0].2
    } else {
        Seq::empty()
    };
    assert(inserted_at(q0, k) =~= Seq::<Event>::empty());
    assert(adds_at(add_all(p, p1), k as nat) =~= before + a0);
    if on {
        let p2 = p1.push(list[1]);
        let p3 = p2.push(list[2]);
        let p4 = p3.push(list[3]);
        let p5 = p4.push(list[4]);
        assert(list =~= p5);
        lemma_add_all_push(p, p1, list[1]);
        lemma_add_all_push(p, p2, list[2]);
        lemma_add_all_push(p, p3, list[3]);
        lemma_add_all_push(p, p4, list[4]);
        lemma_adds_at_step(add_all(p, p1), list[1], k);
        lemma_adds_at_step(add_all(p, p2), list[2], k);
        lemma_adds_at_step(add_all(p, p3), list[3], k);
        lemma_adds_at_step(add_all(p, p4), list[4], k);
        let r1 = q0.push(list[0]);
        let r2 = r1.push(list[2]);
        let r3 = r2.push(list[3]);
        let r4 = r3.push(list[4]);
        assert(media_appends(events, md) =~= r4);
        lemma_inserted_at_push(r1, list[2], k);
        lemma_inserted_at_push(r2, list[3], k);
        lemma_inserted_at_push(r3, list[4], k);
        let a2 = if list[2].0 == k {
            list[2].2
        } else {
            Seq::empty()
        };
        let a3 = if list[3].0 == k {
            list[3].2
        } else {
            Seq::empty()
        };
        let a4 = if list[4].0 == k {
            list[4].2
        } else {
            Seq::empty()
        };
        assert(inserted_at(r4, k) =~= a0 + a2 + a3 + a4);
        if te == k {
            assert(list[1].0 == k);
            assert(a0 =~= Seq::<Event>::empty());
            assert(a2 =~= Seq::<Event>::empty());
            assert(a3 =~= Seq::<Event>::empty());
            assert(a4 =~= Seq::<Event>::empty());
            assert(adds_at(add_all(p, p5), k as nat) =~= list[1].2 + before);
            assert(list[1].2 + before + inserted_at(r4, k) =~= list[1].2 + before);
        } else {
            assert(list[1].0 != k);
            assert(adds_at(add_all(p, p5), k as nat) =~= before + a0 + a2 + a3 + a4);
            assert(Seq::<Event>::empty() + before + inserted_at(r4, k) =~= before + a0 + a2 + a3
                + a4);
        }
    } else {
        let p2 = p1.push(list[1]);
        let p3 = p2.push(list[2]);
        assert(list =~= p3);
        lemma_add_all_push(p, p1, list[1]);
        lemma_add_all_push(p, p2, list[2]);
        lemma_adds_at_step(add_all(p, p1), list[1], k);
        lemma_adds_at_step(add_all(p, p2), list[2], k);
        lemma_inserted_at_push(p1, list[1], k);
        lemma_inserted_at_push(p2, list[2], k);
        assert(media_appends(events, md) == p3);
        let a1 = if list[1].0 == k {
            list[1].2
        } else {
            Seq::empty()
        };
        let a2 = if list[2].0 == k {
            list[2].2
        } else {
            Seq::empty()
        };
        assert(inserted_at(p3, k) =~= a0 + a1 + a2);
        assert(adds_at(add_all(p, p3), k as nat) =~= before + a0 + a1 + a2);
        assert(Seq::<Event>::empty() + before + inserted_at(p3, k) =~= before + a0 + a1 + a2);
    }
}

/// What the edits of all media do at index `k`.
proof fn lemma_media_adds(p: Map<usize, (usize, Seq<Event>)>, events: Seq<Event>, media: Seq<Media>, k: usize)
    requires
        events.len() + 8 <= usize::MAX,
        forall|t: int| 0 <= t < media.len() ==> #[trigger] media_in_bounds(events, media[t]),
        forall|t: int| 0 <= t < media.len() ==> #[trigger] media_ordered(events, media[t]),
        forall|i: int, j: int|
            0 <= i < media.len() && 0 <= j < media.len() && i != j ==> text_enter_index(
                events,
                #[trigger] media[i],
            ) != text_enter_index(events, #[trigger] media[j]),
    ensures
        adds_at(add_all(p, media_edits(events, media)), k as nat) == text_opened_at(events, media, k)
            + adds_at(p, k as nat) + media_appended_at(events, media, k),
    decreases media.len(),
{
    if media.len() == 0 {
        assert(add_all(p, media_edits(events, media)) == p);
        assert(Seq::<Event>::empty() + adds_at(p, k as nat) + Seq::<Event>::empty() =~= adds_at(p, k as nat));
    } else {
        let rest = media.drop_last();
        let last = media.len() - 1;
        let md = media[last];
        assert(md == media.last());
        assert forall|t: int| 0 <= t < rest.len() implies #[trigger] media_in_bounds(events, rest[t]) by {
            assert(rest[t] == media[t]);
        }
        assert forall|t: int| 0 <= t < rest.len() implies #[trigger] media_ordered(events, rest[t]) by {
            assert(rest[t] == media[t]);
        }
        assert forall|i: int, j: int|
            0 <= i < rest.len() && 0 <= j < rest.len() && i != j implies text_enter_index(
            events,
            #[trigger] rest[i],
        ) != text_enter_index(events, #[trigger] rest[j]) by {
            assert(rest[i] == media[i]);
            assert(rest[j] == media[j]);
        }
        lemma_media_adds(p, events, rest, k);
        let a = media_edits(events, rest);
        let list = media_edit_list(events, md);
        lemma_add_all_concat(p, a, list);
        assert(media_in_bounds(events, media[last]));
        assert(media_ordered(events, media[last]));
        lemma_media_list_adds(add_all(p, a), events, md, k);
        let te = text_enter_index(events, md);
        let lead = if te != md.end.0 && te == k {
            list[1].2
        } else {
            Seq::empty()
        };
        if te != md.end.0 && te == k {
            assert forall|t: int|
                0 <= t < rest.len() implies text_enter_index(events, #[trigger] rest[t])
                == rest[t].end.0 || text_enter_index(events, rest[t]) != k by {
                assert(rest[t] == media[t]);
            }
            lemma_no_text_opened(events, rest, k);
        }
        assert(text_opened_at(events, media, k) == lead + text_opened_at(events, rest, k));
        assert(lead + (text_opened_at(events, rest, k) + adds_at(p, k as nat) + media_appended_at(
            events,
            rest,
            k,
        )) + inserted_at(media_appends(events, md), k) =~= text_opened_at(events, media, k)
            + adds_at(p, k as nat) + media_appended_at(events, media, k)) by {
            if te != md.end.0 && te == k {
                assert(text_opened_at(events, rest, k) =~= Seq::<Event>::empty());
            }
        }
    }
}

/// Where resolving puts its events at each index: the label text that
/// opens there comes first, then what was already inserted there, then the
/// events of each link or image in the order their label ends came, then
/// the data of the unmatched label starts.
pub proof fn lemma_inserted_in_order(m: TokenizerModel, k: usize)
    requires
        can_resolve(m),
        media_texts_distinct(m),
        forall|t: int|
            0 <= t < m.tokenize_state.media_list.len() ==> #[trigger] media_ordered(
                m.events,
                m.tokenize_state.media_list[t],
            ),
    ensures
        adds_at(add_all(m.map, label_edits(m)), k as nat) == text_opened_at(
            m.events,
            m.tokenize_state.media_list,
            k,
        ) + adds_at(m.map, k as nat) + media_appended_at(m.events, m.tokenize_state.media_list, k)
            + inserted_at(loose_edits(m.events, left_starts(m)), k),
{
    lemma_media_before_loose(m, k);
    assert forall|t: int| 0 <= t < m.tokenize_state.media_list.len() implies #[trigger] media_in_bounds(
        m.events,
        m.tokenize_state.media_list[t],
    ) by {}
    lemma_media_adds(m.map, m.events, m.tokenize_state.media_list, k);
}

/// The edit that opens a link or image: its group and its label.
pub open spec fn media_opens(events: Seq<Event>, media: Media) -> Seq<
    (usize, usize, Seq<Event>, bool),
> {
    seq![media_edit_list(events, media)[0]]
}

/// The edits that close the parts of a link or image.
pub open spec fn media_closes(events: Seq<Event>, media: Media) -> Seq<
    (usize, usize, Seq<Event>, bool),
> {
    media_appends(events, media).drop_first()
}

/// The groups and labels that open at index `k`, media by media.
pub open spec fn openers_at(events: Seq<Event>, media: Seq<Media>, k: usize) -> Seq<Event>
    decreases media.len(),
{
    if media.len() == 0 {
        Seq::empty()
    } else {
        openers_at(events, media.drop_last(), k) + inserted_at(media_opens(events, media.last()), k)
    }
}

/// The parts of links and images that close at index `k`, media by media.
pub open spec fn closers_at(events: Seq<Event>, media: Seq<Media>, k: usize) -> Seq<Event>
    decreases media.len(),
{
    if media.len() == 0 {
        Seq::empty()
    } else {
        closers_at(events, media.drop_last(), k) + inserted_at(media_closes(events, media.last()), k)
    }
}

/// Where one link or image opens and closes its parts.
proof fn lemma_media_parts_at(events: Seq<Event>, md: Media, k: usize)
    requires
        media_in_bounds(events, md),
        media_ordered(events, md),
        events.len() + 8 <= usize::MAX,
    ensures
        inserted_at(media_appends(events, md), k) == inserted_at(media_opens(events, md), k)
            + inserted_at(media_closes(events, md), k),
        k != md.start.0 ==> inserted_at(media_opens(events, md), k) == Seq::<Event>::empty(),
        k == md.start.0 ==> inserted_at(media_opens(events, md), k) == media_edit_list(events, md)[0].2,
        k != md.end.0 + 4 && k != md.end.1 + 1 && (k != md.end.0 || text_enter_index(events, md)
            == md.end.0) ==> inserted_at(media_closes(events, md), k) == Seq::<Event>::empty(),
        k == md.end.0 && text_enter_index(events, md) != md.end.0 ==> inserted_at(
            media_closes(events, md),
            k,
        ) == media_edit_list(events, md)[2].2,
        k == md.end.0 + 4 && md.end.0 + 4 < md.end.1 + 1 ==> inserted_at(media_closes(events, md), k)
            == media_edit_list(events, md)[if text_enter_index(events, md) != md.end.0 {
            3int
        } else {
            1int
        }].2,
        k == md.end.1 + 1 && md.end.0 + 4 < md.end.1 + 1 ==> inserted_at(media_closes(events, md), k)
            == media_edit_list(events, md)[if text_enter_index(events, md) != md.end.0 {
            4int
        } else {
            2int
        }].2,
        k == md.end.1 + 1 && md.end.0 + 4 == md.end.1 + 1 ==> inserted_at(media_closes(events, md), k)
            == media_edit_list(events, md)[if text_enter_index(events, md) != md.end.0 {
            3int
        } else {
            1int
        }].2 + media_edit_list(events, md)[if text_enter_index(events, md) != md.end.0 {
            4int
        } else {
            2int
        }].2,
{
    let list = media_edit_list(events, md);
    let on = text_enter_index(events, md) != md.end.0;
    let q0 = Seq::<(usize, usize, Seq<Event>, bool)>::empty();
    assert(media_appends(events, md) =~= media_opens(events, md) + media_closes(events, md));
    lemma_inserted_at_concat(media_opens(events, md), media_closes(events, md), k);
    assert(media_opens(events, md) =~= q0.push(list[0]));
    lemma_inserted_at_push(q0, list[0], k);
    assert(inserted_at(q0, k) =~= Seq::<Event>::empty());
    assert(inserted_at(media_opens(events, md), k) =~= (if list[0].0 == k {
        list[0].2
    } else {
        Seq::<Event>::empty()
    }));
    let (x, y, z): (int, int, int) = if on {
        (2, 3, 4)
    } else {
        (0, 1, 2)
    };
    if on {
        let c1 = q0.push(list[2]);
        let c2 = c1.push(list[3]);
        let c3 = c2.push(list[4]);
        assert(media_closes(events, md) =~= c3);
        lemma_inserted_at_push(q0, list[2], k);
        lemma_inserted_at_push(c1, list[3], k);
        lemma_inserted_at_push(c2, list[4], k);
        let a2 = if list[2].0 == k {
            list[2].2
        } else {
            Seq::<Event>::empty()
        };
        let a3 = if list[3].0 == k {
            list[3].2
        } else {
            Seq::<Event>::empty()
        };
        let a4 = if list[4].0 == k {
            list[4].2
        } else {
            Seq::<Event>::empty()
        };
        assert(inserted_at(c3, k) =~= a2 + a3 + a4);
        if k == md.end.0 {
            assert(a2 + a3 + a4 =~= list[2].2);
        }
        if k == md.end.0 + 4 && md.end.0 + 4 < md.end.1 + 1 {
            assert(a2 + a3 + a4 =~= list[3].2);
        }
        if k == md.end.1 + 1 && md.end.0 + 4 < md.end.1 + 1 {
            assert(a2 + a3 + a4 =~= list[4].2);
        }
        if k == md.end.1 + 1 && md.end.0 + 4 == md.end.1 + 1 {
            assert(a2 + a3 + a4 =~= list[3].2 + list[4].2);
        }
        if k != md.end.0 + 4 && k != md.end.1 + 1 && k != md.end.0 {
            assert(a2 + a3 + a4 =~= Seq::<Event>::empty());
        }
    } else {
        let c1 = q0.push(list[1]);
        let c2 = c1.push(list[2]);
        assert(media_closes(events, md) =~= c2);
        lemma_inserted_at_push(q0, list[1], k);
        lemma_inserted_at_push(c1, list[2], k);
        let a1 = if list[1].0 == k {
            list[1].2
        } else {
            Seq::<Event>::empty()
        };
        let a2 = if list[2].0 == k {
            list[2].2
        } else {
            Seq::<Event>::empty()
        };
        assert(inserted_at(c2, k) =~= a1 + a2);
        if k == md.end.0 + 4 && md.end.0 + 4 < md.end.1 + 1 {
            assert(a1 + a2 =~= list[1].2);
        }
        if k == md.end.1 + 1 && md.end.0 + 4 < md.end.1 + 1 {
            assert(a1 + a2 =~= list[2].2);
        }
        if k == md.end.1 + 1 && md.end.0 + 4 == md.end.1 + 1 {
            assert(a1 + a2 =~= list[1].2 + list[2].2);
        }
        if k != md.end.0 + 4 && k != md.end.1 + 1 {
            assert(a1 + a2 =~= Seq::<Event>::empty());
        }
    }
}

/// Nothing opens at `k` when no media starts there.
proof fn lemma_no_openers(events: Seq<Event>, media: Seq<Media>, k: usize)
    requires
        events.len() + 8 <= usize::MAX,
        forall|t: int| 0 <= t < media.len() ==> #[trigger] media_in_bounds(events, media[t]),
        forall|t: int| 0 <= t < media.len() ==> #[trigger] media_ordered(events, media[t]),
        forall|t: int| 0 <= t < media.len() ==> (#[trigger] media[t]).start.0 != k,
    ensures
        openers_at(events, media, k) == Seq::<Event>::empty(),
    decreases media.len(),
{
    if media.len() > 0 {
        let rest = media.drop_last();
        assert forall|t: int| 0 <= t < rest.len() implies #[trigger] media_in_bounds(events, rest[t]) by {
            assert(rest[t] == media[t]);
        }
        assert forall|t: int| 0 <= t < rest.len() implies #[trigger] media_ordered(events, rest[t]) by {
            assert(rest[t] == media[t]);
        }
        assert forall|t: int| 0 <= t < rest.len() implies (#[trigger] rest[t]).start.0 != k by {
            assert(rest[t] == media[t]);
        }
        lemma_no_openers(events, rest, k);
        let l = media.len() - 1;
        assert(media[l] == media.last());
        assert(media_in_bounds(events, media[l]) && media_ordered(events, media[l]));
        lemma_media_parts_at(events, media[l], k);
        assert(openers_at(events, media, k) =~= Seq::<Event>::empty());
    }
}

/// Nothing closes at `k` when no media closes a part there.
proof fn lemma_no_closers(events: Seq<Event>, media: Seq<Media>, k: usize)
    requires
        events.len() + 8 <= usize::MAX,
        forall|t: int| 0 <= t < media.len() ==> #[trigger] media_in_bounds(events, media[t]),
        forall|t: int| 0 <= t < media.len() ==> #[trigger] media_ordered(events, media[t]),
        forall|t: int|
            0 <= t < media.len() ==> k != (#[trigger] media[t]).end.0 + 4 && k != media[t].end.1 + 1
                && (k != media[t].end.0 || text_enter_index(events, media[t]) == media[t].end.0),
    ensures
        closers_at(events, media, k) == Seq::<Event>::empty(),
    decreases media.len(),
{
    if media.len() > 0 {
        let rest = media.drop_last();
        assert forall|t: int| 0 <= t < rest.len() implies #[trigger] media_in_bounds(events, rest[t]) by {
            assert(rest[t] == media[t]);
        }
        assert forall|t: int| 0 <= t < rest.len() implies #[trigger] media_ordered(events, rest[t]) by {
            assert(rest[t] == media[t]);
        }
        assert forall|t: int|
            0 <= t < rest.len() implies k != (#[trigger] rest[t]).end.0 + 4 && k != rest[t].end.1 + 1
            && (k != rest[t].end.0 || text_enter_index(events, rest[t]) == rest[t].end.0) by {
            assert(rest[t] == media[t]);
        }
        lemma_no_closers(events, rest, k);
        let l = media.len() - 1;
        assert(media[l] == media.last());
        assert(media_in_bounds(events, media[l]) && media_ordered(events, media[l]));
        lemma_media_parts_at(events, media[l], k);
        assert(closers_at(events, media, k) =~= Seq::<Event>::empty());
    }
}

/// Media come in the order of their label ends.
pub open spec fn media_sorted(media: Seq<Media>) -> bool {
    forall|i: int, j: int| 0 <= i < j < media.len() ==> (#[trigger] media[i]).end.0 < (#[trigger] media[j]).end.0
}

/// In media that come in the order of their label ends, what closes at an
/// index comes before what opens there.
proof fn lemma_closers_first(events: Seq<Event>, media: Seq<Media>, k: usize)
    requires
        events.len() + 8 <= usize::MAX,
        forall|t: int| 0 <= t < media.len() ==> #[trigger] media_in_bounds(events, media[t]),
        forall|t: int| 0 <= t < media.len() ==> #[trigger] media_ordered(events, media[t]),
        media_sorted(media),
    ensures
        media_appended_at(events, media, k) == closers_at(events, media, k) + openers_at(events, media, k),
    decreases media.len(),
{
    if media.len() == 0 {
        assert(Seq::<Event>::empty() + Seq::<Event>::empty() =~= Seq::<Event>::empty());
    } else {
        let rest = media.drop_last();
        let l = media.len() - 1;
        let md = media[l];
        assert(md == media.last());
        assert forall|t: int| 0 <= t < rest.len() implies #[trigger] media_in_bounds(events, rest[t]) by {
            assert(rest[t] == media[t]);
        }
        assert forall|t: int| 0 <= t < rest.len() implies #[trigger] media_ordered(events, rest[t]) by {
            assert(rest[t] == media[t]);
        }
        assert(media_sorted(rest)) by {
            assert forall|i: int, j: int| 0 <= i < j < rest.len() implies (#[trigger] rest[i]).end.0
                < (#[trigger] rest[j]).end.0 by {
                assert(rest[i] == media[i] && rest[j] == media[j]);
            }
        }
        lemma_closers_first(events, rest, k);
        assert(media_in_bounds(events, media[l]) && media_ordered(events, media[l]));
        lemma_media_parts_at(events, md, k);
        let op = inserted_at(media_opens(events, md), k);
        let cl = inserted_at(media_closes(events, md), k);
        if cl.len() > 0 {
            // The last media closes here, so none before it opens here.
            assert forall|t: int| 0 <= t < rest.len() implies (#[trigger] rest[t]).start.0 != k by {
                assert(rest[t] == media[t]);
                assert(media[t].end.0 < media[l].end.0);
                assert(media_ordered(events, media[t]));
            }
            lemma_no_openers(events, rest, k);
            assert(op =~= Seq::<Event>::empty());
            assert(media_appended_at(events, media, k) =~= closers_at(events, media, k) + openers_at(
                events,
                media,
                k,
            ));
        } else {
            assert(media_appended_at(events, media, k) =~= closers_at(events, media, k) + openers_at(
                events,
                media,
                k,
            ));
        }
    }
}

/// Two links or images are apart: one ends before the other starts, or one
/// lies inside the label text of the other.
pub open spec fn media_apart(events: Seq<Event>, a: Media, b: Media) -> bool {
    ||| a.end.1 < b.start.0
    ||| b.end.1 < a.start.0
    ||| (text_enter_index(events, a) <= b.start.0 && b.end.1 < a.end.0)
    ||| (text_enter_index(events, b) <= a.start.0 && a.end.1 < b.end.0)
}

/// An unmatched label start lies before or after a link or image, or inside
/// its label text.
pub open spec fn start_placed(events: Seq<Event>, s: LabelStart, media: Media) -> bool {
    ||| s.start.1 < media.start.0
    ||| media.end.1 < s.start.0
    ||| (text_enter_index(events, media) <= s.start.0 && s.start.1 < media.end.0)
}

/// Label starts and ends lie as the label end construct records them: each
/// link or image hangs together, they come in the order of their label
/// ends, any two are apart, and unmatched label starts stand apart and lie
/// before, after, or inside the label text of each link or image.
pub open spec fn labels_placed(m: TokenizerModel) -> bool {
    let events = m.events;
    let media = m.tokenize_state.media_list;
    let left = left_starts(m);
    &&& can_resolve(m)
    &&& forall|t: int| 0 <= t < media.len() ==> #[trigger] media_nested(events, media[t])
    &&& media_sorted(media)
    &&& forall|i: int, j: int|
        0 <= i < media.len() && 0 <= j < media.len() && i != j ==> media_apart(
            events,
            #[trigger] media[i],
            #[trigger] media[j],
        )
    &&& starts_apart(m)
    &&& forall|l: int, t: int|
        0 <= l < left.len() && 0 <= t < media.len() ==> start_placed(
            events,
            #[trigger] left[l],
            #[trigger] media[t],
        )
}

/// The edits resolving makes with the media of the first `j` label ends
/// only, and all unmatched label starts.
spec fn edits_upto(m: TokenizerModel, j: int) -> Seq<(usize, usize, Seq<Event>, bool)> {
    media_edits(m.events, m.tokenize_state.media_list.take(j)) + loose_edits(m.events, left_starts(m))
}

/// The edit map of `edits_upto`.
#[verifier::opaque]
spec fn map_upto(m: TokenizerModel, j: int) -> Map<usize, (usize, Seq<Event>)> {
    add_all(Map::empty(), edits_upto(m, j))
}

/// What the edits with the first `j` media do at each index.
#[verifier::spinoff_prover]
proof fn lemma_upto(m: TokenizerModel, j: int)
    requires
        labels_placed(m),
        0 <= j <= m.tokenize_state.media_list.len(),
    ensures
        ({
            let events = m.events;
            let ml = m.tokenize_state.media_list.take(j);
            let loose = loose_edits(events, left_starts(m));
            &&& forall|k: usize|
                #[trigger] adds_at(map_upto(m, j), k as nat) == text_opened_at(events, ml, k)
                    + closers_at(events, ml, k) + openers_at(events, ml, k) + inserted_at(loose, k)
            &&& forall|k: nat| #[trigger] removes_at(map_upto(m, j), k) == removes_at(map_upto(m, 0), k)
        }),
{
    let events = m.events;
    let media = m.tokenize_state.media_list;
    let ml = media.take(j);
    let left = left_starts(m);
    let loose = loose_edits(events, left);
    let empty_map = Map::<usize, (usize, Seq<Event>)>::empty();
    assert forall|t: int| 0 <= t < ml.len() implies #[trigger] media_in_bounds(events, ml[t]) by {
        assert(ml[t] == media[t]);
        assert(media_in_bounds(events, media[t]));
    }
    assert forall|t: int| 0 <= t < ml.len() implies #[trigger] media_ordered(events, ml[t]) by {
        assert(ml[t] == media[t]);
        assert(media_nested(events, media[t]));
    }
    assert(media_sorted(ml)) by {
        assert forall|a: int, b: int| 0 <= a < b < ml.len() implies (#[trigger] ml[a]).end.0
            < (#[trigger] ml[b]).end.0 by {
            assert(ml[a] == media[a] && ml[b] == media[b]);
        }
    }
    assert forall|a: int, b: int|
        0 <= a < ml.len() && 0 <= b < ml.len() && a != b implies text_enter_index(
        events,
        #[trigger] ml[a],
    ) != text_enter_index(events, #[trigger] ml[b]) by {
        assert(ml[a] == media[a] && ml[b] == media[b]);
        assert(media_apart(events, media[a], media[b]));
        assert(media_nested(events, media[a]) && media_nested(events, media[b]));
    }
    reveal(map_upto);
    let a = media_edits(events, ml);
    assert(edits_upto(m, j) == a + loose);
    lemma_add_all_concat(empty_map, a, loose);
    assert(only_appends(loose));
    lemma_media_keys(events, ml);
    lemma_media_keys(events, media);
    assert forall|k: usize|
        #[trigger] adds_at(map_upto(m, j), k as nat) == text_opened_at(events, ml, k) + closers_at(
            events,
            ml,
            k,
        ) + openers_at(events, ml, k) + inserted_at(loose, k) by {
        lemma_add_all_appends(add_all(empty_map, a), loose, k);
        lemma_media_adds(empty_map, events, ml, k);
        lemma_closers_first(events, ml, k);
        assert(adds_at(empty_map, k as nat) =~= Seq::<Event>::empty());
        assert(text_opened_at(events, ml, k) + adds_at(empty_map, k as nat) + media_appended_at(
            events,
            ml,
            k,
        ) + inserted_at(loose, k) =~= text_opened_at(events, ml, k) + closers_at(events, ml, k)
            + openers_at(events, ml, k) + inserted_at(loose, k));
    }
    // Removals come from the unmatched starts alone.
    lemma_loose_map(m);
    let a0 = media_edits(events, media.take(0));
    assert(media.take(0) =~= Seq::<Media>::empty());
    assert(a0 =~= Seq::<(usize, usize, Seq<Event>, bool)>::empty());
    assert(edits_upto(m, 0) =~= loose);
    assert forall|k: nat| #[trigger] removes_at(map_upto(m, j), k) == removes_at(map_upto(m, 0), k) by {
        if k <= usize::MAX {
            let ku = k as usize;
            assert(ku as nat == k);
            lemma_removes_in_concat(a, loose, ku);
            assert(removes_at(add_all(empty_map, loose), ku as nat) == removes_in(loose, ku));
            lemma_add_all(empty_map, edits_upto(m, j), ku);
        }
    }
}

/// Whether position `i` lies inside none of the first `j` media (it may be
/// where one starts, or just after one ends) and inside no unmatched label
/// start.
spec fn outside_upto(m: TokenizerModel, j: int, i: nat) -> bool {
    let media = m.tokenize_state.media_list;
    let left = left_starts(m);
    &&& forall|t: int| 0 <= t < j ==> !((#[trigger] media[t]).start.0 < i <= media[t].end.1)
    &&& forall|l: int| 0 <= l < left.len() ==> !((#[trigger] left[l]).start.0 < i <= left[l].start.1)
}

/// What resolving with the first `j` media lays out from position `i` to
/// position `i2`: from what opens at `i` to what closes at `i2`.
#[verifier::opaque]
spec fn piece_upto(m: TokenizerModel, j: int, i: nat, i2: nat) -> Seq<Event> {
    let events = m.events;
    let ml = m.tokenize_state.media_list.take(j);
    let mm = map_upto(m, j);
    let loose = loose_edits(events, left_starts(m));
    if i < i2 {
        openers_at(events, ml, i as usize) + inserted_at(loose, i as usize) + own_event(events, mm, i)
            + layout_between(events, mm, i + 1, i2) + text_opened_at(events, ml, i2 as usize)
            + closers_at(events, ml, i2 as usize)
    } else {
        Seq::empty()
    }
}

/// At each index, what the edits with the first `j` media insert: label
/// text, then what closes, then what opens, then data.
spec fn upto_adds(m: TokenizerModel, j: int) -> bool {
    let events = m.events;
    let ml = m.tokenize_state.media_list.take(j);
    let loose = loose_edits(events, left_starts(m));
    forall|k: usize|
        #[trigger] adds_at(map_upto(m, j), k as nat) == text_opened_at(events, ml, k) + closers_at(
            events,
            ml,
            k,
        ) + openers_at(events, ml, k) + inserted_at(loose, k)
}

/// Regrouping the parts of two adjacent pieces.
proof fn lemma_regroup(
    op_i: Seq<Event>,
    d_i: Seq<Event>,
    own_i: Seq<Event>,
    lb1: Seq<Event>,
    t_r: Seq<Event>,
    c_r: Seq<Event>,
    op_r: Seq<Event>,
    d_r: Seq<Event>,
    own_r: Seq<Event>,
    lb2: Seq<Event>,
    t2: Seq<Event>,
    c2: Seq<Event>,
    lb_mid: Seq<Event>,
)
    requires
        lb_mid == lb1 + (t_r + c_r + op_r + d_r) + own_r,
    ensures
        op_i + d_i + own_i + lb1 + t_r + c_r + (op_r + d_r + own_r + lb2 + t2 + c2) == op_i + d_i
            + own_i + (lb_mid + lb2) + t2 + c2,
{
    assert(op_i + d_i + own_i + lb1 + t_r + c_r + (op_r + d_r + own_r + lb2 + t2 + c2) =~= op_i
        + d_i + own_i + (lb_mid + lb2) + t2 + c2);
}

/// Pieces of adjacent ranges join, where the middle lies strictly between.
#[verifier::spinoff_prover]
proof fn lemma_piece_split_inner(m: TokenizerModel, j: int, i: nat, r: nat, i2: nat)
    requires
        upto_adds(m, j),
        m.events.len() + 8 <= usize::MAX,
        i < r < i2 <= m.events.len() + 1,
    ensures
        piece_upto(m, j, i, r) + piece_upto(m, j, r, i2) == piece_upto(m, j, i, i2),
{
    let events = m.events;
    let mm = map_upto(m, j);
    let ml = m.tokenize_state.media_list.take(j);
    let loose = loose_edits(events, left_starts(m));
    let ru = r as usize;
    let iu = i as usize;
    let i2u = i2 as usize;
    assert(ru as nat == r);
    let op_i = openers_at(events, ml, iu);
    let d_i = inserted_at(loose, iu);
    let own_i = own_event(events, mm, i);
    let lb1 = layout_between(events, mm, i + 1, r);
    let t_r = text_opened_at(events, ml, ru);
    let c_r = closers_at(events, ml, ru);
    let op_r = openers_at(events, ml, ru);
    let d_r = inserted_at(loose, ru);
    let own_r = own_event(events, mm, r);
    let lb2 = layout_between(events, mm, r + 1, i2);
    let t2 = text_opened_at(events, ml, i2u);
    let c2 = closers_at(events, ml, i2u);
    assert(adds_at(mm, ru as nat) == t_r + c_r + op_r + d_r);
    let lb_mid = layout_between(events, mm, i + 1, r + 1);
    assert(lb_mid == lb1 + adds_at(mm, r) + own_r);
    lemma_layout_between_join(events, mm, i + 1, r + 1, i2);
    lemma_regroup(op_i, d_i, own_i, lb1, t_r, c_r, op_r, d_r, own_r, lb2, t2, c2, lb_mid);
    assert(piece_upto(m, j, i, r) == op_i + d_i + own_i + lb1 + t_r + c_r) by {
        reveal(piece_upto);
    }
    assert(piece_upto(m, j, r, i2) == op_r + d_r + own_r + lb2 + t2 + c2) by {
        reveal(piece_upto);
    }
    assert(piece_upto(m, j, i, i2) == op_i + d_i + own_i + layout_between(events, mm, i + 1, i2) + t2
        + c2) by {
        reveal(piece_upto);
    }
}

/// Pieces of adjacent ranges join.
proof fn lemma_piece_split(m: TokenizerModel, j: int, i: nat, r: nat, i2: nat)
    requires
        upto_adds(m, j),
        m.events.len() + 8 <= usize::MAX,
        i <= r <= i2 <= m.events.len() + 1,
    ensures
        piece_upto(m, j, i, r) + piece_upto(m, j, r, i2) == piece_upto(m, j, i, i2),
{
    reveal(piece_upto);
    if i == r {
        assert(piece_upto(m, j, i, r) + piece_upto(m, j, r, i2) =~= piece_upto(m, j, i, i2));
    } else if r == i2 {
        assert(piece_upto(m, j, i, r) + piece_upto(m, j, r, i2) =~= piece_upto(m, j, i, i2));
    } else {
        lemma_piece_split_inner(m, j, i, r, i2);
    }
}

/// A media whose label end comes before that of another lies before it or
/// inside its label text.
proof fn lemma_earlier_media(m: TokenizerModel, t: int, j: int)
    requires
        labels_placed(m),
        0 <= t < j < m.tokenize_state.media_list.len(),
    ensures
        ({
            let media = m.tokenize_state.media_list;
            ||| media[t].end.1 < media[j].start.0
            ||| (text_enter_index(m.events, media[j]) <= media[t].start.0 && media[t].end.1
                < media[j].end.0)
        }),
{
    let media = m.tokenize_state.media_list;
    assert(media_apart(m.events, media[t], media[j]));
    assert(media_nested(m.events, media[t]) && media_nested(m.events, media[j]));
    assert(media[t].end.0 < media[j].end.0);
}

/// The media list with one more media.
proof fn lemma_take_more(m: TokenizerModel, j: int)
    requires
        0 < j <= m.tokenize_state.media_list.len(),
    ensures
        m.tokenize_state.media_list.take(j).drop_last() == m.tokenize_state.media_list.take(j - 1),
        m.tokenize_state.media_list.take(j).last() == m.tokenize_state.media_list[j - 1],
{
    assert(m.tokenize_state.media_list.take(j).drop_last() =~= m.tokenize_state.media_list.take(j - 1));
}

/// Away from the positions of media `j - 1`, adding it changes nothing.
proof fn lemma_upto_same_at(m: TokenizerModel, j: int, k: usize)
    requires
        labels_placed(m),
        0 < j <= m.tokenize_state.media_list.len(),
    ensures
        ({
            let md = m.tokenize_state.media_list[j - 1];
            let a = m.tokenize_state.media_list.take(j);
            let b = m.tokenize_state.media_list.take(j - 1);
            let te = text_enter_index(m.events, md);
            &&& k != te ==> text_opened_at(m.events, a, k) == text_opened_at(m.events, b, k)
            &&& k != md.end.0 && k != md.end.0 + 4 && k != md.end.1 + 1 ==> closers_at(m.events, a, k)
                == closers_at(m.events, b, k)
            &&& k != md.start.0 ==> openers_at(m.events, a, k) == openers_at(m.events, b, k)
            &&& k != md.start.0 && k != te && k != md.end.0 && k != md.end.0 + 4 && k != md.end.1 + 1
                ==> adds_at(map_upto(m, j), k as nat) == adds_at(map_upto(m, j - 1), k as nat)
        }),
{
    let events = m.events;
    let media = m.tokenize_state.media_list;
    let md = media[j - 1];
    lemma_take_more(m, j);
    assert(media_in_bounds(events, md));
    assert(media_nested(events, md));
    lemma_media_parts_at(events, md, k);
    let a = media.take(j);
    let b = media.take(j - 1);
    let te = text_enter_index(events, md);
    if k != te {
        assert(text_opened_at(events, a, k) =~= text_opened_at(events, b, k));
    }
    if k != md.end.0 && k != md.end.0 + 4 && k != md.end.1 + 1 {
        assert(closers_at(events, a, k) =~= closers_at(events, b, k));
    }
    if k != md.start.0 {
        assert(openers_at(events, a, k) =~= openers_at(events, b, k));
    }
    lemma_upto(m, j);
    lemma_upto(m, j - 1);
}

/// Pieces that do not reach over media `j - 1` are those without it.
proof fn lemma_piece_same(m: TokenizerModel, j: int, i: nat, i2: nat)
    requires
        labels_placed(m),
        0 < j <= m.tokenize_state.media_list.len(),
        i <= i2 <= m.events.len() + 1,
        i2 <= m.tokenize_state.media_list[j - 1].start.0 || i >= m.tokenize_state.media_list[j
            - 1].end.1 + 1,
    ensures
        piece_upto(m, j, i, i2) == piece_upto(m, j - 1, i, i2),
{
    reveal(piece_upto);
    if i < i2 {
        let events = m.events;
        let md = m.tokenize_state.media_list[j - 1];
        assert(media_nested(events, md));
        assert(media_in_bounds(events, md));
        lemma_upto(m, j);
        lemma_upto(m, j - 1);
        let iu = i as usize;
        let i2u = i2 as usize;
        assert(iu as nat == i && i2u as nat == i2);
        lemma_take_more(m, j);
        lemma_media_parts_at(events, md, iu);
        assert(openers_at(events, m.tokenize_state.media_list.take(j), iu) =~= openers_at(
            events,
            m.tokenize_state.media_list.take(j - 1),
            iu,
        ));
        lemma_upto_same_at(m, j, i2u);
        lemma_kept_same(map_upto(m, j), map_upto(m, j - 1), i);
        assert(own_event(events, map_upto(m, j), i) == own_event(events, map_upto(m, j - 1), i));
        assert forall|k: nat| i + 1 <= k < i2 implies #[trigger] adds_at(map_upto(m, j), k) == adds_at(
            map_upto(m, j - 1),
            k,
        ) by {
            let ku = k as usize;
            assert(ku as nat == k);
            lemma_upto_same_at(m, j, ku);
        }
        assert forall|k: nat| #[trigger] removes_at(map_upto(m, j), k) == removes_at(
            map_upto(m, j - 1),
            k,
        ) by {}
        lemma_layout_between_same(events, map_upto(m, j), map_upto(m, j - 1), i + 1, i2);
    }
}

/// No unmatched label start begins at `k`, so no data is inserted there.
proof fn lemma_no_data_at(m: TokenizerModel, k: usize)
    requires
        labels_placed(m),
        forall|l: int| 0 <= l < left_starts(m).len() ==> (#[trigger] left_starts(m)[l]).start.0 != k,
    ensures
        inserted_at(loose_edits(m.events, left_starts(m)), k) == Seq::<Event>::empty(),
{
    let loose = loose_edits(m.events, left_starts(m));
    lemma_loose_map(m);
    lemma_distinct_keys(loose, k);
    assert forall|i: int| 0 <= i < loose.len() implies #[trigger] loose[i].0 != k by {
        assert(loose[i] == data_edit(m.events, left_starts(m)[i]));
    }
}

/// Positions inside the parts of media `j - 1`, away from where its edits
/// go, have nothing inserted.
#[verifier::spinoff_prover]
#[verifier::rlimit(60)]
proof fn lemma_media_clear(m: TokenizerModel, j: int, k: usize)
    requires
        labels_placed(m),
        0 < j <= m.tokenize_state.media_list.len(),
        ({
            let md = m.tokenize_state.media_list[j - 1];
            let te = text_enter_index(m.events, md);
            ||| md.start.0 < k < te
            ||| md.end.0 < k < md.end.0 + 4
            ||| md.end.0 + 4 < k < md.end.1 + 1
        }),
    ensures
        adds_at(map_upto(m, j), k as nat) == Seq::<Event>::empty(),
{
    let events = m.events;
    let media = m.tokenize_state.media_list;
    let md = media[j - 1];
    let a = media.take(j);
    assert(media_nested(events, md));
    assert forall|t: int| 0 <= t < a.len() implies #[trigger] media_in_bounds(events, a[t]) by {
        assert(a[t] == media[t]);
        assert(media_in_bounds(events, media[t]));
    }
    assert forall|t: int| 0 <= t < a.len() implies #[trigger] media_ordered(events, a[t]) by {
        assert(a[t] == media[t]);
        assert(media_nested(events, media[t]));
    }
    assert forall|t: int|
        0 <= t < a.len() implies text_enter_index(events, #[trigger] a[t]) == a[t].end.0
        || text_enter_index(events, a[t]) != k by {
        assert(a[t] == media[t]);
        assert(media_nested(events, media[t]));
        if t < j - 1 {
            lemma_earlier_media(m, t, j - 1);
        }
    }
    assert forall|t: int|
        0 <= t < a.len() implies k != (#[trigger] a[t]).end.0 + 4 && k != a[t].end.1 + 1 && (k
        != a[t].end.0 || text_enter_index(events, a[t]) == a[t].end.0) by {
        assert(a[t] == media[t]);
        assert(media_nested(events, media[t]));
        if t < j - 1 {
            lemma_earlier_media(m, t, j - 1);
        }
    }
    assert forall|t: int| 0 <= t < a.len() implies (#[trigger] a[t]).start.0 != k by {
        assert(a[t] == media[t]);
        assert(media_nested(events, media[t]));
        if t < j - 1 {
            lemma_earlier_media(m, t, j - 1);
        }
    }
    lemma_no_text_opened(events, a, k);
    lemma_no_closers(events, a, k);
    lemma_no_openers(events, a, k);
    let left = left_starts(m);
    assert forall|l: int| 0 <= l < left.len() implies (#[trigger] left[l]).start.0 != k by {
        assert(start_placed(events, left[l], media[j - 1]));
        assert(start_in_bounds(events, left[l]));
    }
    lemma_no_data_at(m, k);
    lemma_upto(m, j);
    assert(adds_at(map_upto(m, j), k as nat) =~= Seq::<Event>::empty());
}

/// The events of the label start, label end, and what follows the label end
/// of media `j - 1` are kept.
proof fn lemma_media_kept(m: TokenizerModel, j: int, k: nat)
    requires
        labels_placed(m),
        0 < j <= m.tokenize_state.media_list.len(),
        ({
            let md = m.tokenize_state.media_list[j - 1];
            ||| md.start.0 <= k < text_enter_index(m.events, md)
            ||| md.end.0 <= k < md.end.1 + 1
        }),
    ensures
        kept(map_upto(m, j), k),
{
    let events = m.events;
    let media = m.tokenize_state.media_list;
    let left = left_starts(m);
    let mm0 = map_upto(m, 0);
    lemma_loose_map(m);
    lemma_upto(m, j);
    assert(media.take(0) =~= Seq::<Media>::empty());
    assert(media_edits(events, media.take(0)) =~= Seq::<(usize, usize, Seq<Event>, bool)>::empty());
    assert(edits_upto(m, 0) =~= loose_edits(events, left));
    assert(mm0 == add_all(Map::<usize, (usize, Seq<Event>)>::empty(), loose_edits(events, left))) by {
        reveal(map_upto);
    }
    assert forall|a: nat|
        #![trigger removes_at(mm0, a)]
        removes_at(mm0, a) > 0 implies !(a <= k < a + removes_at(mm0, a)) by {
        let l = choose|l: int|
            0 <= l < left.len() && #[trigger] left[l].start.0 == a && removes_at(mm0, a)
                == left[l].start.1 - left[l].start.0 + 1;
        assert(start_placed(events, left[l], media[j - 1]));
        assert(start_in_bounds(events, left[l]));
        assert(media_nested(events, media[j - 1]));
    }
    lemma_kept_outside_runs(mm0, k);
    lemma_kept_same(map_upto(m, j), mm0, k);
}

/// Every media with an earlier label end lies before media `j - 1` or in
/// its label text, in the list without it.
proof fn lemma_earlier_all(m: TokenizerModel, j: int)
    requires
        labels_placed(m),
        0 < j <= m.tokenize_state.media_list.len(),
    ensures
        ({
            let media = m.tokenize_state.media_list;
            let b = media.take(j - 1);
            let md = media[j - 1];
            &&& forall|t: int|
                0 <= t < b.len() ==> (#[trigger] b[t]).end.1 < md.start.0 || (text_enter_index(
                    m.events,
                    md,
                ) <= b[t].start.0 && b[t].end.1 < md.end.0)
            &&& forall|t: int| 0 <= t < b.len() ==> #[trigger] media_nested(m.events, b[t])
            &&& forall|t: int| 0 <= t < b.len() ==> #[trigger] media_in_bounds(m.events, b[t])
            &&& forall|t: int| 0 <= t < b.len() ==> #[trigger] media_ordered(m.events, b[t])
        }),
{
    let media = m.tokenize_state.media_list;
    let b = media.take(j - 1);
    assert forall|t: int| 0 <= t < b.len() implies (#[trigger] b[t]).end.1 < media[j - 1].start.0 || (
    text_enter_index(m.events, media[j - 1]) <= b[t].start.0 && b[t].end.1 < media[j - 1].end.0) by {
        assert(b[t] == media[t]);
        lemma_earlier_media(m, t, j - 1);
    }
    assert forall|t: int| 0 <= t < b.len() implies #[trigger] media_nested(m.events, b[t]) by {
        assert(b[t] == media[t]);
        assert(media_nested(m.events, media[t]));
    }
    assert forall|t: int| 0 <= t < b.len() implies #[trigger] media_in_bounds(m.events, b[t]) by {
        assert(b[t] == media[t]);
        assert(media_in_bounds(m.events, media[t]));
    }
    assert forall|t: int| 0 <= t < b.len() implies #[trigger] media_ordered(m.events, b[t]) by {
        assert(b[t] == media[t]);
        assert(media_nested(m.events, media[t]));
    }
}

/// Where media `j - 1` opens: its group and label, and no data.
proof fn lemma_media_at_start(m: TokenizerModel, j: int)
    requires
        labels_placed(m),
        0 < j <= m.tokenize_state.media_list.len(),
    ensures
        ({
            let md = m.tokenize_state.media_list[j - 1];
            let k = md.start.0;
            &&& openers_at(m.events, m.tokenize_state.media_list.take(j), k) == media_edit_list(
                m.events,
                md,
            )[0].2
            &&& inserted_at(loose_edits(m.events, left_starts(m)), k) == Seq::<Event>::empty()
        }),
{
    let events = m.events;
    let media = m.tokenize_state.media_list;
    let md = media[j - 1];
    let k = md.start.0;
    let b = media.take(j - 1);
    lemma_earlier_all(m, j);
    lemma_take_more(m, j);
    assert(media_nested(events, md));
    assert(media_in_bounds(events, md));
    lemma_media_parts_at(events, md, k);
    assert forall|t: int| 0 <= t < b.len() implies (#[trigger] b[t]).start.0 != k by {
        assert(media_nested(events, b[t]));
    }
    lemma_no_openers(events, b, k);
    assert(openers_at(events, media.take(j), k) =~= openers_at(events, b, k) + media_edit_list(
        events,
        md,
    )[0].2);
    let left = left_starts(m);
    assert forall|l: int| 0 <= l < left.len() implies (#[trigger] left[l]).start.0 != k by {
        assert(start_placed(events, left[l], media[j - 1]));
        assert(start_in_bounds(events, left[l]));
    }
    lemma_no_data_at(m, k);
}

/// Where the label text of media `j - 1` opens.
#[verifier::spinoff_prover]
proof fn lemma_media_at_text(m: TokenizerModel, j: int)
    requires
        labels_placed(m),
        0 < j <= m.tokenize_state.media_list.len(),
        text_enter_index(m.events, m.tokenize_state.media_list[j - 1])
            != m.tokenize_state.media_list[j - 1].end.0,
    ensures
        ({
            let md = m.tokenize_state.media_list[j - 1];
            let k = text_enter_index(m.events, md) as usize;
            let b = m.tokenize_state.media_list.take(j - 1);
            let rest = openers_at(m.events, b, k) + inserted_at(
                loose_edits(m.events, left_starts(m)),
                k,
            );
            &&& adds_at(map_upto(m, j), k as nat) == media_edit_list(m.events, md)[1].2 + rest
            &&& adds_at(map_upto(m, j - 1), k as nat) == rest
        }),
{
    let events = m.events;
    let media = m.tokenize_state.media_list;
    let md = media[j - 1];
    let k = text_enter_index(events, md) as usize;
    let a = media.take(j);
    let b = media.take(j - 1);
    lemma_earlier_all(m, j);
    lemma_take_more(m, j);
    assert(media_nested(events, md));
    assert(media_in_bounds(events, md));
    lemma_media_parts_at(events, md, k);
    assert forall|t: int|
        0 <= t < b.len() implies text_enter_index(events, #[trigger] b[t]) == b[t].end.0
        || text_enter_index(events, b[t]) != k by {
        assert(media_nested(events, b[t]));
    }
    lemma_no_text_opened(events, b, k);
    assert forall|t: int|
        0 <= t < b.len() implies k != (#[trigger] b[t]).end.0 + 4 && k != b[t].end.1 + 1 && (k
        != b[t].end.0 || text_enter_index(events, b[t]) == b[t].end.0) by {
        assert(media_nested(events, b[t]));
    }
    lemma_no_closers(events, b, k);
    assert(text_opened_at(events, a, k) =~= media_edit_list(events, md)[1].2 + text_opened_at(events, b, k));
    assert(closers_at(events, a, k) =~= closers_at(events, b, k) + inserted_at(media_closes(events, md), k));
    assert(openers_at(events, a, k) =~= openers_at(events, b, k) + inserted_at(media_opens(events, md), k));
    lemma_upto(m, j);
    lemma_upto(m, j - 1);
    let loose = loose_edits(events, left_starts(m));
    assert(adds_at(map_upto(m, j), k as nat) =~= media_edit_list(events, md)[1].2 + (openers_at(
        events,
        b,
        k,
    ) + inserted_at(loose, k)));
    assert(adds_at(map_upto(m, j - 1), k as nat) =~= openers_at(events, b, k) + inserted_at(loose, k));
}

/// Where the label text of media `j - 1` closes, at its label end.
#[verifier::spinoff_prover]
proof fn lemma_media_at_end(m: TokenizerModel, j: int)
    requires
        labels_placed(m),
        0 < j <= m.tokenize_state.media_list.len(),
    ensures
        ({
            let md = m.tokenize_state.media_list[j - 1];
            let k = md.end.0;
            let b = m.tokenize_state.media_list.take(j - 1);
            let on = text_enter_index(m.events, md) != md.end.0;
            &&& adds_at(map_upto(m, j), k as nat) == closers_at(m.events, b, k) + (if on {
                media_edit_list(m.events, md)[2].2
            } else {
                Seq::<Event>::empty()
            })
            &&& text_opened_at(m.events, b, k) == Seq::<Event>::empty()
            &&& !on ==> closers_at(m.events, b, k) == Seq::<Event>::empty()
        }),
{
    let events = m.events;
    let media = m.tokenize_state.media_list;
    let md = media[j - 1];
    let k = md.end.0;
    let a = media.take(j);
    let b = media.take(j - 1);
    let on = text_enter_index(events, md) != md.end.0;
    lemma_earlier_all(m, j);
    lemma_take_more(m, j);
    assert(media_nested(events, md));
    assert(media_in_bounds(events, md));
    lemma_media_parts_at(events, md, k);
    assert forall|t: int|
        0 <= t < b.len() implies text_enter_index(events, #[trigger] b[t]) == b[t].end.0
        || text_enter_index(events, b[t]) != k by {
        assert(media_nested(events, b[t]));
    }
    lemma_no_text_opened(events, b, k);
    assert forall|t: int| 0 <= t < b.len() implies (#[trigger] b[t]).start.0 != k by {
        assert(media_nested(events, b[t]));
    }
    lemma_no_openers(events, b, k);
    if !on {
        assert forall|t: int|
            0 <= t < b.len() implies k != (#[trigger] b[t]).end.0 + 4 && k != b[t].end.1 + 1 && (k
            != b[t].end.0 || text_enter_index(events, b[t]) == b[t].end.0) by {
            assert(media_nested(events, b[t]));
        }
        lemma_no_closers(events, b, k);
    }
    assert(text_opened_at(events, a, k) =~= text_opened_at(events, b, k));
    assert(openers_at(events, a, k) =~= openers_at(events, b, k) + inserted_at(media_opens(events, md), k));
    assert(closers_at(events, a, k) =~= closers_at(events, b, k) + inserted_at(media_closes(events, md), k));
    let left = left_starts(m);
    assert forall|l: int| 0 <= l < left.len() implies (#[trigger] left[l]).start.0 != k by {
        assert(start_placed(events, left[l], media[j - 1]));
        assert(start_in_bounds(events, left[l]));
    }
    lemma_no_data_at(m, k);
    lemma_upto(m, j);
    let tx = if on {
        media_edit_list(events, md)[2].2
    } else {
        Seq::<Event>::empty()
    };
    assert(inserted_at(media_closes(events, md), k) == tx);
    assert(adds_at(map_upto(m, j), k as nat) =~= closers_at(events, b, k) + tx);
}

/// Where the label of media `j - 1` closes and where its group closes.
#[verifier::spinoff_prover]
proof fn lemma_media_at_exits(m: TokenizerModel, j: int)
    requires
        labels_placed(m),
        0 < j <= m.tokenize_state.media_list.len(),
    ensures
        ({
            let md = m.tokenize_state.media_list[j - 1];
            let list = media_edit_list(m.events, md);
            let on = text_enter_index(m.events, md) != md.end.0;
            let lx = list[if on {
                3int
            } else {
                1int
            }].2;
            let gx = list[if on {
                4int
            } else {
                2int
            }].2;
            let a = m.tokenize_state.media_list.take(j);
            &&& md.end.0 + 4 < md.end.1 + 1 ==> adds_at(map_upto(m, j), (md.end.0 + 4) as nat) == lx
            &&& text_opened_at(m.events, a, (md.end.1 + 1) as usize) == Seq::<Event>::empty()
            &&& closers_at(m.events, a, (md.end.1 + 1) as usize) == if md.end.0 + 4 < md.end.1 + 1 {
                gx
            } else {
                lx + gx
            }
        }),
{
    let events = m.events;
    let media = m.tokenize_state.media_list;
    let md = media[j - 1];
    let a = media.take(j);
    let b = media.take(j - 1);
    let on = text_enter_index(events, md) != md.end.0;
    lemma_earlier_all(m, j);
    lemma_take_more(m, j);
    assert(media_nested(events, md));
    assert(media_in_bounds(events, md));
    let left = left_starts(m);
    // The group exit.
    let kg = (md.end.1 + 1) as usize;
    lemma_media_parts_at(events, md, kg);
    assert forall|t: int|
        0 <= t < b.len() implies text_enter_index(events, #[trigger] b[t]) == b[t].end.0
        || text_enter_index(events, b[t]) != kg by {
        assert(media_nested(events, b[t]));
    }
    lemma_no_text_opened(events, b, kg);
    assert forall|t: int|
        0 <= t < b.len() implies kg != (#[trigger] b[t]).end.0 + 4 && kg != b[t].end.1 + 1 && (kg
        != b[t].end.0 || text_enter_index(events, b[t]) == b[t].end.0) by {
        assert(media_nested(events, b[t]));
    }
    lemma_no_closers(events, b, kg);
    assert(text_opened_at(events, a, kg) =~= text_opened_at(events, b, kg));
    assert(closers_at(events, a, kg) =~= closers_at(events, b, kg) + inserted_at(media_closes(events, md), kg));
    // The label exit.
    if md.end.0 + 4 < md.end.1 + 1 {
        let kl = (md.end.0 + 4) as usize;
        lemma_media_parts_at(events, md, kl);
        assert forall|t: int|
            0 <= t < b.len() implies text_enter_index(events, #[trigger] b[t]) == b[t].end.0
            || text_enter_index(events, b[t]) != kl by {
            assert(media_nested(events, b[t]));
        }
        lemma_no_text_opened(events, b, kl);
        assert forall|t: int|
            0 <= t < b.len() implies kl != (#[trigger] b[t]).end.0 + 4 && kl != b[t].end.1 + 1 && (kl
            != b[t].end.0 || text_enter_index(events, b[t]) == b[t].end.0) by {
            assert(media_nested(events, b[t]));
        }
        lemma_no_closers(events, b, kl);
        assert forall|t: int| 0 <= t < b.len() implies (#[trigger] b[t]).start.0 != kl by {
            assert(media_nested(events, b[t]));
        }
        lemma_no_openers(events, b, kl);
        assert(text_opened_at(events, a, kl) =~= text_opened_at(events, b, kl));
        assert(closers_at(events, a, kl) =~= closers_at(events, b, kl) + inserted_at(media_closes(events, md), kl));
        assert(openers_at(events, a, kl) =~= openers_at(events, b, kl) + inserted_at(media_opens(events, md), kl));
        assert forall|l: int| 0 <= l < left.len() implies (#[trigger] left[l]).start.0 != kl by {
            assert(start_placed(events, left[l], media[j - 1]));
            assert(start_in_bounds(events, left[l]));
        }
        lemma_no_data_at(m, kl);
        lemma_upto(m, j);
        assert(adds_at(map_upto(m, j), kl as nat) =~= inserted_at(media_closes(events, md), kl));
    }
}

/// Regrouping the parts of the piece of one media.
proof fn lemma_regroup_media(
    gl: Seq<Event>,
    own_s: Seq<Event>,
    lb1: Seq<Event>,
    lbt: Seq<Event>,
    clb: Seq<Event>,
    tx: Seq<Event>,
    ee: Seq<Event>,
    lbr: Seq<Event>,
    clend: Seq<Event>,
    es: Seq<Event>,
    tt: Seq<Event>,
    pb: Seq<Event>,
    lx: Seq<Event>,
    er: Seq<Event>,
    gx: Seq<Event>,
)
    requires
        own_s + lb1 == es,
        lbt + clb == tt + pb,
        lbr + clend == lx + er + gx,
    ensures
        gl + own_s + (lb1 + lbt + (clb + tx + ee) + lbr) + clend == gl + es + tt + pb + tx + ee + lx
            + er + gx,
{
    assert(gl + own_s + (lb1 + lbt + (clb + tx + ee) + lbr) + clend =~= gl + (own_s + lb1) + (lbt
        + clb) + tx + ee + (lbr + clend));
    assert(gl + es + (tt + pb) + tx + ee + (lx + er + gx) =~= gl + es + tt + pb + tx + ee + lx + er
        + gx);
}

/// What resolving lays out for media `j - 1`, from its start to just after
/// it: its group and label open, its label start, its label text around
/// what the earlier media lay out between its label start and label end,
/// its label end, its label closing, what follows its label end, and its
/// group closing.
#[verifier::spinoff_prover]
#[verifier::rlimit(80)]
proof fn lemma_media_piece(m: TokenizerModel, j: int)
    requires
        labels_placed(m),
        0 < j <= m.tokenize_state.media_list.len(),
    ensures
        ({
            let events = m.events;
            let md = m.tokenize_state.media_list[j - 1];
            let list = media_edit_list(events, md);
            let s = md.start.0 as nat;
            let te = text_enter_index(events, md) as nat;
            let e = md.end.0 as nat;
            let g = md.end.1 as nat;
            let on = te != e;
            let tt = if on {
                list[1].2
            } else {
                Seq::<Event>::empty()
            };
            let tx = if on {
                list[2].2
            } else {
                Seq::<Event>::empty()
            };
            let lx = list[if on {
                3int
            } else {
                1int
            }].2;
            let gx = list[if on {
                4int
            } else {
                2int
            }].2;
            piece_upto(m, j, s, g + 1) == list[0].2 + events.subrange(s as int, te as int) + tt
                + piece_upto(m, j - 1, te, e) + tx + events.subrange(e as int, (e + 4) as int) + lx
                + events.subrange((e + 4) as int, (g + 1) as int) + gx
        }),
{
    let events = m.events;
    let media = m.tokenize_state.media_list;
    let md = media[j - 1];
    let list = media_edit_list(events, md);
    let s = md.start.0 as nat;
    let te = text_enter_index(events, md) as nat;
    let e = md.end.0 as nat;
    let g = md.end.1 as nat;
    let on = te != e;
    let a = media.take(j);
    let b = media.take(j - 1);
    let loose = loose_edits(events, left_starts(m));
    let mj = map_upto(m, j);
    let mb = map_upto(m, j - 1);
    assert(media_nested(events, md));
    assert(media_in_bounds(events, md));
    let tt = if on {
        list[1].2
    } else {
        Seq::<Event>::empty()
    };
    let tx = if on {
        list[2].2
    } else {
        Seq::<Event>::empty()
    };
    let lx = list[if on {
        3int
    } else {
        1int
    }].2;
    let gx = list[if on {
        4int
    } else {
        2int
    }].2;
    lemma_upto(m, j);
    lemma_upto(m, j - 1);
    lemma_media_at_start(m, j);
    lemma_media_at_end(m, j);
    lemma_media_at_exits(m, j);
    let su = s as usize;
    let g1 = (g + 1) as usize;
    assert(su as nat == s && g1 as nat == g + 1);
    // The whole piece.
    let own_s = own_event(events, mj, s);
    lemma_media_kept(m, j, s);
    assert(own_s == seq![events[s as int]]);
    let lbj = layout_between(events, mj, s + 1, g + 1);
    let clend = closers_at(events, a, g1);
    assert(piece_upto(m, j, s, g + 1) == list[0].2 + Seq::<Event>::empty() + own_s + lbj
        + Seq::<Event>::empty() + clend) by {
        reveal(piece_upto);
    }
    assert(list[0].2 + Seq::<Event>::empty() + own_s + lbj + Seq::<Event>::empty() + clend
        =~= list[0].2 + own_s + lbj + clend);
    // Its label start.
    let lb1 = layout_between(events, mj, s + 1, te);
    assert forall|k: nat| s + 1 <= k < te implies #[trigger] adds_at(mj, k).len() == 0 && kept(mj, k) by {
        let ku = k as usize;
        assert(ku as nat == k);
        lemma_media_clear(m, j, ku);
        lemma_media_kept(m, j, k);
    }
    lemma_between_plain(events, mj, s + 1, te);
    assert(own_s + lb1 =~= events.subrange(s as int, te as int));
    // Its label text.
    let lbt = layout_between(events, mj, te, e);
    let clb = closers_at(events, b, e as usize);
    if on {
        let teu = te as usize;
        assert(teu as nat == te);
        lemma_media_at_text(m, j);
        let rest = openers_at(events, b, teu) + inserted_at(loose, teu);
        lemma_layout_between_join(events, mj, te, te + 1, e);
        lemma_layout_between_one(events, mj, te);
        assert forall|k: nat| te + 1 <= k < e implies #[trigger] adds_at(mj, k) == adds_at(mb, k) by {
            let ku = k as usize;
            assert(ku as nat == k);
            lemma_upto_same_at(m, j, ku);
        }
        assert forall|k: nat| #[trigger] removes_at(mj, k) == removes_at(mb, k) by {}
        lemma_layout_between_same(events, mj, mb, te + 1, e);
        lemma_kept_same(mj, mb, te);
        assert(own_event(events, mj, te) == own_event(events, mb, te));
        assert(piece_upto(m, j - 1, te, e) == rest + own_event(events, mb, te) + layout_between(
            events,
            mb,
            te + 1,
            e,
        ) + text_opened_at(events, b, e as usize) + clb) by {
            reveal(piece_upto);
        }
        assert(lbt + clb =~= tt + piece_upto(m, j - 1, te, e));
    } else {
        assert(lbt =~= Seq::<Event>::empty());
        assert(piece_upto(m, j - 1, te, e) =~= Seq::<Event>::empty()) by {
            reveal(piece_upto);
        }
        assert(lbt + clb =~= tt + piece_upto(m, j - 1, te, e));
    }
    // Its label end.
    let lbe = layout_between(events, mj, e, e + 4);
    lemma_layout_between_join(events, mj, e, e + 1, e + 4);
    lemma_layout_between_one(events, mj, e);
    lemma_media_kept(m, j, e);
    assert forall|k: nat| e + 1 <= k < e + 4 implies #[trigger] adds_at(mj, k).len() == 0 && kept(mj, k) by {
        let ku = k as usize;
        assert(ku as nat == k);
        lemma_media_clear(m, j, ku);
        lemma_media_kept(m, j, k);
    }
    lemma_between_plain(events, mj, e + 1, e + 4);
    let eu = e as usize;
    assert(eu as nat == e);
    assert(lbe =~= clb + tx + events.subrange(e as int, (e + 4) as int));
    // What follows its label end.
    let lbr = layout_between(events, mj, e + 4, g + 1);
    if e + 4 < g + 1 {
        lemma_layout_between_join(events, mj, e + 4, e + 5, g + 1);
        lemma_layout_between_one(events, mj, e + 4);
        lemma_media_kept(m, j, e + 4);
        assert forall|k: nat| e + 5 <= k < g + 1 implies #[trigger] adds_at(mj, k).len() == 0 && kept(mj, k) by {
            let ku = k as usize;
            assert(ku as nat == k);
            lemma_media_clear(m, j, ku);
            lemma_media_kept(m, j, k);
        }
        lemma_between_plain(events, mj, e + 5, g + 1);
        assert(lbr + clend =~= lx + events.subrange((e + 4) as int, (g + 1) as int) + gx);
    } else {
        assert(lbr =~= Seq::<Event>::empty());
        assert(lbr + clend =~= lx + events.subrange((e + 4) as int, (g + 1) as int) + gx);
    }
    lemma_layout_between_join(events, mj, s + 1, te, e);
    lemma_layout_between_join(events, mj, s + 1, e, e + 4);
    lemma_layout_between_join(events, mj, s + 1, e + 4, g + 1);
    assert(lbj == lb1 + lbt + lbe + lbr);
    lemma_regroup_media(
        list[0].2,
        own_s,
        lb1,
        lbt,
        clb,
        tx,
        events.subrange(e as int, (e + 4) as int),
        lbr,
        clend,
        events.subrange(s as int, te as int),
        tt,
        piece_upto(m, j - 1, te, e),
        lx,
        events.subrange((e + 4) as int, (g + 1) as int),
        gx,
    );
}

/// The start, label text start, label end, and end of media `j - 1` lie
/// outside the earlier media and outside every unmatched label start.
proof fn lemma_media_outside(m: TokenizerModel, j: int)
    requires
        labels_placed(m),
        0 < j <= m.tokenize_state.media_list.len(),
    ensures
        ({
            let md = m.tokenize_state.media_list[j - 1];
            &&& outside_upto(m, j - 1, md.start.0 as nat)
            &&& outside_upto(m, j - 1, text_enter_index(m.events, md) as nat)
            &&& outside_upto(m, j - 1, md.end.0 as nat)
            &&& outside_upto(m, j - 1, (md.end.1 + 1) as nat)
        }),
{
    let events = m.events;
    let media = m.tokenize_state.media_list;
    let md = media[j - 1];
    let b = media.take(j - 1);
    let left = left_starts(m);
    lemma_earlier_all(m, j);
    assert(media_nested(events, md));
    assert forall|t: int| 0 <= t < j - 1 implies #[trigger] media[t] == b[t] by {}
    assert forall|l: int| 0 <= l < left.len() implies #[trigger] start_placed(events, left[l], md) by {
        assert(start_placed(events, left[l], media[j - 1]));
    }
    assert forall|l: int| 0 <= l < left.len() implies #[trigger] start_in_bounds(events, left[l]) by {}
    let xs = seq![
        md.start.0 as nat,
        text_enter_index(events, md) as nat,
        md.end.0 as nat,
        (md.end.1 + 1) as nat,
    ];
    assert forall|q: int| 0 <= q < 4 implies outside_upto(m, j - 1, #[trigger] xs[q]) by {
        let x = xs[q];
        assert forall|t: int| 0 <= t < j - 1 implies !((#[trigger] media[t]).start.0 < x <= media[t].end.1) by {
            assert(media[t] == b[t]);
            assert(media_nested(events, b[t]));
        }
        assert forall|l: int| 0 <= l < left.len() implies !((#[trigger] left[l]).start.0 < x
            <= left[l].start.1) by {
            assert(start_placed(events, left[l], md));
        }
    }
    assert(xs[0] == md.start.0 as nat);
    assert(xs[1] == text_enter_index(events, md) as nat);
    assert(xs[2] == md.end.0 as nat);
    assert(xs[3] == (md.end.1 + 1) as nat);
}

/// The piece of a media is balanced when what it wraps of earlier media is.
proof fn lemma_media_piece_balanced(events: Seq<Event>, md: Media, pb: Seq<Event>, open: Seq<Name>)
    requires
        media_nested(events, md),
        events.len() + 8 <= usize::MAX,
        forall|st: Seq<Name>| #[trigger] open_spans(st, pb) == Some(st),
    ensures
        ({
            let list = media_edit_list(events, md);
            let s = md.start.0 as int;
            let te = text_enter_index(events, md);
            let e = md.end.0 as int;
            let g = md.end.1 as int;
            let on = te != e;
            let tt = if on {
                list[1].2
            } else {
                Seq::<Event>::empty()
            };
            let tx = if on {
                list[2].2
            } else {
                Seq::<Event>::empty()
            };
            let lx = list[if on {
                3int
            } else {
                1int
            }].2;
            let gx = list[if on {
                4int
            } else {
                2int
            }].2;
            open_spans(
                open,
                list[0].2 + events.subrange(s, te) + tt + pb + tx + events.subrange(e, e + 4) + lx
                    + events.subrange(e + 4, g + 1) + gx,
            ) == Some(open)
        }),
{
    let list = media_edit_list(events, md);
    let s = md.start.0 as int;
    let te = text_enter_index(events, md);
    let e = md.end.0 as int;
    let g = md.end.1 as int;
    let on = te != e;
    let gl = list[0].2;
    let tt = if on {
        list[1].2
    } else {
        Seq::<Event>::empty()
    };
    let tx = if on {
        list[2].2
    } else {
        Seq::<Event>::empty()
    };
    let lx = list[if on {
        3int
    } else {
        1int
    }].2;
    let gx = list[if on {
        4int
    } else {
        2int
    }].2;
    let b1 = events.subrange(s, te);
    let b3 = events.subrange(e, e + 4);
    let b4 = events.subrange(e + 4, g + 1);
    let group = group_name(events, md);
    let st0 = open;
    let st1 = st0.push(group).push(Name::Label);
    assert(gl =~= seq![gl[0]] + seq![gl[1]]);
    lemma_open_spans_enter(st0, gl[0]);
    lemma_open_spans_then(st0, seq![gl[0]], seq![gl[1]], st0.push(group));
    lemma_open_spans_enter(st0.push(group), gl[1]);
    assert(open_spans(st0, gl) == Some(st1));
    lemma_open_spans_then(st0, gl, b1, st1);
    lemma_well_nested_keeps(st1, b1);
    let o3 = gl + b1;
    let st2 = if on {
        st1.push(Name::LabelText)
    } else {
        st1
    };
    lemma_open_spans_then(st0, o3, tt, st1);
    if on {
        assert(tt =~= seq![tt[0]]);
        lemma_open_spans_enter(st1, tt[0]);
    }
    let o4 = o3 + tt;
    assert(open_spans(st0, o4) == Some(st2));
    lemma_open_spans_then(st0, o4, pb, st2);
    assert(open_spans(st2, pb) == Some(st2));
    let o5 = o4 + pb;
    lemma_open_spans_then(st0, o5, tx, st2);
    if on {
        assert(tx =~= seq![tx[0]]);
        lemma_open_spans_exit(st2, tx[0]);
        assert(st2.drop_last() =~= st1);
    }
    let o6 = o5 + tx;
    assert(open_spans(st0, o6) == Some(st1));
    lemma_open_spans_then(st0, o6, b3, st1);
    lemma_well_nested_keeps(st1, b3);
    let o7 = o6 + b3;
    lemma_open_spans_then(st0, o7, lx, st1);
    assert(lx =~= seq![lx[0]]);
    lemma_open_spans_exit(st1, lx[0]);
    assert(st1.drop_last() =~= st0.push(group));
    let o8 = o7 + lx;
    assert(open_spans(st0, o8) == Some(st0.push(group)));
    lemma_open_spans_then(st0, o8, b4, st0.push(group));
    lemma_well_nested_keeps(st0.push(group), b4);
    let o9 = o8 + b4;
    lemma_open_spans_then(st0, o9, gx, st0.push(group));
    assert(gx =~= seq![gx[0]]);
    lemma_open_spans_exit(st0.push(group), gx[0]);
    assert(st0.push(group).drop_last() =~= st0);
}

/// A position, capped at the number of events.
spec fn capped(n: nat, i: nat) -> int {
    if i <= n {
        i as int
    } else {
        n as int
    }
}

/// Between two positions outside the first `j` media and the unmatched
/// label starts, resolving with those media opens and closes spans as the
/// events between those positions do.
#[verifier::spinoff_prover]
#[verifier::rlimit(80)]
proof fn lemma_upto_nests(m: TokenizerModel, j: int, i: nat, i2: nat)
    requires
        labels_placed(m),
        0 <= j <= m.tokenize_state.media_list.len(),
        i <= i2 <= m.events.len() + 1,
        outside_upto(m, j, i),
        outside_upto(m, j, i2),
    ensures
        forall|st: Seq<Name>|
            #[trigger] open_spans(st, piece_upto(m, j, i, i2)) == open_spans(
                st,
                m.events.subrange(capped(m.events.len(), i), capped(m.events.len(), i2)),
            ),
    decreases j,
{
    let events = m.events;
    let n = events.len();
    let media = m.tokenize_state.media_list;
    let left = left_starts(m);
    let loose = loose_edits(events, left);
    if i == i2 {
        assert(piece_upto(m, j, i, i2) =~= Seq::<Event>::empty()) by {
            reveal(piece_upto);
        }
        assert(events.subrange(capped(n, i), capped(n, i2)) =~= Seq::<Event>::empty());
    } else if j == 0 {
        let mm = map_upto(m, 0);
        lemma_upto(m, 0);
        lemma_loose_map(m);
        assert(media.take(0) =~= Seq::<Media>::empty());
        assert(media_edits(events, media.take(0)) =~= Seq::<(usize, usize, Seq<Event>, bool)>::empty());
        assert(edits_upto(m, 0) =~= loose);
        assert(mm == add_all(Map::<usize, (usize, Seq<Event>)>::empty(), loose)) by {
            reveal(map_upto);
        }
        let iu = i as usize;
        assert(iu as nat == i);
        let ml = media.take(0);
        assert(openers_at(events, ml, iu) =~= Seq::<Event>::empty());
        assert(text_opened_at(events, ml, i2 as usize) =~= Seq::<Event>::empty());
        assert(closers_at(events, ml, i2 as usize) =~= Seq::<Event>::empty());
        assert(adds_at(mm, iu as nat) =~= inserted_at(loose, iu));
        lemma_layout_between_join(events, mm, i, i + 1, i2);
        lemma_layout_between_one(events, mm, i);
        assert(piece_upto(m, 0, i, i2) =~= layout_between(events, mm, i, i2)) by {
            reveal(piece_upto);
        }
        let j2 = capped(n, i2) as nat;
        if i2 == n + 1 {
            // Nothing is inserted at the end: no label start begins there.
            let nu = n as usize;
            assert(nu as nat == n);
            assert forall|l: int| 0 <= l < left.len() implies (#[trigger] left[l]).start.0 != nu by {
                assert(start_in_bounds(events, left[l]));
            }
            lemma_no_data_at(m, nu);
            lemma_layout_between_join(events, mm, i, n, n + 1);
            lemma_layout_between_one(events, mm, n);
            assert(layout_between(events, mm, i, i2) =~= layout_between(events, mm, i, n));
        }
        assert forall|a: nat|
            #![trigger removes_at(mm, a)]
            removes_at(mm, a) > 0 implies !(a < i < a + removes_at(mm, a)) && !(a < j2 < a
            + removes_at(mm, a)) by {
            let l = choose|l: int|
                0 <= l < left.len() && #[trigger] left[l].start.0 == a && removes_at(mm, a)
                    == left[l].start.1 - left[l].start.0 + 1;
            assert(start_in_bounds(events, left[l]));
        }
        assert forall|st: Seq<Name>|
            #[trigger] open_spans(st, piece_upto(m, j, i, i2)) == open_spans(
                st,
                events.subrange(capped(n, i), capped(n, i2)),
            ) by {
            lemma_runs_between(events, mm, i, j2, st);
        }
    } else {
        let md = media[j - 1];
        assert(media_nested(events, md));
        let s = md.start.0 as nat;
        let te = text_enter_index(events, md) as nat;
        let e = md.end.0 as nat;
        let g = md.end.1 as nat;
        assert(outside_upto(m, j - 1, i) && outside_upto(m, j - 1, i2));
        if i2 <= s || i >= g + 1 {
            lemma_piece_same(m, j, i, i2);
            lemma_upto_nests(m, j - 1, i, i2);
        } else {
            assert(!(md.start.0 < i <= md.end.1));
            assert(!(md.start.0 < i2 <= md.end.1));
            assert(i <= s && g + 1 <= i2);
            lemma_upto(m, j);
            assert(upto_adds(m, j));
            lemma_piece_split(m, j, i, s, i2);
            lemma_piece_split(m, j, s, g + 1, i2);
            lemma_piece_same(m, j, i, s);
            lemma_piece_same(m, j, g + 1, i2);
            lemma_media_outside(m, j);
            lemma_upto_nests(m, j - 1, i, s);
            lemma_upto_nests(m, j - 1, g + 1, i2);
            lemma_upto_nests(m, j - 1, te, e);
            lemma_media_piece(m, j);
            let p1 = piece_upto(m, j - 1, i, s);
            let pm = piece_upto(m, j, s, g + 1);
            let p3 = piece_upto(m, j - 1, g + 1, i2);
            let pb = piece_upto(m, j - 1, te, e);
            let e1 = events.subrange(i as int, s as int);
            let em = events.subrange(s as int, (g + 1) as int);
            let e3 = events.subrange((g + 1) as int, capped(n, i2));
            assert(events.subrange(capped(n, i), capped(n, i2)) =~= e1 + (em + e3));
            assert(piece_upto(m, j, i, i2) == p1 + (pm + p3));
            // What the earlier media lay out in the label text is balanced.
            let text = events.subrange(te as int, e as int);
            assert forall|st: Seq<Name>| #[trigger] open_spans(st, pb) == Some(st) by {
                assert(open_spans(st, pb) == open_spans(st, events.subrange(capped(n, te), capped(n, e))));
                lemma_well_nested_keeps(st, text);
            }
            assert(em =~= events.subrange(s as int, te as int) + text + events.subrange(
                e as int,
                (e + 4) as int,
            ) + events.subrange((e + 4) as int, (g + 1) as int));
            assert forall|st: Seq<Name>|
                #[trigger] open_spans(st, piece_upto(m, j, i, i2)) == open_spans(
                    st,
                    events.subrange(capped(n, i), capped(n, i2)),
                ) by {
                lemma_open_spans_concat(st, p1, pm + p3);
                lemma_open_spans_concat(st, e1, em + e3);
                assert(open_spans(st, p1) == open_spans(st, e1));
                if open_spans(st, e1) is Some {
                    let o = open_spans(st, e1)->0;
                    lemma_open_spans_concat(o, pm, p3);
                    lemma_open_spans_concat(o, em, e3);
                    lemma_media_piece_balanced(events, md, pb, o);
                    let b1 = events.subrange(s as int, te as int);
                    let b3 = events.subrange(e as int, (e + 4) as int);
                    let b4 = events.subrange((e + 4) as int, (g + 1) as int);
                    lemma_well_nested_keeps(o, b1);
                    lemma_open_spans_then(o, b1, text, o);
                    lemma_well_nested_keeps(o, text);
                    lemma_open_spans_then(o, b1 + text, b3, o);
                    lemma_well_nested_keeps(o, b3);
                    lemma_open_spans_then(o, b1 + text + b3, b4, o);
                    lemma_well_nested_keeps(o, b4);
                    assert(open_spans(o, em) == Some(o));
                    assert(open_spans(o, p3) == open_spans(o, e3));
                }
            }
        }
    }
}

/// Resolving keeps well nested events well nested: when the label starts
/// and ends lie as the label end construct records them, links, images, and
/// nested images included, every exit of the resolved events closes the
/// innermost open span.
pub proof fn lemma_resolve_keeps_nesting(m: TokenizerModel)
    requires
        labels_placed(m),
        m.map == Map::<usize, (usize, Seq<Event>)>::empty(),
        well_nested(m.events),
    ensures
        well_nested(labels_resolved(m).events),
{
    let events = m.events;
    let n = events.len();
    let media = m.tokenize_state.media_list;
    let jj = media.len() as int;
    let left = left_starts(m);
    assert(media.take(jj) =~= media);
    let mm = map_upto(m, jj);
    assert(edits_upto(m, jj) == label_edits(m));
    assert(mm == add_all(m.map, label_edits(m))) by {
        reveal(map_upto);
    }
    lemma_upto(m, jj);
    // Nothing closes or opens a label text at either end.
    assert forall|t: int| 0 <= t < media.len() implies #[trigger] media_in_bounds(events, media[t]) by {}
    assert forall|t: int| 0 <= t < media.len() implies #[trigger] media_ordered(events, media[t]) by {
        assert(media_nested(events, media[t]));
    }
    let nu = (n + 1) as usize;
    assert(nu as nat == n + 1);
    assert forall|t: int|
        0 <= t < media.len() implies text_enter_index(events, #[trigger] media[t]) == media[t].end.0
        || text_enter_index(events, media[t]) != 0usize by {
        assert(media_nested(events, media[t]));
    }
    assert forall|t: int|
        0 <= t < media.len() implies 0usize != (#[trigger] media[t]).end.0 + 4 && 0usize != media[t].end.1
        + 1 && (0usize != media[t].end.0 || text_enter_index(events, media[t]) == media[t].end.0) by {
        assert(media_nested(events, media[t]));
    }
    assert forall|t: int|
        0 <= t < media.len() implies text_enter_index(events, #[trigger] media[t]) == media[t].end.0
        || text_enter_index(events, media[t]) != nu by {
        assert(media_nested(events, media[t]));
    }
    assert forall|t: int|
        0 <= t < media.len() implies nu != (#[trigger] media[t]).end.0 + 4 && nu != media[t].end.1 + 1
        && (nu != media[t].end.0 || text_enter_index(events, media[t]) == media[t].end.0) by {
        assert(media_nested(events, media[t]));
    }
    lemma_no_text_opened(events, media, 0usize);
    lemma_no_closers(events, media, 0usize);
    lemma_no_text_opened(events, media, nu);
    lemma_no_closers(events, media, nu);
    // The whole layout is the piece from the first position to past the last.
    lemma_layout_between(events, mm, 0, n + 1);
    assert(layout_events(events, mm, 0) =~= Seq::<Event>::empty());
    lemma_layout_between_join(events, mm, 0, 1, n + 1);
    lemma_layout_between_one(events, mm, 0);
    assert((0usize) as nat == 0nat);
    assert(piece_upto(m, jj, 0, n + 1) =~= layout_events(events, mm, n + 1)) by {
        reveal(piece_upto);
    }
    assert(outside_upto(m, jj, 0)) by {
        assert forall|l: int| 0 <= l < left.len() implies !((#[trigger] left[l]).start.0 < 0nat
            <= left[l].start.1) by {}
    }
    assert(outside_upto(m, jj, n + 1)) by {
        assert forall|t: int| 0 <= t < jj implies !((#[trigger] media[t]).start.0 < n + 1
            <= media[t].end.1) by {
            assert(media_nested(events, media[t]));
        }
        assert forall|l: int| 0 <= l < left.len() implies !((#[trigger] left[l]).start.0 < n + 1
            <= left[l].start.1) by {
            assert(start_in_bounds(events, left[l]));
        }
    }
    lemma_upto_nests(m, jj, 0, n + 1);
    assert(open_spans(Seq::empty(), piece_upto(m, jj, 0, n + 1)) == open_spans(
        Seq::empty(),
        events.subrange(capped(n, 0), capped(n, n + 1)),
    ));
    assert(events.subrange(capped(n, 0), capped(n, n + 1)) =~= events);
    lemma_applied_shape(events, mm);
    lemma_open_spans_shape(Seq::empty(), applied(events, mm), layout_events(events, mm, n + 1));
}

/// How many events links and images add: six each, or four when the label
/// text is empty.
pub open spec fn media_added(events: Seq<Event>, media: Seq<Media>) -> int
    decreases media.len(),
{
    if media.len() == 0 {
        0
    } else {
        media_added(events, media.drop_last()) + if text_enter_index(events, media.last())
            != media.last().end.0 {
            6int
        } else {
            4int
        }
    }
}

/// How many events turning unmatched label starts into data takes away:
/// the events of each start, less the two events of its data.
pub open spec fn starts_removed(left: Seq<LabelStart>) -> int
    decreases left.len(),
{
    if left.len() == 0 {
        0
    } else {
        starts_removed(left.drop_last()) + (left.last().start.1 - left.last().start.0 + 1 - 2)
    }
}

/// Edits of two lists, counted together.
proof fn lemma_edits_before_concat(
    a: Seq<(usize, usize, Seq<Event>, bool)>,
    b: Seq<(usize, usize, Seq<Event>, bool)>,
    n: nat,
)
    ensures
        edits_adds_before(a + b, n) == edits_adds_before(a, n) + edits_adds_before(b, n),
        edits_removes_before(a + b, n) == edits_removes_before(a, n) + edits_removes_before(b, n),
    decreases b.len(),
{
    if b.len() == 0 {
        assert(a + b =~= a);
    } else {
        assert((a + b).drop_last() =~= a + b.drop_last());
        assert((a + b).last() == b.last());
        lemma_edits_before_concat(a, b.drop_last(), n);
    }
}

/// What the edits of links and images add and remove.
#[verifier::spinoff_prover]
#[verifier::rlimit(60)]
proof fn lemma_media_edits_count(events: Seq<Event>, media: Seq<Media>)
    requires
        events.len() + 8 <= usize::MAX,
        forall|t: int| 0 <= t < media.len() ==> #[trigger] media_in_bounds(events, media[t]),
    ensures
        edits_adds_before(media_edits(events, media), events.len() + 1) == media_added(events, media),
        edits_removes_before(media_edits(events, media), events.len() + 1) == 0,
    decreases media.len(),
{
    if media.len() > 0 {
        let rest = media.drop_last();
        let n1 = events.len() + 1;
        assert forall|t: int| 0 <= t < rest.len() implies #[trigger] media_in_bounds(events, rest[t]) by {
            assert(rest[t] == media[t]);
        }
        lemma_media_edits_count(events, rest);
        let md = media.last();
        assert(media_in_bounds(events, media[media.len() - 1]));
        let list = media_edit_list(events, md);
        lemma_edits_before_concat(media_edits(events, rest), list, n1);
        let q0 = Seq::<(usize, usize, Seq<Event>, bool)>::empty();
        if text_enter_index(events, md) != md.end.0 {
            let q1 = q0.push(list[0]);
            let q2 = q1.push(list[1]);
            let q3 = q2.push(list[2]);
            let q4 = q3.push(list[3]);
            let q5 = q4.push(list[4]);
            assert(list =~= q5);
            assert(q5.drop_last() =~= q4);
            assert(q4.drop_last() =~= q3);
            assert(q3.drop_last() =~= q2);
            assert(q2.drop_last() =~= q1);
            assert(q1.drop_last() =~= q0);
            assert(edits_adds_before(q0, n1) == 0 && edits_removes_before(q0, n1) == 0);
            assert(edits_adds_before(q1, n1) == 2 && edits_removes_before(q1, n1) == 0);
            assert(edits_adds_before(q2, n1) == 3 && edits_removes_before(q2, n1) == 0);
            assert(edits_adds_before(q3, n1) == 4 && edits_removes_before(q3, n1) == 0);
            assert(edits_adds_before(q4, n1) == 5 && edits_removes_before(q4, n1) == 0);
            assert(edits_adds_before(q5, n1) == 6 && edits_removes_before(q5, n1) == 0);
        } else {
            let q1 = q0.push(list[0]);
            let q2 = q1.push(list[1]);
            let q3 = q2.push(list[2]);
            assert(list =~= q3);
            assert(q3.drop_last() =~= q2);
            assert(q2.drop_last() =~= q1);
            assert(q1.drop_last() =~= q0);
            assert(edits_adds_before(q0, n1) == 0 && edits_removes_before(q0, n1) == 0);
            assert(edits_adds_before(q1, n1) == 2 && edits_removes_before(q1, n1) == 0);
            assert(edits_adds_before(q2, n1) == 3 && edits_removes_before(q2, n1) == 0);
            assert(edits_adds_before(q3, n1) == 4 && edits_removes_before(q3, n1) == 0);
        }
    }
}

/// What the edits of unmatched label starts add less what they remove.
proof fn lemma_loose_edits_count(events: Seq<Event>, left: Seq<LabelStart>)
    requires
        events.len() + 8 <= usize::MAX,
        forall|l: int| 0 <= l < left.len() ==> #[trigger] start_in_bounds(events, left[l]),
    ensures
        edits_adds_before(loose_edits(events, left), events.len() + 1) - edits_removes_before(
            loose_edits(events, left),
            events.len() + 1,
        ) == -starts_removed(left),
    decreases left.len(),
{
    if left.len() > 0 {
        let rest = left.drop_last();
        assert forall|l: int| 0 <= l < rest.len() implies #[trigger] start_in_bounds(events, rest[l]) by {
            assert(rest[l] == left[l]);
        }
        lemma_loose_edits_count(events, rest);
        assert(loose_edits(events, left).drop_last() =~= loose_edits(events, rest));
        assert(start_in_bounds(events, left[left.len() - 1]));
        let l = left.len() - 1;
        assert(left[l] == left.last());
        let d = data_edit(events, left[l]);
        assert(loose_edits(events, left).last() == d);
        assert(d.2.len() == 2);
        assert(d.1 as int == left[l].start.1 - left[l].start.0 + 1);
        assert((d.0 as nat) < events.len() + 1);
    }
}

/// Resolving adds six events for each link or image (four when its label
/// text is empty) and replaces the events of each unmatched label start by
/// the two events of its data.
pub proof fn lemma_resolve_length(m: TokenizerModel)
    requires
        can_resolve(m),
        m.map == Map::<usize, (usize, Seq<Event>)>::empty(),
        starts_apart(m),
    ensures
        labels_resolved(m).events.len() == m.events.len() + media_added(
            m.events,
            m.tokenize_state.media_list,
        ) - starts_removed(left_starts(m)),
{
    let events = m.events;
    let n = events.len();
    let media = m.tokenize_state.media_list;
    let left = left_starts(m);
    let loose = loose_edits(events, left);
    let medits = media_edits(events, media);
    let empty_map = Map::<usize, (usize, Seq<Event>)>::empty();
    let mm = add_all(empty_map, label_edits(m));
    let mm0 = add_all(empty_map, loose);
    assert(add_all(m.map, label_edits(m)) == mm);
    // The length of the layout.
    lemma_applied_shape(events, mm);
    lemma_layout_between(events, mm, 0, n + 1);
    assert(layout_events(events, mm, 0) =~= Seq::<Event>::empty());
    lemma_layout_len(events, mm, n + 1);
    // What is inserted.
    lemma_adds_sum(empty_map, label_edits(m), n + 1);
    assert forall|k: nat| k < n + 1 implies #[trigger] adds_count(empty_map)(k) == (|k: nat| 0int)(k) by {}
    lemma_sum_same(|k: nat| 0int, adds_count(empty_map), n + 1);
    lemma_sum_zero(n + 1);
    lemma_edits_before_concat(medits, loose, n + 1);
    assert forall|t: int| 0 <= t < media.len() implies #[trigger] media_in_bounds(events, media[t]) by {}
    lemma_media_edits_count(events, media);
    assert forall|l: int| 0 <= l < left.len() implies #[trigger] start_in_bounds(events, left[l]) by {}
    lemma_loose_edits_count(events, left);
    // What is kept.
    lemma_media_keys(events, media);
    lemma_loose_map(m);
    assert forall|k: nat| #[trigger] removes_at(mm, k) == removes_at(mm0, k) by {
        if k <= usize::MAX {
            let ku = k as usize;
            assert(ku as nat == k);
            lemma_removes_in_concat(medits, loose, ku);
            assert(removes_at(mm0, ku as nat) == removes_in(loose, ku));
            lemma_add_all(empty_map, label_edits(m), ku);
        }
    }
    assert forall|k: nat| k < n implies #[trigger] kept_count(events, mm)(k) == kept_count(events, mm0)(k) by {
        lemma_kept_same(mm, mm0, k);
    }
    lemma_sum_same(kept_count(events, mm0), kept_count(events, mm), n);
    assert(sum_before(kept_count(events, mm), n + 1) == sum_before(kept_count(events, mm), n));
    assert forall|a: nat|
        #![trigger removes_at(mm0, a)]
        removes_at(mm0, a) > 0 implies !(a < n < a + removes_at(mm0, a)) by {
        let l = choose|l: int|
            0 <= l < left.len() && #[trigger] left[l].start.0 == a && removes_at(mm0, a)
                == left[l].start.1 - left[l].start.0 + 1;
        assert(start_in_bounds(events, left[l]));
    }
    lemma_kept_removed(events, mm0, n);
    // What is removed.
    assert forall|k: usize| #[trigger] removes_in(loose, k) <= usize::MAX by {
        assert(removes_at(mm0, k as nat) == removes_in(loose, k));
    }
    lemma_removes_sum(loose, n);
    assert(edits_removes_before(loose, n) == edits_removes_before(loose, n + 1)) by {
        lemma_removes_before_all(events, left, n);
    }
}

/// Unmatched label starts lie before the last position, so their edits are
/// all counted there.
proof fn lemma_removes_before_all(events: Seq<Event>, left: Seq<LabelStart>, n: nat)
    requires
        n == events.len(),
        forall|l: int| 0 <= l < left.len() ==> #[trigger] start_in_bounds(events, left[l]),
    ensures
        edits_removes_before(loose_edits(events, left), n) == edits_removes_before(
            loose_edits(events, left),
            n + 1,
        ),
    decreases left.len(),
{
    if left.len() > 0 {
        let rest = left.drop_last();
        assert forall|l: int| 0 <= l < rest.len() implies #[trigger] start_in_bounds(events, rest[l]) by {
            assert(rest[l] == left[l]);
        }
        lemma_removes_before_all(events, rest, n);
        assert(loose_edits(events, left).drop_last() =~= loose_edits(events, rest));
        assert(start_in_bounds(events, left[left.len() - 1]));
    }
}

} // verus!
