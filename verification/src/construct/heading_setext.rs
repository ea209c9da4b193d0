//! Heading (setext) is a construct that occurs in the flow content type.
//!
//! They’re formed with the following BNF:
//!
//! ```bnf
//! heading_setext ::= line *(eol line) eol whitespace_optional (1*'-' | 1*'=') whitespace_optional
//!
//! whitespace ::= 1*space_or_tab
//! whitespace_optional ::= [ whitespace ]
//! line ::= code - eol
//! eol ::= '\r' | '\r\n' | '\n'
//! ```
//!
//! Heading (setext) in markdown relates to the `<h1>` and `<h2>` elements in
//! HTML.
//!
//! Thematic breaks formed with dashes and without whitespace could be
//! interpreted as a heading (setext).
//! Which one forms depends on whether there is text directly in front of the
//! sequence: an underline is only a heading (setext) underline when a
//! paragraph comes before it.
//!
//! ## Tokens
//!
//! *   `HeadingSetext`
//! *   `HeadingSetextText`
//! *   `HeadingSetextUnderline`
//!
//! ## References
//!
//! *   [`setext-underline.js` in `micromark`](https://github.com/micromark/micromark/blob/main/packages/micromark-core-commonmark/dev/lib/setext-underline.js)
//! *   [*§ 4.3 Setext headings* in `CommonMark`](https://spec.commonmark.org/0.30/#setext-headings)

use vstd::prelude::*;
use crate::constant::TAB_SIZE;
use crate::construct::partial_space_or_tab::{
    space_or_tab, space_or_tab_min_max, space_or_tab_set, Options as SpaceOrTabOptions,
};
use crate::event::{Event, Kind, Name};
use crate::resolve::Name as ResolveName;
use crate::state::{Name as StateName, State};
use crate::tokenizer::{Tokenizer, TokenizerModel, TokenizeStateModel};
use crate::util::edit_map::add_all;
use crate::util::skip::{opt_back, opt_back_spec};

verus! {

/// Byte `-`.
pub const DASH: u8 = 0x2D;

/// Byte `=`.
pub const EQUALS: u8 = 0x3D;

/// Byte line feed.
pub const LINE_FEED: u8 = 0x0A;

/// Names of the spans skipped when looking for the paragraph before an
/// underline.
pub open spec fn whitespace_names() -> Seq<Name> {
    seq![Name::LineEnding, Name::SpaceOrTab]
}

/// Whether skipping trailing line endings and whitespace lands on an event.
pub open spec fn skips_to_event(events: Seq<Event>) -> bool {
    &&& opt_back_spec(events, events.len() - 1, whitespace_names()) matches Some(i)
    &&& 0 <= i < events.len()
}

/// Whether the events end in a paragraph, past trailing line endings and
/// whitespace.
pub open spec fn ends_in_paragraph(events: Seq<Event>) -> bool {
    &&& events.len() > 0
    &&& opt_back_spec(events, events.len() - 1, whitespace_names()) matches Some(i)
    &&& 0 <= i < events.len()
    &&& events[i].name == Name::Paragraph
}

/// Whether a heading (setext) underline can start here.
pub open spec fn can_start(m: TokenizerModel) -> bool {
    &&& m.parse_state.constructs.heading_setext
    &&& !m.lazy
    &&& ends_in_paragraph(m.events)
}

/// Most whitespace allowed before an underline.
pub open spec fn underline_indent_max(m: TokenizerModel) -> usize {
    if m.parse_state.constructs.code_indented {
        (TAB_SIZE - 1) as usize
    } else {
        usize::MAX
    }
}

/// At a line ending, presumably an underline.
///
/// ```markdown
///   | aa
/// > | ==
///     ^
/// ```
pub fn start(tokenizer: &mut Tokenizer) -> (r: State)
    requires
        old(tokenizer)@.events.len() < usize::MAX,
        old(tokenizer)@.parse_state.constructs.heading_setext && !old(tokenizer)@.lazy
            && old(tokenizer)@.events.len() > 0 ==> skips_to_event(old(tokenizer)@.events),
    ensures
        can_start(old(tokenizer)@) ==> {
            &&& r == State::Retry(StateName::SpaceOrTabStart)
            &&& final(tokenizer)@ == space_or_tab_set(
                old(tokenizer)@.attempted(State::Next(StateName::HeadingSetextBefore), State::Nok),
                SpaceOrTabOptions {
                    kind: Name::SpaceOrTab,
                    min: 0,
                    max: underline_indent_max(old(tokenizer)@),
                    content_type: None,
                    connect: false,
                },
            )
        },
        !can_start(old(tokenizer)@) ==> r == State::Nok && final(tokenizer)@ == old(tokenizer)@,
{
    let names = [Name::LineEnding, Name::SpaceOrTab];
    assert(names@ =~= whitespace_names());
    if tokenizer.parse_state.constructs.heading_setext && !tokenizer.lazy
        // Require a paragraph before.
        && (!tokenizer.events.is_empty() && tokenizer.events[opt_back(
        tokenizer.events.as_slice(),
        tokenizer.events.len() - 1,
        &names,
    )].name == Name::Paragraph) {
        tokenizer.attempt(State::Next(StateName::HeadingSetextBefore), State::Nok);
        let max: usize = if tokenizer.parse_state.constructs.code_indented {
            TAB_SIZE - 1
        } else {
            usize::MAX
        };
        State::Retry(space_or_tab_min_max(tokenizer, 0, max))
    } else {
        State::Nok
    }
}

/// Whether the current byte is `-` or `=`.
pub open spec fn at_marker(m: TokenizerModel) -> bool {
    m.current == Some(DASH) || m.current == Some(EQUALS)
}

/// After optional whitespace, presumably an underline.
///
/// ```markdown
///   | aa
/// > | ==
///     ^
/// ```
pub fn before(tokenizer: &mut Tokenizer) -> (r: State)
    ensures
        at_marker(old(tokenizer)@) ==> {
            &&& r == State::Retry(StateName::HeadingSetextInside)
            &&& final(tokenizer)@ == old(tokenizer)@.with_state(
                TokenizeStateModel {
                    marker: old(tokenizer)@.current.unwrap(),
                    ..old(tokenizer)@.tokenize_state
                },
            ).entered(Name::HeadingSetextUnderline)
        },
        !at_marker(old(tokenizer)@) ==> {
            &&& r == State::Nok
            &&& final(tokenizer)@ == old(tokenizer)@
        },
{
    match tokenizer.current {
        Some(0x2D | 0x3D) => {
            tokenizer.tokenize_state.marker = tokenizer.current.unwrap();
            tokenizer.enter(Name::HeadingSetextUnderline);
            State::Retry(StateName::HeadingSetextInside)
        },
        _ => State::Nok,
    }
}

/// Whether the current byte continues the underline.
pub open spec fn in_sequence(m: TokenizerModel) -> bool {
    at_marker(m) && m.current == Some(m.tokenize_state.marker)
}

/// In an underline sequence.
///
/// ```markdown
///   | aa
/// > | ==
///     ^
/// ```
pub fn inside(tokenizer: &mut Tokenizer) -> (r: State)
    requires
        in_sequence(old(tokenizer)@) ==> old(tokenizer)@.can_consume(),
        !in_sequence(old(tokenizer)@) ==> old(tokenizer)@.can_exit(Name::HeadingSetextUnderline),
    ensures
        in_sequence(old(tokenizer)@) ==> {
            &&& r == State::Next(StateName::HeadingSetextInside)
            &&& final(tokenizer)@ == old(tokenizer)@.consumed()
        },
        !in_sequence(old(tokenizer)@) ==> {
            &&& r == State::Retry(StateName::SpaceOrTabStart)
            &&& final(tokenizer)@ == space_or_tab_set(
                old(tokenizer)@.with_state(
                    TokenizeStateModel { marker: 0, ..old(tokenizer)@.tokenize_state },
                ).exited(Name::HeadingSetextUnderline).attempted(
                    State::Next(StateName::HeadingSetextAfter),
                    State::Next(StateName::HeadingSetextAfter),
                ),
                SpaceOrTabOptions {
                    kind: Name::SpaceOrTab,
                    min: 1,
                    max: usize::MAX,
                    content_type: None,
                    connect: false,
                },
            )
        },
{
    let marker: u8 = tokenizer.tokenize_state.marker;
    match tokenizer.current {
        Some(byte) if (byte == DASH || byte == EQUALS) && byte == marker => {
            tokenizer.consume();
            State::Next(StateName::HeadingSetextInside)
        },
        _ => {
            tokenizer.tokenize_state.marker = 0;
            tokenizer.exit(Name::HeadingSetextUnderline);
            tokenizer.attempt(
                State::Next(StateName::HeadingSetextAfter),
                State::Next(StateName::HeadingSetextAfter),
            );
            State::Retry(space_or_tab(tokenizer))
        },
    }
}

/// After an underline sequence, after optional whitespace.
///
/// ```markdown
///   | aa
/// > | ==
///       ^
/// ```
pub fn after(tokenizer: &mut Tokenizer) -> (r: State)
    ensures
        old(tokenizer)@.current is None || old(tokenizer)@.current == Some(LINE_FEED) ==> {
            &&& r == State::Okay
            &&& final(tokenizer)@ == TokenizerModel {
                interrupt: false,
                ..old(tokenizer)@
            }.with_resolver(ResolveName::HeadingSetext)
        },
        !(old(tokenizer)@.current is None || old(tokenizer)@.current == Some(LINE_FEED)) ==> {
            &&& r == State::Nok
            &&& final(tokenizer)@ == old(tokenizer)@
        },
{
    match tokenizer.current {
        None | Some(0x0A) => {
            // Feel free to interrupt.
            tokenizer.interrupt = false;
            tokenizer.register_resolver(ResolveName::HeadingSetext);
            State::Okay
        },
        _ => State::Nok,
    }
}

/// Whether `e` is the exit of an underline.
pub open spec fn is_underline_exit(e: Event) -> bool {
    e.kind == Kind::Exit && e.name == Name::HeadingSetextUnderline
}

/// After walking over `events[0..n]`: the index of the last paragraph enter
/// and of the last paragraph exit since the last underline.
pub open spec fn paragraph_scan(events: Seq<Event>, n: nat) -> (Option<nat>, Option<nat>)
    decreases n,
{
    if n == 0 {
        (None, None)
    } else {
        let i = (n - 1) as nat;
        let (enter, exit) = paragraph_scan(events, i);
        let e = events[i as int];
        if e.kind == Kind::Enter {
            if e.name == Name::Paragraph {
                (Some(i), exit)
            } else {
                (enter, exit)
            }
        } else if e.name == Name::Paragraph {
            (enter, Some(i))
        } else if e.name == Name::HeadingSetextUnderline {
            (None, None)
        } else {
            (enter, exit)
        }
    }
}

/// Each underline comes after a paragraph.
pub open spec fn underlines_follow_paragraphs(events: Seq<Event>) -> bool {
    forall|n: int|
        0 <= n < events.len() && #[trigger] is_underline_exit(events[n]) ==> paragraph_scan(
            events,
            n as nat,
        ).0 is Some && paragraph_scan(events, n as nat).1 is Some
}

/// Whether the event at `k` is the paragraph enter or exit that the
/// underline at `n` turns into heading text.
pub open spec fn text_of(events: Seq<Event>, n: int, k: int) -> bool {
    &&& 0 <= n < events.len()
    &&& is_underline_exit(events[n])
    &&& (paragraph_scan(events, n as nat).0 == Some(k as nat) || paragraph_scan(
        events,
        n as nat,
    ).1 == Some(k as nat))
}

/// Whether the event at `k` becomes heading text because of an underline
/// before index `i`.
pub open spec fn text_before(events: Seq<Event>, i: int, k: int) -> bool {
    exists|n: int| n < i && #[trigger] text_of(events, n, k)
}

/// The event at `k` once resolved with the underlines before `i`.
pub open spec fn renamed_before(events: Seq<Event>, i: int, k: int) -> Event {
    if text_before(events, i, k) {
        Event { name: Name::HeadingSetextText, ..events[k] }
    } else {
        events[k]
    }
}

/// The edits made for the underlines in `events[0..n]`: a heading enter
/// before each paragraph enter, and a heading exit after each underline.
pub open spec fn setext_edits(events: Seq<Event>, n: nat) -> Seq<(usize, usize, Seq<Event>, bool)>
    decreases n,
{
    if n == 0 {
        Seq::empty()
    } else {
        let i = (n - 1) as nat;
        let before = setext_edits(events, i);
        if is_underline_exit(events[i as int]) {
            let enter = paragraph_scan(events, i).0.unwrap();
            before + seq![
                (enter as usize, 0usize, seq![Event { name: Name::HeadingSetext, ..events[enter as int] }], false),
                ((i + 1) as usize, 0usize, seq![Event { name: Name::HeadingSetext, ..events[i as int] }], false),
            ]
        } else {
            before
        }
    }
}

proof fn lemma_scan_bounds(events: Seq<Event>, n: nat)
    ensures
        paragraph_scan(events, n).0 matches Some(k) ==> k < n,
        paragraph_scan(events, n).1 matches Some(k) ==> k < n,
        paragraph_scan(events, n).0 matches Some(k) ==> events[k as int].kind == Kind::Enter
            && events[k as int].name == Name::Paragraph,
        paragraph_scan(events, n).1 matches Some(k) ==> events[k as int].kind == Kind::Exit
            && events[k as int].name == Name::Paragraph,
    decreases n,
{
    if n > 0 {
        lemma_scan_bounds(events, (n - 1) as nat);
    }
}

/// Resolve heading (setext): each underline turns the paragraph before it
/// into the text of a heading, and a heading span is added around both.
pub fn resolve(tokenizer: &mut Tokenizer)
    requires
        underlines_follow_paragraphs(old(tokenizer)@.events),
    ensures
        final(tokenizer)@.events.len() == old(tokenizer)@.events.len(),
        forall|k: int|
            0 <= k < old(tokenizer)@.events.len() ==> #[trigger] final(tokenizer)@.events[k]
                == renamed_before(old(tokenizer)@.events, old(tokenizer)@.events.len() as int, k),
        final(tokenizer)@.map == add_all(
            old(tokenizer)@.map,
            setext_edits(old(tokenizer)@.events, old(tokenizer)@.events.len()),
        ),
        final(tokenizer)@ == (TokenizerModel {
            events: final(tokenizer)@.events,
            map: final(tokenizer)@.map,
            ..old(tokenizer)@
        }),
{
    let ghost ev = tokenizer.events@;
    let ghost m0 = tokenizer@;
    let mut index: usize = 0;
    let mut paragraph_enter: Option<usize> = None;
    let mut paragraph_exit: Option<usize> = None;

    while index < tokenizer.events.len()
        invariant
            underlines_follow_paragraphs(ev),
            index <= ev.len(),
            tokenizer.events@.len() == ev.len(),
            forall|k: int|
                0 <= k < ev.len() ==> #[trigger] tokenizer.events@[k] == renamed_before(
                    ev,
                    index as int,
                    k,
                ),
            paragraph_scan(ev, index as nat).0 == (match paragraph_enter {
                Some(e) => Some(e as nat),
                None => None,
            }),
            paragraph_scan(ev, index as nat).1 == (match paragraph_exit {
                Some(e) => Some(e as nat),
                None => None,
            }),
            tokenizer.map@ == add_all(m0.map, setext_edits(ev, index as nat)),
            tokenizer@ == (TokenizerModel {
                events: tokenizer@.events,
                map: tokenizer@.map,
                ..m0
            }),
        decreases ev.len() - index,
    {
        proof {
            lemma_scan_bounds(ev, index as nat);
            assert(!text_before(ev, index as int, index as int)) by {
                if text_before(ev, index as int, index as int) {
                    let n = choose|n: int| n < index && #[trigger] text_of(ev, n, index as int);
                    lemma_scan_bounds(ev, n as nat);
                }
            }
        }
        let event = tokenizer.events[index];
        assert(event == ev[index as int]);

        // Find paragraphs.
        if event.kind == Kind::Enter {
            if event.name == Name::Paragraph {
                paragraph_enter = Some(index);
            }
        } else if event.name == Name::Paragraph {
            paragraph_exit = Some(index);
        }
        // We know this is preceded by a paragraph.
        // Otherwise we don’t parse.
        else if event.name == Name::HeadingSetextUnderline {
            assert(is_underline_exit(ev[index as int]));
            let enter: usize = paragraph_enter.unwrap();
            paragraph_enter = None;
            let exit: usize = paragraph_exit.unwrap();
            paragraph_exit = None;

            // Change types of Enter:Paragraph, Exit:Paragraph.
            let mut text_enter = tokenizer.events[enter];
            text_enter.name = Name::HeadingSetextText;
            tokenizer.events.set(enter, text_enter);
            let mut text_exit = tokenizer.events[exit];
            text_exit.name = Name::HeadingSetextText;
            tokenizer.events.set(exit, text_exit);

            // Add Enter:HeadingSetext, Exit:HeadingSetext.
            let mut heading_enter = tokenizer.events[enter];
            heading_enter.name = Name::HeadingSetext;
            let mut heading_exit = tokenizer.events[index];
            heading_exit.name = Name::HeadingSetext;

            let enters = vec![heading_enter];
            let exits = vec![heading_exit];
            tokenizer.map.add(enter, 0, enters);
            tokenizer.map.add(index + 1, 0, exits);
            proof {
                let prev = setext_edits(ev, index as nat);
                let a = (enter, 0usize, seq![Event { name: Name::HeadingSetext, ..ev[enter as int] }], false);
                let b = ((index + 1) as usize, 0usize, seq![Event { name: Name::HeadingSetext, ..ev[index as int] }], false);
                assert(enters@ =~= a.2);
                assert(exits@ =~= b.2);
                assert(setext_edits(ev, (index + 1) as nat) == prev + seq![a, b]);
                assert((prev + seq![a, b]).drop_last() =~= prev + seq![a]);
                assert((prev + seq![a]).drop_last() =~= prev);
                assert(add_all(m0.map, prev + seq![a]) == crate::util::edit_map::add_step(
                    add_all(m0.map, prev), a));
            }
        }
        proof {
            assert forall|k: int| 0 <= k < ev.len() implies #[trigger] tokenizer.events@[k]
                == renamed_before(ev, index + 1, k) by {
                assert(text_before(ev, index + 1, k) <==> (text_before(ev, index as int, k)
                    || text_of(ev, index as int, k)));
            }
        }
        index = index + 1;
    }
}

/// Whether `k` is the last paragraph enter before the underline exit at
/// `n`: no other paragraph enter and no underline exit lie between them.
pub open spec fn last_paragraph_enter(events: Seq<Event>, k: int, n: int) -> bool {
    &&& 0 <= k < n
    &&& events[k].kind == Kind::Enter
    &&& events[k].name == Name::Paragraph
    &&& forall|j: int|
        k < j < n ==> !((#[trigger] events[j]).kind == Kind::Enter && events[j].name
            == Name::Paragraph) && !is_underline_exit(events[j])
}

/// Whether `k` is the last paragraph exit before the underline exit at `n`:
/// no other paragraph exit and no underline exit lie between them.
pub open spec fn last_paragraph_exit(events: Seq<Event>, k: int, n: int) -> bool {
    &&& 0 <= k < n
    &&& events[k].kind == Kind::Exit
    &&& events[k].name == Name::Paragraph
    &&& forall|j: int|
        k < j < n ==> !((#[trigger] events[j]).kind == Kind::Exit && events[j].name
            == Name::Paragraph) && !is_underline_exit(events[j])
}

/// One more event after a candidate paragraph enter or exit.
proof fn lemma_last_extend(events: Seq<Event>, k: int, i: int)
    requires
        0 <= k < i,
    ensures
        last_paragraph_enter(events, k, i + 1) <==> (last_paragraph_enter(events, k, i) && !(
        events[i].kind == Kind::Enter && events[i].name == Name::Paragraph) && !is_underline_exit(
            events[i],
        )),
        last_paragraph_exit(events, k, i + 1) <==> (last_paragraph_exit(events, k, i) && !(
        events[i].kind == Kind::Exit && events[i].name == Name::Paragraph) && !is_underline_exit(
            events[i],
        )),
{
    if last_paragraph_enter(events, k, i + 1) {
        assert(!((events[i]).kind == Kind::Enter && events[i].name == Name::Paragraph)
            && !is_underline_exit(events[i]));
    }
    if last_paragraph_enter(events, k, i) && !(events[i].kind == Kind::Enter && events[i].name
        == Name::Paragraph) && !is_underline_exit(events[i]) {
        assert forall|j: int| k < j < i + 1 implies !((#[trigger] events[j]).kind == Kind::Enter
            && events[j].name == Name::Paragraph) && !is_underline_exit(events[j]) by {
            if j < i {
            }
        }
    }
    if last_paragraph_exit(events, k, i + 1) {
        assert(!((events[i]).kind == Kind::Exit && events[i].name == Name::Paragraph)
            && !is_underline_exit(events[i]));
    }
    if last_paragraph_exit(events, k, i) && !(events[i].kind == Kind::Exit && events[i].name
        == Name::Paragraph) && !is_underline_exit(events[i]) {
        assert forall|j: int| k < j < i + 1 implies !((#[trigger] events[j]).kind == Kind::Exit
            && events[j].name == Name::Paragraph) && !is_underline_exit(events[j]) by {
            if j < i {
            }
        }
    }
}

/// The walk over the events finds the last paragraph enter and exit.
proof fn lemma_scan_last(events: Seq<Event>, n: nat, k: int)
    requires
        0 <= k,
    ensures
        paragraph_scan(events, n).0 == Some(k as nat) <==> last_paragraph_enter(events, k, n as int),
        paragraph_scan(events, n).1 == Some(k as nat) <==> last_paragraph_exit(events, k, n as int),
    decreases n,
{
    if n > 0 {
        let i = (n - 1) as nat;
        lemma_scan_bounds(events, i);
        if k < i {
            lemma_scan_last(events, i, k);
            lemma_last_extend(events, k, i as int);
        }
    }
}

/// Resolving renames exactly the last paragraph enter and exit before each
/// underline (after the previous underline) to heading text; every other
/// event is left as it is. A paragraph separated from the underline by
/// another paragraph stays a paragraph.
pub proof fn lemma_heading_text_is_last_paragraph(events: Seq<Event>, k: int)
    requires
        0 <= k < events.len(),
    ensures
        renamed_before(events, events.len() as int, k) == if exists|n: int|
            k < n < events.len() && is_underline_exit(#[trigger] events[n]) && (
            last_paragraph_enter(events, k, n) || last_paragraph_exit(events, k, n)) {
            Event { name: Name::HeadingSetextText, ..events[k] }
        } else {
            events[k]
        },
{
    let len = events.len() as int;
    let p = exists|n: int|
        k < n < events.len() && is_underline_exit(#[trigger] events[n]) && (last_paragraph_enter(
            events,
            k,
            n,
        ) || last_paragraph_exit(events, k, n));
    if text_before(events, len, k) {
        let n = choose|n: int| n < len && #[trigger] text_of(events, n, k);
        lemma_scan_last(events, n as nat, k);
        lemma_scan_bounds(events, n as nat);
        assert(last_paragraph_enter(events, k, n) || last_paragraph_exit(events, k, n));
        assert(p);
    }
    if p {
        let n = choose|n: int|
            k < n < events.len() && is_underline_exit(#[trigger] events[n]) && (
            last_paragraph_enter(events, k, n) || last_paragraph_exit(events, k, n));
        lemma_scan_last(events, n as nat, k);
        assert(text_of(events, n, k));
        assert(text_before(events, len, k));
    }
}

/// A heading enter inserted right before the event at `k`.
pub open spec fn heading_enter_at(events: Seq<Event>, k: int) -> (usize, usize, Seq<Event>, bool) {
    (k as usize, 0usize, seq![Event { name: Name::HeadingSetext, ..events[k] }], false)
}

/// A heading exit inserted right after the event at `n`.
pub open spec fn heading_exit_after(events: Seq<Event>, n: int) -> (usize, usize, Seq<Event>, bool) {
    ((n + 1) as usize, 0usize, seq![Event { name: Name::HeadingSetext, ..events[n] }], false)
}

/// The edits for one more event.
proof fn lemma_setext_step(events: Seq<Event>, i: nat)
    requires
        i < events.len() <= usize::MAX,
        underlines_follow_paragraphs(events),
    ensures
        !is_underline_exit(events[i as int]) ==> setext_edits(events, i + 1) == setext_edits(events, i),
        is_underline_exit(events[i as int]) ==> exists|k: int|
            last_paragraph_enter(events, k, i as int) && setext_edits(events, i + 1) == setext_edits(
                events,
                i,
            ) + seq![heading_enter_at(events, k), heading_exit_after(events, i as int)],
{
    if is_underline_exit(events[i as int]) {
        lemma_scan_bounds(events, i);
        assert(paragraph_scan(events, i).0 is Some);
        let k = paragraph_scan(events, i).0.unwrap();
        lemma_scan_last(events, i, k as int);
        assert(setext_edits(events, i + 1) == setext_edits(events, i) + seq![
            heading_enter_at(events, k as int),
            heading_exit_after(events, i as int),
        ]);
    }
}

/// Whether the edit `e` is a heading span for one of the underlines before
/// `big_n`: it opens right before the last paragraph enter before that
/// underline, or closes right after the underline.
pub open spec fn heading_span_placed(
    events: Seq<Event>,
    e: (usize, usize, Seq<Event>, bool),
    big_n: nat,
) -> bool {
    exists|n: int|
        0 <= n < big_n && is_underline_exit(#[trigger] events[n]) && ((last_paragraph_enter(
            events,
            e.0 as int,
            n,
        ) && e == heading_enter_at(events, e.0 as int)) || e == heading_exit_after(events, n))
}

/// Each heading span resolving adds opens right before the last paragraph
/// enter before an underline, or closes right after an underline.
pub proof fn lemma_heading_spans_placed(events: Seq<Event>, big_n: nat)
    requires
        big_n <= events.len() <= usize::MAX,
        underlines_follow_paragraphs(events),
    ensures
        forall|j: int|
            0 <= j < setext_edits(events, big_n).len() ==> #[trigger] heading_span_placed(
                events,
                setext_edits(events, big_n)[j],
                big_n,
            ),
    decreases big_n,
{
    if big_n == 0 {
        assert(setext_edits(events, 0) =~= Seq::<(usize, usize, Seq<Event>, bool)>::empty());
    } else {
        let i = (big_n - 1) as nat;
        lemma_heading_spans_placed(events, i);
        lemma_setext_step(events, i);
        assert(i + 1 == big_n);
        let prev = setext_edits(events, i);
        let all = setext_edits(events, big_n);
        assert forall|j: int| 0 <= j < prev.len() implies #[trigger] heading_span_placed(
            events,
            prev[j],
            big_n,
        ) by {
            assert(heading_span_placed(events, prev[j], i));
            let n = choose|n: int|
                0 <= n < i && is_underline_exit(#[trigger] events[n]) && ((last_paragraph_enter(
                    events,
                    prev[j].0 as int,
                    n,
                ) && prev[j] == heading_enter_at(events, prev[j].0 as int)) || prev[j]
                    == heading_exit_after(events, n));
            assert(is_underline_exit(events[n]));
        }
        if is_underline_exit(events[i as int]) {
            let k = choose|k: int|
                last_paragraph_enter(events, k, i as int) && all == prev + seq![
                    heading_enter_at(events, k),
                    heading_exit_after(events, i as int),
                ];
            assert((k as usize) as int == k);
            assert(heading_span_placed(events, heading_enter_at(events, k), big_n)) by {
                assert(is_underline_exit(events[i as int]));
            }
            assert(heading_span_placed(events, heading_exit_after(events, i as int), big_n)) by {
                assert(is_underline_exit(events[i as int]));
            }
            assert forall|j: int| 0 <= j < all.len() implies #[trigger] heading_span_placed(
                events,
                all[j],
                big_n,
            ) by {
                if j < prev.len() {
                    assert(all[j] == prev[j]);
                } else if j == prev.len() {
                    assert(all[j] == heading_enter_at(events, k));
                } else {
                    assert(all[j] == heading_exit_after(events, i as int));
                }
            }
        } else {
            assert forall|j: int| 0 <= j < all.len() implies #[trigger] heading_span_placed(
                events,
                all[j],
                big_n,
            ) by {
                assert(all[j] == prev[j]);
            }
        }
    }
}

/// Each underline gets a heading span: it opens right before the last
/// paragraph enter before the underline and closes right after it.
pub proof fn lemma_heading_spans_complete(events: Seq<Event>, big_n: nat)
    requires
        big_n <= events.len() <= usize::MAX,
        underlines_follow_paragraphs(events),
    ensures
        forall|n: int|
            0 <= n < big_n && is_underline_exit(#[trigger] events[n]) ==> exists|k: int|
                last_paragraph_enter(events, k, n) && setext_edits(events, big_n).contains(
                    heading_enter_at(events, k),
                ) && setext_edits(events, big_n).contains(heading_exit_after(events, n)),
    decreases big_n,
{
    if big_n > 0 {
        let i = (big_n - 1) as nat;
        lemma_heading_spans_complete(events, i);
        lemma_setext_step(events, i);
        let prev = setext_edits(events, i);
        let all = setext_edits(events, big_n);
        assert forall|n: int|
            0 <= n < big_n && is_underline_exit(#[trigger] events[n]) implies exists|k: int|
            last_paragraph_enter(events, k, n) && all.contains(heading_enter_at(events, k))
                && all.contains(heading_exit_after(events, n)) by {
            if n < i {
                let k = choose|k: int|
                    last_paragraph_enter(events, k, n) && prev.contains(heading_enter_at(events, k))
                        && prev.contains(heading_exit_after(events, n));
                let x = choose|x: int| 0 <= x < prev.len() && prev[x] == heading_enter_at(events, k);
                let y = choose|y: int| 0 <= y < prev.len() && prev[y] == heading_exit_after(events, n);
                if is_underline_exit(events[i as int]) {
                    let kk = choose|kk: int|
                        last_paragraph_enter(events, kk, i as int) && all == prev + seq![
                            heading_enter_at(events, kk),
                            heading_exit_after(events, i as int),
                        ];
                    assert(all[x] == prev[x]);
                    assert(all[y] == prev[y]);
                }
            } else {
                let kk = choose|kk: int|
                    last_paragraph_enter(events, kk, i as int) && all == prev + seq![
                        heading_enter_at(events, kk),
                        heading_exit_after(events, i as int),
                    ];
                assert(all[prev.len() as int] == heading_enter_at(events, kk));
                assert(all[(prev.len() + 1) as int] == heading_exit_after(events, n));
            }
        }
    }
}

} // verus!
