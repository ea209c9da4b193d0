use lib::construct::heading_setext;
use lib::event::{Event, Kind, Name, Point};
use lib::resolve::Name as ResolveName;
use lib::state::{Name as StateName, State};
use lib::tokenizer::{Constructs, ParseState, Tokenizer};

fn tokenizer(bytes: &[u8], code_indented: bool) -> Tokenizer {
    Tokenizer::new(ParseState {
        constructs: Constructs { code_indented, heading_setext: true, label_end: true },
        bytes: bytes.to_vec(),
        definitions: vec![],
    })
}

fn event(kind: Kind, name: Name, index: usize) -> Event {
    Event { kind, name, point: Point { line: 1, column: index + 1, index }, link: None }
}

fn paragraph_then_line_ending() -> Vec<Event> {
    vec![
        event(Kind::Enter, Name::Paragraph, 0),
        event(Kind::Enter, Name::Data, 0),
        event(Kind::Exit, Name::Data, 2),
        event(Kind::Exit, Name::Paragraph, 2),
        event(Kind::Enter, Name::LineEnding, 2),
        event(Kind::Exit, Name::LineEnding, 3),
    ]
}

#[test]
fn start_after_paragraph_tries_whitespace() {
    let mut t = tokenizer(b"aa\n==", false);
    t.events = paragraph_then_line_ending();
    let state = heading_setext::start(&mut t);
    assert_eq!(state, State::Retry(StateName::SpaceOrTabStart));
    assert_eq!(t.attempts.len(), 1);
    assert_eq!(t.attempts[0].ok, State::Next(StateName::HeadingSetextBefore));
    assert_eq!(t.attempts[0].nok, State::Nok);
    assert_eq!(t.tokenize_state.space_or_tab_min, 0);
    assert_eq!(t.tokenize_state.space_or_tab_max, usize::MAX);
}

#[test]
fn start_with_code_indented_allows_three_spaces() {
    let mut t = tokenizer(b"aa\n==", true);
    t.events = paragraph_then_line_ending();
    let state = heading_setext::start(&mut t);
    assert_eq!(state, State::Retry(StateName::SpaceOrTabStart));
    assert_eq!(t.tokenize_state.space_or_tab_max, 3);
}

#[test]
fn start_without_paragraph_fails() {
    let mut t = tokenizer(b"\n==", false);
    t.events = vec![event(Kind::Enter, Name::Data, 0), event(Kind::Exit, Name::Data, 0)];
    assert_eq!(heading_setext::start(&mut t), State::Nok);
    assert!(t.attempts.is_empty());

    let mut empty = tokenizer(b"==", false);
    assert_eq!(heading_setext::start(&mut empty), State::Nok);
}

#[test]
fn start_when_lazy_or_turned_off_fails() {
    let mut lazy = tokenizer(b"aa\n==", false);
    lazy.events = paragraph_then_line_ending();
    lazy.lazy = true;
    assert_eq!(heading_setext::start(&mut lazy), State::Nok);

    let mut off = tokenizer(b"aa\n==", false);
    off.events = paragraph_then_line_ending();
    off.parse_state.constructs.heading_setext = false;
    assert_eq!(heading_setext::start(&mut off), State::Nok);
}

#[test]
fn before_at_equals_opens_underline() {
    let mut t = tokenizer(b"==", false);
    t.current = Some(b'=');
    assert_eq!(heading_setext::before(&mut t), State::Retry(StateName::HeadingSetextInside));
    assert_eq!(t.tokenize_state.marker, b'=');
    assert_eq!(t.stack, vec![Name::HeadingSetextUnderline]);
    assert_eq!(t.events.len(), 1);
    assert_eq!(t.events[0].kind, Kind::Enter);
    assert_eq!(t.events[0].name, Name::HeadingSetextUnderline);
}

#[test]
fn before_elsewhere_fails() {
    let mut t = tokenizer(b"*", false);
    t.current = Some(b'*');
    assert_eq!(heading_setext::before(&mut t), State::Nok);
    assert!(t.events.is_empty());
}

#[test]
fn inside_consumes_same_marker() {
    let mut t = tokenizer(b"--", false);
    t.current = Some(b'-');
    heading_setext::before(&mut t);
    assert_eq!(heading_setext::inside(&mut t), State::Next(StateName::HeadingSetextInside));
    assert!(t.consumed);
    assert_eq!(t.point.index, 1);
    assert_eq!(t.point.column, 2);
    assert_eq!(t.previous, Some(b'-'));
}

#[test]
fn inside_other_marker_closes_underline() {
    let mut t = tokenizer(b"-=", false);
    t.current = Some(b'-');
    heading_setext::before(&mut t);
    t.current = Some(b'=');
    assert_eq!(heading_setext::inside(&mut t), State::Retry(StateName::SpaceOrTabStart));
    assert_eq!(t.tokenize_state.marker, 0);
    assert!(t.stack.is_empty());
    assert_eq!(t.events.len(), 2);
    assert_eq!(t.events[1].kind, Kind::Exit);
    assert_eq!(t.events[1].name, Name::HeadingSetextUnderline);
    assert_eq!(t.attempts[0].ok, State::Next(StateName::HeadingSetextAfter));
    assert_eq!(t.attempts[0].nok, State::Next(StateName::HeadingSetextAfter));
    assert_eq!(t.tokenize_state.space_or_tab_min, 1);
}

#[test]
fn after_at_line_ending_registers_resolver() {
    let mut t = tokenizer(b"==\n", false);
    t.interrupt = true;
    t.current = Some(b'\n');
    assert_eq!(heading_setext::after(&mut t), State::Okay);
    assert!(!t.interrupt);
    assert_eq!(t.resolvers, vec![ResolveName::HeadingSetext]);
    // Registering twice keeps one.
    t.current = None;
    assert_eq!(heading_setext::after(&mut t), State::Okay);
    assert_eq!(t.resolvers, vec![ResolveName::HeadingSetext]);
}

#[test]
fn after_with_trailing_text_fails() {
    let mut t = tokenizer(b"== a", false);
    t.current = Some(b'a');
    assert_eq!(heading_setext::after(&mut t), State::Nok);
    assert!(t.resolvers.is_empty());
}

#[test]
fn resolve_turns_paragraph_into_heading() {
    let mut t = tokenizer(b"aa\n==", false);
    let mut events = paragraph_then_line_ending();
    events.push(event(Kind::Enter, Name::HeadingSetextUnderline, 3));
    events.push(event(Kind::Exit, Name::HeadingSetextUnderline, 5));
    t.events = events;
    heading_setext::resolve(&mut t);
    assert_eq!(t.events[0].name, Name::HeadingSetextText);
    assert_eq!(t.events[3].name, Name::HeadingSetextText);
    assert_eq!(t.events[1].name, Name::Data);
    t.map.consume(&mut t.events);
    let names: Vec<(Kind, Name)> = t.events.iter().map(|e| (e.kind, e.name)).collect();
    assert_eq!(
        names,
        vec![
            (Kind::Enter, Name::HeadingSetext),
            (Kind::Enter, Name::HeadingSetextText),
            (Kind::Enter, Name::Data),
            (Kind::Exit, Name::Data),
            (Kind::Exit, Name::HeadingSetextText),
            (Kind::Enter, Name::LineEnding),
            (Kind::Exit, Name::LineEnding),
            (Kind::Enter, Name::HeadingSetextUnderline),
            (Kind::Exit, Name::HeadingSetextUnderline),
            (Kind::Exit, Name::HeadingSetext),
        ]
    );
    assert_eq!(t.events[0].point.index, 0);
    assert_eq!(t.events[9].point.index, 5);
}

#[test]
fn resolve_leaves_other_events() {
    let mut t = tokenizer(b"aa", false);
    t.events = vec![
        event(Kind::Enter, Name::Paragraph, 0),
        event(Kind::Exit, Name::Paragraph, 2),
    ];
    heading_setext::resolve(&mut t);
    t.map.consume(&mut t.events);
    assert_eq!(t.events.len(), 2);
    assert_eq!(t.events[0].name, Name::Paragraph);
    assert_eq!(t.events[1].name, Name::Paragraph);
}
