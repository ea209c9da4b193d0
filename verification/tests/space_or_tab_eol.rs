use lib::construct::partial_space_or_tab::{space_or_tab, space_or_tab_min_max, space_or_tab_with_options, Options as SpaceOrTabOptions};
use lib::construct::partial_space_or_tab_eol::{
    eol_after_eol, eol_after_first, eol_after_more, eol_at_eol, eol_start, space_or_tab_eol,
    space_or_tab_eol_with_options, Options,
};
use lib::event::{Content, Event, Kind, Link, Name, Point};
use lib::state::{Name as StateName, State};
use lib::tokenizer::{Constructs, ParseState, Tokenizer};

fn tokenizer(bytes: &[u8]) -> Tokenizer {
    Tokenizer::new(ParseState {
        constructs: Constructs { code_indented: true, heading_setext: true, label_end: true },
        bytes: bytes.to_vec(),
        definitions: vec![],
    })
}

#[test]
fn space_or_tab_eol_defaults() {
    let mut t = tokenizer(b" \n b");
    t.tokenize_state.space_or_tab_eol_connect = true;
    t.tokenize_state.space_or_tab_eol_content_type = Some(Content::Text);
    assert_eq!(space_or_tab_eol(&mut t), StateName::SpaceOrTabEolStart);
    assert_eq!(t.tokenize_state.space_or_tab_eol_content_type, None);
    assert!(!t.tokenize_state.space_or_tab_eol_connect);
}

#[test]
fn space_or_tab_eol_with_given_options() {
    let mut t = tokenizer(b" \n b");
    let state = space_or_tab_eol_with_options(
        &mut t,
        Options { connect: true, content_type: Some(Content::String) },
    );
    assert_eq!(state, StateName::SpaceOrTabEolStart);
    assert_eq!(t.tokenize_state.space_or_tab_eol_content_type, Some(Content::String));
    assert!(t.tokenize_state.space_or_tab_eol_connect);
}

#[test]
fn eol_start_tries_whitespace() {
    let mut t = tokenizer(b" \n b");
    space_or_tab_eol_with_options(&mut t, Options { connect: true, content_type: Some(Content::Text) });
    assert_eq!(eol_start(&mut t), State::Retry(StateName::SpaceOrTabStart));
    assert_eq!(t.attempts[0].ok, State::Next(StateName::SpaceOrTabEolAfterFirst));
    assert_eq!(t.attempts[0].nok, State::Next(StateName::SpaceOrTabEolAtEol));
    assert_eq!(t.tokenize_state.space_or_tab_min, 1);
    assert_eq!(t.tokenize_state.space_or_tab_max, usize::MAX);
    assert_eq!(t.tokenize_state.space_or_tab_token, Name::SpaceOrTab);
    assert_eq!(t.tokenize_state.space_or_tab_content_type, Some(Content::Text));
    assert!(t.tokenize_state.space_or_tab_connect);
}

#[test]
fn eol_after_first_marks_ok() {
    let mut t = tokenizer(b" \n");
    assert_eq!(eol_after_first(&mut t), State::Retry(StateName::SpaceOrTabEolAtEol));
    assert!(t.tokenize_state.space_or_tab_eol_ok);
    assert!(!t.tokenize_state.space_or_tab_eol_connect);

    let mut content = tokenizer(b" \n");
    content.tokenize_state.space_or_tab_eol_content_type = Some(Content::Text);
    eol_after_first(&mut content);
    assert!(content.tokenize_state.space_or_tab_eol_connect);
}

#[test]
fn eol_at_eol_takes_line_ending() {
    let mut t = tokenizer(b"\nb");
    t.current = Some(b'\n');
    assert_eq!(eol_at_eol(&mut t), State::Next(StateName::SpaceOrTabEolAfterEol));
    assert_eq!(t.events.len(), 2);
    assert_eq!(t.events[0].name, Name::LineEnding);
    assert_eq!(t.events[0].link.is_none(), true);
    assert_eq!(t.events[1].kind, Kind::Exit);
    assert_eq!(t.point, Point { line: 2, column: 1, index: 1 });
    assert!(t.stack.is_empty());
}

#[test]
fn eol_at_eol_links_to_previous_content() {
    let mut t = tokenizer(b"a\nb");
    let link = Some(Link { previous: None, next: None, content: Content::Text });
    t.events = vec![
        Event { kind: Kind::Enter, name: Name::Data, point: Point { line: 1, column: 1, index: 0 }, link },
        Event { kind: Kind::Exit, name: Name::Data, point: Point { line: 1, column: 2, index: 1 }, link: None },
    ];
    t.tokenize_state.space_or_tab_eol_content_type = Some(Content::Text);
    t.tokenize_state.space_or_tab_eol_connect = true;
    t.point = Point { line: 1, column: 2, index: 1 };
    t.current = Some(b'\n');
    assert_eq!(eol_at_eol(&mut t), State::Next(StateName::SpaceOrTabEolAfterEol));
    assert_eq!(t.events[0].link.unwrap().next, Some(2));
    assert_eq!(t.events[2].link.unwrap().previous, Some(0));
    assert_eq!(t.events[2].link.unwrap().content, Content::Text);
}

#[test]
fn eol_at_eol_starts_connecting_content() {
    let mut t = tokenizer(b"\nb");
    t.tokenize_state.space_or_tab_eol_content_type = Some(Content::String);
    t.current = Some(b'\n');
    eol_at_eol(&mut t);
    assert!(t.tokenize_state.space_or_tab_eol_connect);
    assert_eq!(t.events[0].link.unwrap().content, Content::String);
}

#[test]
fn eol_at_eol_without_line_ending() {
    let mut ok = tokenizer(b" b");
    ok.tokenize_state.space_or_tab_eol_ok = true;
    ok.tokenize_state.space_or_tab_eol_connect = true;
    ok.tokenize_state.space_or_tab_eol_content_type = Some(Content::Text);
    ok.current = Some(b'b');
    assert_eq!(eol_at_eol(&mut ok), State::Okay);
    assert!(!ok.tokenize_state.space_or_tab_eol_ok);
    assert!(!ok.tokenize_state.space_or_tab_eol_connect);
    assert_eq!(ok.tokenize_state.space_or_tab_eol_content_type, None);

    let mut nothing = tokenizer(b"b");
    nothing.current = Some(b'b');
    assert_eq!(eol_at_eol(&mut nothing), State::Nok);
}

#[test]
fn eol_after_eol_tries_whitespace() {
    let mut t = tokenizer(b"\n b");
    assert_eq!(eol_after_eol(&mut t), State::Retry(StateName::SpaceOrTabStart));
    assert_eq!(t.attempts[0].ok, State::Next(StateName::SpaceOrTabEolAfterMore));
    assert_eq!(t.attempts[0].nok, State::Next(StateName::SpaceOrTabEolAfterMore));
    assert_eq!(t.tokenize_state.space_or_tab_min, 1);
}

#[test]
fn eol_after_more_rejects_blank_line() {
    let mut blank = tokenizer(b"\n\n");
    blank.current = Some(b'\n');
    blank.tokenize_state.space_or_tab_eol_ok = true;
    assert_eq!(eol_after_more(&mut blank), State::Nok);
    assert!(!blank.tokenize_state.space_or_tab_eol_ok);

    let mut end = tokenizer(b"\n");
    assert_eq!(eol_after_more(&mut end), State::Nok);

    let mut text = tokenizer(b"\nb");
    text.current = Some(b'b');
    assert_eq!(eol_after_more(&mut text), State::Okay);
}

#[test]
fn space_or_tab_helpers_set_options() {
    let mut t = tokenizer(b" ");
    assert_eq!(space_or_tab(&mut t), StateName::SpaceOrTabStart);
    assert_eq!(t.tokenize_state.space_or_tab_min, 1);
    assert_eq!(t.tokenize_state.space_or_tab_max, usize::MAX);
    assert_eq!(space_or_tab_min_max(&mut t, 0, 3), StateName::SpaceOrTabStart);
    assert_eq!(t.tokenize_state.space_or_tab_min, 0);
    assert_eq!(t.tokenize_state.space_or_tab_max, 3);
    let state = space_or_tab_with_options(
        &mut t,
        SpaceOrTabOptions { kind: Name::Data, min: 2, max: 4, content_type: Some(Content::Flow), connect: true },
    );
    assert_eq!(state, StateName::SpaceOrTabStart);
    assert_eq!(t.tokenize_state.space_or_tab_token, Name::Data);
    assert_eq!(t.tokenize_state.space_or_tab_content_type, Some(Content::Flow));
    assert!(t.tokenize_state.space_or_tab_connect);
}
