use lib::event::{Content, Kind, Name, Point};
use lib::resolve::Name as ResolveName;
use lib::state::{Name as StateName, State};
use lib::tokenizer::{Constructs, ParseState, Tokenizer};

fn tokenizer(bytes: &[u8]) -> Tokenizer {
    Tokenizer::new(ParseState {
        constructs: Constructs { code_indented: false, heading_setext: true, label_end: true },
        bytes: bytes.to_vec(),
        definitions: vec![],
    })
}

#[test]
fn new_tokenizer_is_at_start() {
    let t = tokenizer(b"a");
    assert_eq!(t.point, Point { line: 1, column: 1, index: 0 });
    assert!(t.events.is_empty());
    assert!(t.stack.is_empty());
    assert_eq!(t.current, None);
    assert_eq!(t.parse_state.bytes, b"a".to_vec());
}

#[test]
fn enter_then_exit_is_balanced() {
    let mut t = tokenizer(b"a");
    t.enter(Name::Data);
    assert_eq!(t.stack, vec![Name::Data]);
    t.exit(Name::Data);
    assert!(t.stack.is_empty());
    assert_eq!(t.events.len(), 2);
    assert_eq!(t.events[0].kind, Kind::Enter);
    assert_eq!(t.events[1].kind, Kind::Exit);
}

#[test]
fn enter_with_content_links() {
    let mut t = tokenizer(b"a");
    t.enter_with_content(Name::Data, Some(Content::Text));
    let link = t.events[0].link.unwrap();
    assert_eq!(link.content, Content::Text);
    assert_eq!(link.previous, None);
    assert_eq!(link.next, None);
}

#[test]
fn consume_moves_forward() {
    let mut t = tokenizer(b"a\nb");
    t.current = Some(b'a');
    t.consume();
    assert_eq!(t.point, Point { line: 1, column: 2, index: 1 });
    assert_eq!(t.previous, Some(b'a'));
    assert_eq!(t.current, None);
    assert!(t.consumed);
    t.current = Some(b'\n');
    t.consume();
    assert_eq!(t.point, Point { line: 2, column: 1, index: 2 });
}

#[test]
fn attempt_records_progress() {
    let mut t = tokenizer(b"a");
    t.current = Some(b'a');
    t.enter(Name::Data);
    t.attempt(State::Next(StateName::LabelEndOk), State::Nok);
    let attempt = t.attempts[0];
    assert_eq!(attempt.ok, State::Next(StateName::LabelEndOk));
    assert_eq!(attempt.nok, State::Nok);
    assert_eq!(attempt.progress.events_len, 1);
    assert_eq!(attempt.progress.stack_len, 1);
    assert_eq!(attempt.progress.current, Some(b'a'));
}

#[test]
fn resolvers_register_once() {
    let mut t = tokenizer(b"a");
    t.register_resolver(ResolveName::HeadingSetext);
    t.register_resolver_before(ResolveName::Label);
    t.register_resolver_before(ResolveName::Label);
    t.register_resolver(ResolveName::HeadingSetext);
    assert_eq!(t.resolvers, vec![ResolveName::Label, ResolveName::HeadingSetext]);
}
