use lib::event::{Content, Event, Kind, Link, Name, Point};
use lib::subtokenize::{link, link_to};
use lib::util::edit_map::EditMap;
use lib::util::normalize_identifier::{collapse_identifier, normalize_identifier};
use lib::util::skip::{contains_name, opt_back, to_back};
use lib::util::slice::{Position, Slice};

fn event(kind: Kind, name: Name, index: usize) -> Event {
    Event { kind, name, point: Point { line: 1, column: index + 1, index }, link: None }
}

#[test]
fn normalize_collapses_whitespace_and_folds_case() {
    assert_eq!(normalize_identifier(b"  Foo \t\n bar  "), Some("FOO BAR".to_string()));
    assert_eq!(normalize_identifier(b"aB"), Some("AB".to_string()));
    assert_eq!(normalize_identifier(b""), Some(String::new()));
    assert_eq!(normalize_identifier(b" \t "), Some(String::new()));
}

#[test]
fn normalize_lowercases_before_uppercasing() {
    // Capital sharp s: lowercase is `ß`, whose uppercase is `SS`.
    assert_eq!(normalize_identifier("ẞ".as_bytes()), Some("SS".to_string()));
}

#[test]
fn normalize_rejects_invalid_utf8() {
    assert_eq!(normalize_identifier(&[0xff, 0x61]), None);
}

#[test]
fn collapse_identifier_keeps_single_spaces() {
    assert_eq!(collapse_identifier(b"\ra  b\n"), b"a b".to_vec());
}

#[test]
fn edit_map_inserts_and_removes() {
    let mut events = vec![
        event(Kind::Enter, Name::Data, 0),
        event(Kind::Exit, Name::Data, 1),
        event(Kind::Enter, Name::LineEnding, 1),
        event(Kind::Exit, Name::LineEnding, 2),
    ];
    let mut map = EditMap::new();
    map.add(0, 0, vec![event(Kind::Enter, Name::Paragraph, 0)]);
    map.add(2, 2, vec![]);
    map.add(2, 0, vec![event(Kind::Exit, Name::Paragraph, 1)]);
    map.add(4, 0, vec![]);
    map.consume(&mut events);
    let names: Vec<(Kind, Name)> = events.iter().map(|e| (e.kind, e.name)).collect();
    assert_eq!(
        names,
        vec![
            (Kind::Enter, Name::Paragraph),
            (Kind::Enter, Name::Data),
            (Kind::Exit, Name::Data),
            (Kind::Exit, Name::Paragraph),
        ]
    );
    // The map is empty afterwards.
    map.consume(&mut events);
    assert_eq!(events.len(), 4);
}

#[test]
fn edit_map_moves_links() {
    let text = Content::Text;
    let mut events = vec![
        Event { link: Some(Link { previous: None, next: Some(3), content: text }), ..event(Kind::Enter, Name::Data, 0) },
        event(Kind::Exit, Name::Data, 1),
        event(Kind::Enter, Name::SpaceOrTab, 1),
        Event { link: Some(Link { previous: Some(0), next: None, content: text }), ..event(Kind::Enter, Name::Data, 2) },
        event(Kind::Exit, Name::Data, 3),
    ];
    let mut map = EditMap::new();
    map.add(0, 0, vec![event(Kind::Enter, Name::Paragraph, 0)]);
    map.add(2, 1, vec![]);
    map.consume(&mut events);
    assert_eq!(events.len(), 5);
    assert_eq!(events[1].link.unwrap().next, Some(3));
    assert_eq!(events[3].link.unwrap().previous, Some(1));
}

#[test]
fn skip_opt_back_skips_whole_spans() {
    let events = vec![
        event(Kind::Enter, Name::Paragraph, 0),
        event(Kind::Exit, Name::Paragraph, 1),
        event(Kind::Enter, Name::LineEnding, 1),
        event(Kind::Exit, Name::LineEnding, 2),
        event(Kind::Enter, Name::SpaceOrTab, 2),
        event(Kind::Exit, Name::SpaceOrTab, 3),
    ];
    assert_eq!(opt_back(&events, 5, &[Name::LineEnding, Name::SpaceOrTab]), 1);
    assert_eq!(opt_back(&events, 5, &[Name::LineEnding]), 5);
    assert_eq!(opt_back(&events, 3, &[Name::LineEnding, Name::Paragraph]), usize::MAX);
}

#[test]
fn skip_to_back_finds_name() {
    let events = vec![
        event(Kind::Enter, Name::ReferenceString, 0),
        event(Kind::Exit, Name::ReferenceString, 1),
        event(Kind::Enter, Name::ReferenceMarker, 1),
        event(Kind::Exit, Name::ReferenceMarker, 2),
    ];
    assert_eq!(to_back(&events, 3, &[Name::ReferenceString]), 1);
    assert_eq!(to_back(&events, 3, &[Name::Link]), usize::MAX);
    assert!(contains_name(&[Name::Data, Name::Link], Name::Link));
    assert!(!contains_name(&[Name::Data], Name::Link));
}

#[test]
fn slice_and_position() {
    let events = vec![
        event(Kind::Enter, Name::ReferenceString, 1),
        event(Kind::Enter, Name::Data, 1),
        event(Kind::Exit, Name::Data, 3),
        event(Kind::Exit, Name::ReferenceString, 3),
    ];
    let position = Position::from_exit_event(&events, 3);
    assert_eq!(position.start.index, 1);
    assert_eq!(position.end.index, 3);
    let bytes = b"[ab]";
    assert_eq!(Slice::from_position(bytes, &position).bytes, b"ab");
    assert_eq!(Slice::from_indices(bytes, 0, 1).bytes, b"[");
}

#[test]
fn link_connects_events() {
    let text = Some(Link { previous: None, next: None, content: Content::Text });
    let mut events = vec![
        Event { link: text, ..event(Kind::Enter, Name::Data, 0) },
        event(Kind::Exit, Name::Data, 1),
        Event { link: text, ..event(Kind::Enter, Name::Data, 2) },
        Event { link: text, ..event(Kind::Enter, Name::Data, 3) },
    ];
    link(&mut events, 2);
    assert_eq!(events[0].link.unwrap().next, Some(2));
    assert_eq!(events[2].link.unwrap().previous, Some(0));
    link_to(&mut events, 2, 3);
    assert_eq!(events[2].link.unwrap().next, Some(3));
    assert_eq!(events[3].link.unwrap().previous, Some(2));
}

#[test]
fn edit_map_insert_goes_between() {
    let mut events = vec![event(Kind::Enter, Name::Data, 0), event(Kind::Exit, Name::Data, 1)];
    let mut map = EditMap::new();
    map.add(1, 0, vec![event(Kind::Enter, Name::LineEnding, 1), event(Kind::Exit, Name::LineEnding, 1)]);
    map.consume(&mut events);
    let names: Vec<(Kind, Name)> = events.iter().map(|e| (e.kind, e.name)).collect();
    assert_eq!(
        names,
        vec![
            (Kind::Enter, Name::Data),
            (Kind::Enter, Name::LineEnding),
            (Kind::Exit, Name::LineEnding),
            (Kind::Exit, Name::Data),
        ]
    );
}

#[test]
fn edit_map_without_edits_keeps_events() {
    let text = Content::Text;
    let mut events = vec![
        Event { link: Some(Link { previous: None, next: Some(1), content: text }), ..event(Kind::Enter, Name::Data, 0) },
        Event { link: Some(Link { previous: Some(0), next: None, content: text }), ..event(Kind::Enter, Name::Data, 1) },
    ];
    let mut map = EditMap::new();
    map.add(1, 0, vec![]);
    map.consume(&mut events);
    assert_eq!(events.len(), 2);
    assert_eq!(events[0].link.unwrap().next, Some(1));
    assert_eq!(events[1].link.unwrap().previous, Some(0));
}

#[test]
fn edit_map_replaces_removed_events() {
    let mut events = vec![
        event(Kind::Enter, Name::Data, 0),
        event(Kind::Enter, Name::LabelLink, 0),
        event(Kind::Exit, Name::LabelLink, 1),
        event(Kind::Exit, Name::Data, 1),
    ];
    let mut map = EditMap::new();
    map.add(1, 2, vec![event(Kind::Enter, Name::Link, 0)]);
    map.consume(&mut events);
    let names: Vec<(Kind, Name)> = events.iter().map(|e| (e.kind, e.name)).collect();
    assert_eq!(
        names,
        vec![(Kind::Enter, Name::Data), (Kind::Enter, Name::Link), (Kind::Exit, Name::Data)]
    );
}

#[test]
fn edit_map_add_before_goes_first() {
    let mut events = vec![event(Kind::Enter, Name::Data, 0), event(Kind::Exit, Name::Data, 1)];
    let mut map = EditMap::new();
    map.add(1, 0, vec![event(Kind::Enter, Name::Image, 1)]);
    map.add_before(1, 0, vec![event(Kind::Enter, Name::LabelText, 1)]);
    map.add(1, 0, vec![event(Kind::Exit, Name::Image, 1)]);
    map.add_before(0, 0, vec![event(Kind::Enter, Name::Link, 0)]);
    map.consume(&mut events);
    let names: Vec<(Kind, Name)> = events.iter().map(|e| (e.kind, e.name)).collect();
    assert_eq!(
        names,
        vec![
            (Kind::Enter, Name::Link),
            (Kind::Enter, Name::Data),
            (Kind::Enter, Name::LabelText),
            (Kind::Enter, Name::Image),
            (Kind::Exit, Name::Image),
            (Kind::Exit, Name::Data),
        ]
    );
}
