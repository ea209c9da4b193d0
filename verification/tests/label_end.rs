use lib::construct::label_end;
use lib::event::{Event, Kind, Name, Point};
use lib::resolve::Name as ResolveName;
use lib::state::{Name as StateName, State};
use lib::tokenizer::{Constructs, LabelStart, Media, ParseState, Tokenizer};

fn tokenizer(bytes: &[u8], definitions: &[&str]) -> Tokenizer {
    Tokenizer::new(ParseState {
        constructs: Constructs { code_indented: true, heading_setext: true, label_end: true },
        bytes: bytes.to_vec(),
        definitions: definitions.iter().map(|d| d.to_string()).collect(),
    })
}

fn event(kind: Kind, name: Name, index: usize) -> Event {
    Event { kind, name, point: Point { line: 1, column: index + 1, index }, link: None }
}

/// Events of a link label start at byte `index`.
fn link_start(index: usize) -> Vec<Event> {
    vec![
        event(Kind::Enter, Name::LabelLink, index),
        event(Kind::Enter, Name::LabelMarker, index),
        event(Kind::Exit, Name::LabelMarker, index + 1),
        event(Kind::Exit, Name::LabelLink, index + 1),
    ]
}

/// A tokenizer at `]` of `[a]`, after the label start and its text.
fn at_label_end(bytes: &[u8], definitions: &[&str]) -> Tokenizer {
    let mut t = tokenizer(bytes, definitions);
    t.events = link_start(0);
    t.events.push(event(Kind::Enter, Name::Data, 1));
    t.events.push(event(Kind::Exit, Name::Data, 2));
    t.tokenize_state.label_start_stack.push(LabelStart { start: (0, 3), inactive: false });
    t.point = Point { line: 1, column: 3, index: 2 };
    t.current = Some(b']');
    t
}

#[test]
fn start_marks_label_end() {
    let mut t = at_label_end(b"[a] b", &[]);
    assert_eq!(label_end::start(&mut t), State::Next(StateName::LabelEndAfter));
    assert_eq!(t.tokenize_state.end, 6);
    let names: Vec<(Kind, Name)> = t.events[6..].iter().map(|e| (e.kind, e.name)).collect();
    assert_eq!(
        names,
        vec![
            (Kind::Enter, Name::LabelEnd),
            (Kind::Enter, Name::LabelMarker),
            (Kind::Exit, Name::LabelMarker),
            (Kind::Exit, Name::LabelEnd),
        ]
    );
    assert_eq!(t.events[9].point.index, 3);
    assert!(t.stack.is_empty());
}

#[test]
fn start_with_inactive_label_start_fails() {
    let mut t = at_label_end(b"[a] b", &[]);
    t.tokenize_state.label_start_stack[0].inactive = true;
    assert_eq!(label_end::start(&mut t), State::Retry(StateName::LabelEndNok));
    assert_eq!(t.tokenize_state.end, 6);
    assert_eq!(t.events.len(), 6);
}

#[test]
fn start_without_label_start_fails() {
    let mut t = at_label_end(b"a] b", &[]);
    t.tokenize_state.label_start_stack.clear();
    assert_eq!(label_end::start(&mut t), State::Nok);
    assert_eq!(t.tokenize_state.end, 0);

    let mut off = at_label_end(b"[a] b", &[]);
    off.parse_state.constructs.label_end = false;
    assert_eq!(label_end::start(&mut off), State::Nok);

    let mut elsewhere = at_label_end(b"[a) b", &[]);
    elsewhere.current = Some(b')');
    assert_eq!(label_end::start(&mut elsewhere), State::Nok);
}

#[test]
fn after_shortcut_reference_defined() {
    let mut t = at_label_end(b"[a] b", &["A"]);
    label_end::start(&mut t);
    t.current = Some(b' ');
    assert_eq!(label_end::after(&mut t), State::Retry(StateName::LabelEndOk));
    assert!(t.attempts.is_empty());
}

#[test]
fn after_shortcut_reference_undefined() {
    let mut t = at_label_end(b"[a] b", &["B"]);
    label_end::start(&mut t);
    t.current = Some(b' ');
    assert_eq!(label_end::after(&mut t), State::Retry(StateName::LabelEndNok));
}

#[test]
fn after_label_is_matched_case_insensitively_and_without_whitespace() {
    let mut t = tokenizer(b"[ Foo\n  bar ] x", &["FOO BAR"]);
    t.events = link_start(0);
    t.tokenize_state.label_start_stack.push(LabelStart { start: (0, 3), inactive: false });
    t.point = Point { line: 2, column: 7, index: 12 };
    t.current = Some(b']');
    label_end::start(&mut t);
    t.current = Some(b' ');
    assert_eq!(label_end::after(&mut t), State::Retry(StateName::LabelEndOk));
}

#[test]
fn after_resource_attempts_resource() {
    let mut t = at_label_end(b"[a](b)", &[]);
    label_end::start(&mut t);
    t.current = Some(b'(');
    assert_eq!(label_end::after(&mut t), State::Retry(StateName::LabelEndResourceStart));
    assert_eq!(t.attempts[0].ok, State::Next(StateName::LabelEndOk));
    assert_eq!(t.attempts[0].nok, State::Next(StateName::LabelEndNok));

    let mut defined = at_label_end(b"[a](b)", &["A"]);
    label_end::start(&mut defined);
    defined.current = Some(b'(');
    label_end::after(&mut defined);
    assert_eq!(defined.attempts[0].nok, State::Next(StateName::LabelEndOk));
}

#[test]
fn after_reference_attempts_full_reference() {
    let mut t = at_label_end(b"[a][b]", &["A"]);
    label_end::start(&mut t);
    t.current = Some(b'[');
    assert_eq!(label_end::after(&mut t), State::Retry(StateName::LabelEndReferenceFull));
    assert_eq!(t.attempts[0].ok, State::Next(StateName::LabelEndOk));
    assert_eq!(t.attempts[0].nok, State::Next(StateName::LabelEndReferenceNotFull));

    let mut undefined = at_label_end(b"[a][b]", &[]);
    label_end::start(&mut undefined);
    undefined.current = Some(b'[');
    label_end::after(&mut undefined);
    assert_eq!(undefined.attempts[0].nok, State::Next(StateName::LabelEndNok));
}

#[test]
fn reference_not_full_attempts_collapsed() {
    let mut t = tokenizer(b"[a][]", &[]);
    assert_eq!(
        label_end::reference_not_full(&mut t),
        State::Retry(StateName::LabelEndReferenceCollapsed)
    );
    assert_eq!(t.attempts[0].ok, State::Next(StateName::LabelEndOk));
    assert_eq!(t.attempts[0].nok, State::Next(StateName::LabelEndNok));
}

#[test]
fn ok_records_media_and_deactivates_links() {
    let mut t = tokenizer(b"[a [b](c)", &[]);
    t.events = link_start(0);
    t.events.extend(link_start(3));
    t.events.push(event(Kind::Enter, Name::LabelEnd, 5));
    t.events.push(event(Kind::Exit, Name::LabelEnd, 6));
    t.tokenize_state.label_start_stack.push(LabelStart { start: (0, 3), inactive: false });
    t.tokenize_state.label_start_stack.push(LabelStart { start: (4, 7), inactive: false });
    t.tokenize_state.end = 8;
    assert_eq!(label_end::ok(&mut t), State::Okay);
    assert_eq!(t.tokenize_state.label_start_stack.len(), 1);
    assert!(t.tokenize_state.label_start_stack[0].inactive);
    assert_eq!(t.tokenize_state.media_list.len(), 1);
    assert_eq!(t.tokenize_state.media_list[0].start, (4, 7));
    assert_eq!(t.tokenize_state.media_list[0].end, (8, 9));
    assert_eq!(t.tokenize_state.end, 0);
    assert_eq!(t.resolvers, vec![ResolveName::Label]);
}

#[test]
fn no_links_in_links() {
    let mut t = tokenizer(b"[a [b](c)]", &[]);
    t.events = link_start(0);
    t.events.extend(link_start(3));
    t.events.push(event(Kind::Enter, Name::LabelEnd, 5));
    t.events.push(event(Kind::Exit, Name::LabelEnd, 6));
    t.tokenize_state.label_start_stack.push(LabelStart { start: (0, 3), inactive: false });
    t.tokenize_state.label_start_stack.push(LabelStart { start: (4, 7), inactive: false });
    t.tokenize_state.end = 8;
    label_end::ok(&mut t);
    // The outer link can no longer end.
    t.current = Some(b']');
    assert_eq!(label_end::start(&mut t), State::Retry(StateName::LabelEndNok));
}

#[test]
fn ok_on_image_keeps_links_active() {
    let mut t = tokenizer(b"[a ![b](c)", &[]);
    t.events = link_start(0);
    t.events.push(event(Kind::Enter, Name::LabelImage, 3));
    t.events.push(event(Kind::Enter, Name::LabelImageMarker, 3));
    t.events.push(event(Kind::Exit, Name::LabelImageMarker, 4));
    t.events.push(event(Kind::Enter, Name::LabelMarker, 4));
    t.events.push(event(Kind::Exit, Name::LabelMarker, 5));
    t.events.push(event(Kind::Exit, Name::LabelImage, 5));
    t.tokenize_state.label_start_stack.push(LabelStart { start: (0, 3), inactive: false });
    t.tokenize_state.label_start_stack.push(LabelStart { start: (4, 9), inactive: false });
    t.tokenize_state.end = 9;
    label_end::ok(&mut t);
    assert!(!t.tokenize_state.label_start_stack[0].inactive);
}

#[test]
fn nok_moves_label_start_to_loose() {
    let mut t = tokenizer(b"[a] b", &[]);
    t.tokenize_state.label_start_stack.push(LabelStart { start: (0, 3), inactive: false });
    t.tokenize_state.end = 6;
    assert_eq!(label_end::nok(&mut t), State::Nok);
    assert!(t.tokenize_state.label_start_stack.is_empty());
    assert_eq!(t.tokenize_state.label_start_list_loose.len(), 1);
    assert_eq!(t.tokenize_state.label_start_list_loose[0].start, (0, 3));
    assert_eq!(t.tokenize_state.end, 0);
}

#[test]
fn resource_start_marks_paren() {
    let mut t = tokenizer(b"(b)", &[]);
    t.current = Some(b'(');
    assert_eq!(label_end::resource_start(&mut t), State::Next(StateName::LabelEndResourceBefore));
    assert_eq!(t.stack, vec![Name::Resource]);
    assert_eq!(t.events.len(), 3);
    assert_eq!(t.events[1].name, Name::ResourceMarker);
    assert_eq!(t.events[2].point.index, 1);
}

#[test]
fn resource_before_tries_whitespace() {
    let mut t = tokenizer(b"( b)", &[]);
    t.tokenize_state.space_or_tab_eol_connect = true;
    assert_eq!(label_end::resource_before(&mut t), State::Retry(StateName::SpaceOrTabEolStart));
    assert_eq!(t.attempts[0].ok, State::Next(StateName::LabelEndResourceOpen));
    assert_eq!(t.attempts[0].nok, State::Next(StateName::LabelEndResourceOpen));
    assert!(!t.tokenize_state.space_or_tab_eol_connect);
    assert_eq!(t.tokenize_state.space_or_tab_eol_content_type, None);
}

#[test]
fn resource_open_at_paren_ends() {
    let mut t = tokenizer(b")", &[]);
    t.current = Some(b')');
    assert_eq!(label_end::resource_open(&mut t), State::Retry(StateName::LabelEndResourceEnd));
    assert!(t.attempts.is_empty());
}

#[test]
fn resource_open_tries_destination() {
    let mut t = tokenizer(b"b)", &[]);
    t.current = Some(b'b');
    assert_eq!(label_end::resource_open(&mut t), State::Retry(StateName::DestinationStart));
    assert_eq!(t.tokenize_state.token_1, Name::ResourceDestination);
    assert_eq!(t.tokenize_state.token_2, Name::ResourceDestinationLiteral);
    assert_eq!(t.tokenize_state.token_3, Name::ResourceDestinationLiteralMarker);
    assert_eq!(t.tokenize_state.token_4, Name::ResourceDestinationRaw);
    assert_eq!(t.tokenize_state.token_5, Name::ResourceDestinationString);
    assert_eq!(t.tokenize_state.size_b, 32);
    assert_eq!(t.attempts[0].ok, State::Next(StateName::LabelEndResourceDestinationAfter));
    assert_eq!(t.attempts[0].nok, State::Next(StateName::LabelEndResourceDestinationMissing));
}

#[test]
fn resource_destination_after_clears_tokens() {
    let mut t = tokenizer(b"b )", &[]);
    t.current = Some(b'b');
    label_end::resource_open(&mut t);
    assert_eq!(
        label_end::resource_destination_after(&mut t),
        State::Retry(StateName::SpaceOrTabEolStart)
    );
    assert_eq!(t.tokenize_state.token_1, Name::Data);
    assert_eq!(t.tokenize_state.token_5, Name::Data);
    assert_eq!(t.tokenize_state.size_b, 0);
    assert_eq!(t.attempts[1].ok, State::Next(StateName::LabelEndResourceBetween));
    assert_eq!(t.attempts[1].nok, State::Next(StateName::LabelEndResourceEnd));
}

#[test]
fn resource_destination_missing_fails() {
    let mut t = tokenizer(b"<", &[]);
    t.current = Some(b'<');
    label_end::resource_open(&mut t);
    assert_eq!(label_end::resource_destination_missing(&mut t), State::Nok);
    assert_eq!(t.tokenize_state.token_1, Name::Data);
    assert_eq!(t.tokenize_state.token_4, Name::Data);
    assert_eq!(t.tokenize_state.size_b, 0);
}

#[test]
fn resource_between_at_title() {
    for byte in [b'"', b'\'', b'('] {
        let mut t = tokenizer(b"\"c\")", &[]);
        t.current = Some(byte);
        assert_eq!(label_end::resource_between(&mut t), State::Retry(StateName::TitleStart));
        assert_eq!(t.tokenize_state.token_1, Name::ResourceTitle);
        assert_eq!(t.tokenize_state.token_2, Name::ResourceTitleMarker);
        assert_eq!(t.tokenize_state.token_3, Name::ResourceTitleString);
        assert_eq!(t.attempts[0].ok, State::Next(StateName::LabelEndResourceTitleAfter));
        assert_eq!(t.attempts[0].nok, State::Nok);
    }
    let mut t = tokenizer(b")", &[]);
    t.current = Some(b')');
    assert_eq!(label_end::resource_between(&mut t), State::Retry(StateName::LabelEndResourceEnd));
}

#[test]
fn resource_title_after_tries_whitespace() {
    let mut t = tokenizer(b" )", &[]);
    t.tokenize_state.token_1 = Name::ResourceTitle;
    assert_eq!(label_end::resource_title_after(&mut t), State::Retry(StateName::SpaceOrTabEolStart));
    assert_eq!(t.tokenize_state.token_1, Name::Data);
    assert_eq!(t.attempts[0].ok, State::Next(StateName::LabelEndResourceEnd));
    assert_eq!(t.attempts[0].nok, State::Next(StateName::LabelEndResourceEnd));
}

#[test]
fn resource_end_closes_resource() {
    let mut t = tokenizer(b"()", &[]);
    t.current = Some(b'(');
    label_end::resource_start(&mut t);
    t.current = Some(b')');
    assert_eq!(label_end::resource_end(&mut t), State::Okay);
    assert!(t.stack.is_empty());
    assert_eq!(t.events.len(), 6);
    assert_eq!(t.events[5].kind, Kind::Exit);
    assert_eq!(t.events[5].name, Name::Resource);

    let mut other = tokenizer(b"(b", &[]);
    other.current = Some(b'b');
    assert_eq!(label_end::resource_end(&mut other), State::Nok);
}

#[test]
fn reference_full_tries_label() {
    let mut t = tokenizer(b"[b]", &[]);
    t.current = Some(b'[');
    assert_eq!(label_end::reference_full(&mut t), State::Retry(StateName::LabelStart));
    assert_eq!(t.tokenize_state.token_1, Name::Reference);
    assert_eq!(t.tokenize_state.token_2, Name::ReferenceMarker);
    assert_eq!(t.tokenize_state.token_3, Name::ReferenceString);
    assert_eq!(t.attempts[0].ok, State::Next(StateName::LabelEndReferenceFullAfter));
    assert_eq!(t.attempts[0].nok, State::Nok);
}

fn after_full_reference(definitions: &[&str]) -> Tokenizer {
    // `[a][b]`, after the second label.
    let mut t = tokenizer(b"[a][b]", definitions);
    t.events = vec![
        event(Kind::Enter, Name::Reference, 3),
        event(Kind::Enter, Name::ReferenceMarker, 3),
        event(Kind::Exit, Name::ReferenceMarker, 4),
        event(Kind::Enter, Name::ReferenceString, 4),
        event(Kind::Enter, Name::Data, 4),
        event(Kind::Exit, Name::Data, 5),
        event(Kind::Exit, Name::ReferenceString, 5),
        event(Kind::Enter, Name::ReferenceMarker, 5),
        event(Kind::Exit, Name::ReferenceMarker, 6),
        event(Kind::Exit, Name::Reference, 6),
    ];
    t.tokenize_state.token_1 = Name::Reference;
    t
}

#[test]
fn reference_full_after_defined() {
    let mut t = after_full_reference(&["B"]);
    assert_eq!(label_end::reference_full_after(&mut t), State::Okay);
    assert_eq!(t.tokenize_state.token_1, Name::Data);
}

#[test]
fn reference_full_after_undefined() {
    let mut t = after_full_reference(&["A"]);
    assert_eq!(label_end::reference_full_after(&mut t), State::Nok);
    assert_eq!(t.tokenize_state.token_1, Name::Data);
}

#[test]
fn reference_collapsed_marks_brackets() {
    let mut t = tokenizer(b"[]", &[]);
    t.current = Some(b'[');
    assert_eq!(
        label_end::reference_collapsed(&mut t),
        State::Next(StateName::LabelEndReferenceCollapsedOpen)
    );
    t.current = Some(b']');
    assert_eq!(label_end::reference_collapsed_open(&mut t), State::Okay);
    let names: Vec<(Kind, Name)> = t.events.iter().map(|e| (e.kind, e.name)).collect();
    assert_eq!(
        names,
        vec![
            (Kind::Enter, Name::Reference),
            (Kind::Enter, Name::ReferenceMarker),
            (Kind::Exit, Name::ReferenceMarker),
            (Kind::Enter, Name::ReferenceMarker),
            (Kind::Exit, Name::ReferenceMarker),
            (Kind::Exit, Name::Reference),
        ]
    );
    assert_eq!(t.point.index, 2);
}

#[test]
fn reference_collapsed_elsewhere_fails() {
    let mut t = tokenizer(b"[b]", &[]);
    t.current = Some(b'b');
    assert_eq!(label_end::reference_collapsed(&mut t), State::Nok);
    assert_eq!(label_end::reference_collapsed_open(&mut t), State::Nok);
    assert!(t.events.is_empty());
}

#[test]
fn resolve_forms_link() {
    // `[a]()`
    let mut t = tokenizer(b"[a]()", &[]);
    let mut events = link_start(0);
    events.extend(vec![
        event(Kind::Enter, Name::Data, 1),
        event(Kind::Exit, Name::Data, 2),
        event(Kind::Enter, Name::LabelEnd, 2),
        event(Kind::Enter, Name::LabelMarker, 2),
        event(Kind::Exit, Name::LabelMarker, 3),
        event(Kind::Exit, Name::LabelEnd, 3),
        event(Kind::Enter, Name::Resource, 3),
        event(Kind::Enter, Name::ResourceMarker, 3),
        event(Kind::Exit, Name::ResourceMarker, 4),
        event(Kind::Enter, Name::ResourceMarker, 4),
        event(Kind::Exit, Name::ResourceMarker, 5),
        event(Kind::Exit, Name::Resource, 5),
    ]);
    t.events = events;
    t.tokenize_state.media_list.push(Media { start: (0, 3), end: (6, 15) });
    label_end::resolve(&mut t);
    let names: Vec<(Kind, Name)> = t.events.iter().map(|e| (e.kind, e.name)).collect();
    assert_eq!(
        names,
        vec![
            (Kind::Enter, Name::Link),
            (Kind::Enter, Name::Label),
            (Kind::Enter, Name::LabelLink),
            (Kind::Enter, Name::LabelMarker),
            (Kind::Exit, Name::LabelMarker),
            (Kind::Exit, Name::LabelLink),
            (Kind::Enter, Name::LabelText),
            (Kind::Enter, Name::Data),
            (Kind::Exit, Name::Data),
            (Kind::Exit, Name::LabelText),
            (Kind::Enter, Name::LabelEnd),
            (Kind::Enter, Name::LabelMarker),
            (Kind::Exit, Name::LabelMarker),
            (Kind::Exit, Name::LabelEnd),
            (Kind::Exit, Name::Label),
            (Kind::Enter, Name::Resource),
            (Kind::Enter, Name::ResourceMarker),
            (Kind::Exit, Name::ResourceMarker),
            (Kind::Enter, Name::ResourceMarker),
            (Kind::Exit, Name::ResourceMarker),
            (Kind::Exit, Name::Resource),
            (Kind::Exit, Name::Link),
        ]
    );
    assert_eq!(t.events[14].point.index, 3);
    assert_eq!(t.events[21].point.index, 5);
    assert!(t.tokenize_state.media_list.is_empty());
}

#[test]
fn resolve_forms_image_without_text() {
    // `![]()`
    let mut t = tokenizer(b"![]()", &[]);
    t.events = vec![
        event(Kind::Enter, Name::LabelImage, 0),
        event(Kind::Enter, Name::LabelImageMarker, 0),
        event(Kind::Exit, Name::LabelImageMarker, 1),
        event(Kind::Enter, Name::LabelMarker, 1),
        event(Kind::Exit, Name::LabelMarker, 2),
        event(Kind::Exit, Name::LabelImage, 2),
        event(Kind::Enter, Name::LabelEnd, 2),
        event(Kind::Enter, Name::LabelMarker, 2),
        event(Kind::Exit, Name::LabelMarker, 3),
        event(Kind::Exit, Name::LabelEnd, 3),
        event(Kind::Enter, Name::Resource, 3),
        event(Kind::Exit, Name::Resource, 5),
    ];
    t.tokenize_state.media_list.push(Media { start: (0, 5), end: (6, 11) });
    label_end::resolve(&mut t);
    let names: Vec<(Kind, Name)> = t.events.iter().map(|e| (e.kind, e.name)).collect();
    assert_eq!(names.len(), 16);
    assert_eq!(names[0], (Kind::Enter, Name::Image));
    assert_eq!(names[1], (Kind::Enter, Name::Label));
    assert_eq!(names[8], (Kind::Enter, Name::LabelEnd));
    assert_eq!(names[12], (Kind::Exit, Name::Label));
    assert_eq!(names[15], (Kind::Exit, Name::Image));
    assert!(!names.contains(&(Kind::Enter, Name::LabelText)));
}

#[test]
fn resolve_turns_loose_label_starts_into_data() {
    // `[a` and `[b] c`, neither matched.
    let mut t = tokenizer(b"[a [b] c", &[]);
    let mut events = link_start(0);
    events.push(event(Kind::Enter, Name::Data, 1));
    events.push(event(Kind::Exit, Name::Data, 3));
    events.extend(link_start(3));
    t.events = events;
    t.tokenize_state.label_start_list_loose.push(LabelStart { start: (6, 9), inactive: false });
    t.tokenize_state.label_start_stack.push(LabelStart { start: (0, 3), inactive: false });
    label_end::resolve(&mut t);
    let names: Vec<(Kind, Name)> = t.events.iter().map(|e| (e.kind, e.name)).collect();
    assert_eq!(
        names,
        vec![
            (Kind::Enter, Name::Data),
            (Kind::Exit, Name::Data),
            (Kind::Enter, Name::Data),
            (Kind::Exit, Name::Data),
            (Kind::Enter, Name::Data),
            (Kind::Exit, Name::Data),
        ]
    );
    assert_eq!(t.events[0].point.index, 0);
    assert_eq!(t.events[1].point.index, 1);
    assert_eq!(t.events[4].point.index, 3);
    assert!(t.tokenize_state.label_start_stack.is_empty());
    assert!(t.tokenize_state.label_start_list_loose.is_empty());
}

#[test]
fn label_end_settles_one_label_start() {
    let mut t = tokenizer(b"[a [b] c", &[]);
    t.events = link_start(0);
    t.events.extend(link_start(3));
    t.tokenize_state.label_start_stack.push(LabelStart { start: (0, 3), inactive: false });
    t.tokenize_state.label_start_stack.push(LabelStart { start: (4, 7), inactive: false });
    let count = |t: &Tokenizer| {
        t.tokenize_state.label_start_stack.len()
            + t.tokenize_state.label_start_list_loose.len()
            + t.tokenize_state.media_list.len()
    };
    assert_eq!(count(&t), 2);
    label_end::nok(&mut t);
    assert_eq!(count(&t), 2);
    t.tokenize_state.end = 7;
    label_end::ok(&mut t);
    assert_eq!(count(&t), 2);
    assert!(t.tokenize_state.label_start_stack.is_empty());
}

fn image_start(index: usize) -> Vec<Event> {
    vec![
        event(Kind::Enter, Name::LabelImage, index),
        event(Kind::Enter, Name::LabelImageMarker, index),
        event(Kind::Exit, Name::LabelImageMarker, index + 1),
        event(Kind::Enter, Name::LabelMarker, index + 1),
        event(Kind::Exit, Name::LabelMarker, index + 2),
        event(Kind::Exit, Name::LabelImage, index + 2),
    ]
}

fn label_end_events(index: usize) -> Vec<Event> {
    vec![
        event(Kind::Enter, Name::LabelEnd, index),
        event(Kind::Enter, Name::LabelMarker, index),
        event(Kind::Exit, Name::LabelMarker, index + 1),
        event(Kind::Exit, Name::LabelEnd, index + 1),
    ]
}

fn shape(events: &[Event]) -> Vec<(Kind, Name, usize)> {
    events.iter().map(|e| (e.kind, e.name, e.point.index)).collect()
}

/// Whether each exit closes the innermost open span of the same name.
fn well_nested(events: &[Event]) -> bool {
    let mut open: Vec<Name> = vec![];
    for e in events {
        match e.kind {
            Kind::Enter => open.push(e.name),
            Kind::Exit => {
                if open.pop() != Some(e.name) {
                    return false;
                }
            }
        }
    }
    open.is_empty()
}

#[test]
fn resolve_image_in_link() {
    // `[![a]]`: the image matched first, then the link.
    let mut t = tokenizer(b"[![a]]", &[]);
    let mut events = link_start(0);
    events.extend(image_start(1));
    events.push(event(Kind::Enter, Name::Data, 3));
    events.push(event(Kind::Exit, Name::Data, 4));
    events.extend(label_end_events(4));
    events.extend(label_end_events(5));
    t.events = events.clone();
    t.tokenize_state.media_list.push(Media { start: (4, 9), end: (12, 15) });
    t.tokenize_state.media_list.push(Media { start: (0, 3), end: (16, 19) });
    label_end::resolve(&mut t);

    let mut expected = vec![
        event(Kind::Enter, Name::Link, 0),
        event(Kind::Enter, Name::Label, 0),
    ];
    expected.extend(link_start(0));
    expected.push(event(Kind::Enter, Name::LabelText, 1));
    expected.push(event(Kind::Enter, Name::Image, 1));
    expected.push(event(Kind::Enter, Name::Label, 1));
    expected.extend(image_start(1));
    expected.push(event(Kind::Enter, Name::LabelText, 3));
    expected.push(event(Kind::Enter, Name::Data, 3));
    expected.push(event(Kind::Exit, Name::Data, 4));
    expected.push(event(Kind::Exit, Name::LabelText, 4));
    expected.extend(label_end_events(4));
    expected.push(event(Kind::Exit, Name::Label, 5));
    expected.push(event(Kind::Exit, Name::Image, 5));
    expected.push(event(Kind::Exit, Name::LabelText, 5));
    expected.extend(label_end_events(5));
    expected.push(event(Kind::Exit, Name::Label, 6));
    expected.push(event(Kind::Exit, Name::Link, 6));
    assert_eq!(t.events.len(), 32);
    assert_eq!(shape(&t.events), shape(&expected));
    assert!(well_nested(&t.events));
    assert!(t.tokenize_state.media_list.is_empty());
}

#[test]
fn resolve_unmatched_start_after_link() {
    // `[a]![b`: the link matched, the image start did not.
    let mut t = tokenizer(b"[a]![b", &[]);
    let mut events = link_start(0);
    events.push(event(Kind::Enter, Name::Data, 1));
    events.push(event(Kind::Exit, Name::Data, 2));
    events.extend(label_end_events(2));
    events.extend(image_start(3));
    events.push(event(Kind::Enter, Name::Data, 5));
    events.push(event(Kind::Exit, Name::Data, 6));
    t.events = events;
    t.tokenize_state.media_list.push(Media { start: (0, 3), end: (6, 9) });
    t.tokenize_state.label_start_stack.push(LabelStart { start: (10, 15), inactive: false });
    label_end::resolve(&mut t);

    let mut expected = vec![
        event(Kind::Enter, Name::Link, 0),
        event(Kind::Enter, Name::Label, 0),
    ];
    expected.extend(link_start(0));
    expected.push(event(Kind::Enter, Name::LabelText, 1));
    expected.push(event(Kind::Enter, Name::Data, 1));
    expected.push(event(Kind::Exit, Name::Data, 2));
    expected.push(event(Kind::Exit, Name::LabelText, 2));
    expected.extend(label_end_events(2));
    expected.push(event(Kind::Exit, Name::Label, 3));
    expected.push(event(Kind::Exit, Name::Link, 3));
    expected.push(event(Kind::Enter, Name::Data, 3));
    expected.push(event(Kind::Exit, Name::Data, 5));
    expected.push(event(Kind::Enter, Name::Data, 5));
    expected.push(event(Kind::Exit, Name::Data, 6));
    assert_eq!(t.events.len(), 20);
    assert_eq!(shape(&t.events), shape(&expected));
    assert!(well_nested(&t.events));
    assert!(t.tokenize_state.label_start_stack.is_empty());
}

#[test]
fn resolve_unmatched_start_inside_link_text() {
    // `[[a](b)`: the inner link matched, the outer start did not.
    let mut t = tokenizer(b"[[a]()", &[]);
    let mut events = link_start(0);
    events.extend(link_start(1));
    events.push(event(Kind::Enter, Name::Data, 2));
    events.push(event(Kind::Exit, Name::Data, 3));
    events.extend(label_end_events(3));
    t.events = events;
    t.tokenize_state.media_list.push(Media { start: (4, 7), end: (10, 13) });
    t.tokenize_state.label_start_list_loose.push(LabelStart { start: (0, 3), inactive: false });
    label_end::resolve(&mut t);
    assert!(well_nested(&t.events));
    assert_eq!(t.events[0].name, Name::Data);
    assert_eq!(t.events[2].name, Name::Link);
}

#[test]
fn resolve_unmatched_image_start_after_empty_link() {
    // `[]![`: an empty link, then an image start that did not match.
    let mut t = tokenizer(b"[]![", &[]);
    let mut events = link_start(0);
    events.extend(label_end_events(1));
    events.extend(image_start(2));
    t.events = events;
    t.tokenize_state.media_list.push(Media { start: (0, 3), end: (4, 7) });
    t.tokenize_state.label_start_stack.push(LabelStart { start: (8, 13), inactive: false });
    label_end::resolve(&mut t);

    let mut expected = vec![
        event(Kind::Enter, Name::Link, 0),
        event(Kind::Enter, Name::Label, 0),
    ];
    expected.extend(link_start(0));
    expected.extend(label_end_events(1));
    expected.push(event(Kind::Exit, Name::Label, 2));
    expected.push(event(Kind::Exit, Name::Link, 2));
    expected.push(event(Kind::Enter, Name::Data, 2));
    expected.push(event(Kind::Exit, Name::Data, 4));
    assert_eq!(t.events.len(), 14);
    assert_eq!(shape(&t.events), shape(&expected));
    assert!(well_nested(&t.events));
    assert!(t.tokenize_state.label_start_stack.is_empty());
    assert!(t.tokenize_state.media_list.is_empty());
}

#[test]
fn resolve_unmatched_start_first_in_link_text() {
    // `[[a]]`: the inner start did not match; the outer label is a link
    // whose text starts with that start, now data.
    let mut t = tokenizer(b"[[a]]", &["[a]"]);
    let mut events = link_start(0);
    events.extend(link_start(1));
    events.push(event(Kind::Enter, Name::Data, 2));
    events.push(event(Kind::Exit, Name::Data, 3));
    events.extend(label_end_events(3));
    events.extend(label_end_events(4));
    t.events = events;
    t.tokenize_state.media_list.push(Media { start: (0, 3), end: (14, 17) });
    t.tokenize_state.label_start_list_loose.push(LabelStart { start: (4, 7), inactive: false });
    label_end::resolve(&mut t);

    let mut expected = vec![
        event(Kind::Enter, Name::Link, 0),
        event(Kind::Enter, Name::Label, 0),
    ];
    expected.extend(link_start(0));
    expected.push(event(Kind::Enter, Name::LabelText, 1));
    expected.push(event(Kind::Enter, Name::Data, 1));
    expected.push(event(Kind::Exit, Name::Data, 2));
    expected.push(event(Kind::Enter, Name::Data, 2));
    expected.push(event(Kind::Exit, Name::Data, 3));
    expected.extend(label_end_events(3));
    expected.push(event(Kind::Exit, Name::LabelText, 4));
    expected.extend(label_end_events(4));
    expected.push(event(Kind::Exit, Name::Label, 5));
    expected.push(event(Kind::Exit, Name::Link, 5));
    assert_eq!(t.events.len(), 22);
    assert_eq!(shape(&t.events), shape(&expected));
    assert!(well_nested(&t.events));
}

#[test]
fn resolve_link_with_resource_wraps_its_parts() {
    // `[a](b)`: one link with a resource.
    let mut t = tokenizer(b"[a](b)", &[]);
    let mut events = link_start(0);
    events.push(event(Kind::Enter, Name::Data, 1));
    events.push(event(Kind::Exit, Name::Data, 2));
    events.extend(label_end_events(2));
    events.push(event(Kind::Enter, Name::Resource, 3));
    events.push(event(Kind::Enter, Name::ResourceMarker, 3));
    events.push(event(Kind::Exit, Name::ResourceMarker, 4));
    events.push(event(Kind::Enter, Name::Data, 4));
    events.push(event(Kind::Exit, Name::Data, 5));
    events.push(event(Kind::Enter, Name::ResourceMarker, 5));
    events.push(event(Kind::Exit, Name::ResourceMarker, 6));
    events.push(event(Kind::Exit, Name::Resource, 6));
    t.events = events;
    t.tokenize_state.media_list.push(Media { start: (0, 3), end: (6, 17) });
    label_end::resolve(&mut t);
    assert_eq!(t.events.len(), 24);
    assert!(well_nested(&t.events));
    assert_eq!(t.events[0].name, Name::Link);
    assert_eq!(t.events[6].name, Name::LabelText);
    assert_eq!(t.events[14].name, Name::Label);
    assert_eq!(t.events[14].kind, Kind::Exit);
    assert_eq!(t.events[23].name, Name::Link);
    assert_eq!(t.events[23].kind, Kind::Exit);
}

#[test]
fn resolve_unmatched_starts_stay_well_nested() {
    // `![a *b* [c`: two starts, neither matched, around other spans.
    let mut t = tokenizer(b"![a *b* [c", &[]);
    let mut events = image_start(0);
    events.push(event(Kind::Enter, Name::Data, 2));
    events.push(event(Kind::Exit, Name::Data, 4));
    events.push(event(Kind::Enter, Name::Paragraph, 4));
    events.push(event(Kind::Enter, Name::Data, 4));
    events.push(event(Kind::Exit, Name::Data, 7));
    events.push(event(Kind::Exit, Name::Paragraph, 7));
    events.extend(link_start(8));
    events.push(event(Kind::Enter, Name::Data, 9));
    events.push(event(Kind::Exit, Name::Data, 10));
    t.events = events;
    t.tokenize_state.label_start_list_loose.push(LabelStart { start: (0, 5), inactive: false });
    t.tokenize_state.label_start_stack.push(LabelStart { start: (12, 15), inactive: false });
    label_end::resolve(&mut t);
    assert_eq!(t.events.len(), 12);
    assert!(well_nested(&t.events));
    assert_eq!(t.events[0].name, Name::Data);
    assert_eq!(t.events[1].point.index, 2);
    assert_eq!(t.events[8].name, Name::Data);
    assert_eq!(t.events[8].point.index, 8);
    assert_eq!(t.events[9].point.index, 9);
}

/// Events of a resource `(x)` whose `(` is at byte `index`.
fn resource_events(index: usize) -> Vec<Event> {
    vec![
        event(Kind::Enter, Name::Resource, index),
        event(Kind::Enter, Name::ResourceMarker, index),
        event(Kind::Exit, Name::ResourceMarker, index + 1),
        event(Kind::Enter, Name::Data, index + 1),
        event(Kind::Exit, Name::Data, index + 2),
        event(Kind::Enter, Name::ResourceMarker, index + 2),
        event(Kind::Exit, Name::ResourceMarker, index + 3),
        event(Kind::Exit, Name::Resource, index + 3),
    ]
}

#[test]
fn resolve_image_with_resource_in_link_with_resource() {
    // `[![a](b)](c)`: the image matched first, then the link.
    let mut t = tokenizer(b"[![a](b)](c)", &[]);
    let mut events = link_start(0);
    events.extend(image_start(1));
    events.push(event(Kind::Enter, Name::Data, 3));
    events.push(event(Kind::Exit, Name::Data, 4));
    events.extend(label_end_events(4));
    events.extend(resource_events(5));
    events.extend(label_end_events(8));
    events.extend(resource_events(9));
    t.events = events;
    t.tokenize_state.media_list.push(Media { start: (4, 9), end: (12, 23) });
    t.tokenize_state.media_list.push(Media { start: (0, 3), end: (24, 35) });
    label_end::resolve(&mut t);
    assert_eq!(t.events.len(), 48);
    assert!(well_nested(&t.events));
    let opens: Vec<Name> = t
        .events
        .iter()
        .filter(|e| e.kind == Kind::Enter && matches!(e.name, Name::Link | Name::Image | Name::Label | Name::LabelText))
        .map(|e| e.name)
        .collect();
    assert_eq!(
        opens,
        vec![Name::Link, Name::Label, Name::LabelText, Name::Image, Name::Label, Name::LabelText]
    );
    assert_eq!(t.events[47].name, Name::Link);
    assert_eq!(t.events[47].point.index, 12);
}
