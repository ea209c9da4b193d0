//! The tokenizer's state: where it is in the document, which events it has
//! emitted, which spans are open, and what the constructs remember between
//! states.

use vstd::prelude::*;
use crate::event::{Content, Event, Kind, Link, Name, Point};
use crate::resolve::Name as ResolveName;
use crate::state::State;
use crate::util::edit_map::EditMap;

verus! {

/// Which constructs are turned on.
#[derive(Clone, Copy, Debug)]
pub struct Constructs {
    /// Code (indented).
    pub code_indented: bool,
    /// Heading (setext).
    pub heading_setext: bool,
    /// Label end.
    pub label_end: bool,
}

/// Label start, looking for an end.
#[derive(Clone, Copy, Debug)]
pub struct LabelStart {
    /// Indices of the enter and exit events of the label start.
    pub start: (usize, usize),
    /// A label start that can no longer form a link.
    pub inactive: bool,
}

/// A matched label start and label end.
#[derive(Clone, Copy, Debug)]
pub struct Media {
    /// Indices of the enter and exit events of the label start.
    pub start: (usize, usize),
    /// Indices of the label end enter event and of the last event of the media.
    pub end: (usize, usize),
}

/// Where the tokenizer was when an attempt began.
#[derive(Clone, Copy, Debug)]
pub struct Progress {
    /// Previous byte.
    pub previous: Option<u8>,
    /// Current byte.
    pub current: Option<u8>,
    /// Current place.
    pub point: Point,
    /// Number of events.
    pub events_len: usize,
    /// Number of open spans.
    pub stack_len: usize,
}

/// An attempt: where to go when the construct that is tried next succeeds or
/// fails, and where the tokenizer was when it began.
#[derive(Clone, Copy, Debug)]
pub struct Attempt {
    /// State after success.
    pub ok: State,
    /// State after failure.
    pub nok: State,
    /// Where the tokenizer was.
    pub progress: Progress,
}

/// Information shared by all tokenizers of a document.
pub struct ParseState {
    /// Constructs that are turned on.
    pub constructs: Constructs,
    /// The whole document.
    pub bytes: Vec<u8>,
    /// Normalized identifiers of the definitions in the document.
    pub definitions: Vec<String>,
}

/// Model of a parse state: the same fields, with sequences in place of
/// vectors and character sequences in place of strings.
pub struct ParseStateModel {
    pub constructs: Constructs,
    pub bytes: Seq<u8>,
    pub definitions: Seq<Seq<char>>,
}

impl View for ParseState {
    type V = ParseStateModel;

    open spec fn view(&self) -> ParseStateModel {
        ParseStateModel {
            constructs: self.constructs,
            bytes: self.bytes@,
            definitions: self.definitions@.map_values(|d: String| d@),
        }
    }
}

/// What constructs remember while the tokenizer moves between their states.
pub struct TokenizeState {
    /// Marker of a heading (setext) underline.
    pub marker: u8,
    /// Index of the label end enter event.
    pub end: usize,
    /// Limit of unbalanced parens in a destination.
    pub size_b: usize,
    /// First token name to use in a partial construct.
    pub token_1: Name,
    /// Second token name to use in a partial construct.
    pub token_2: Name,
    /// Third token name to use in a partial construct.
    pub token_3: Name,
    /// Fourth token name to use in a partial construct.
    pub token_4: Name,
    /// Fifth token name to use in a partial construct.
    pub token_5: Name,
    /// Label starts that are still open.
    pub label_start_stack: Vec<LabelStart>,
    /// Label starts that did not match.
    pub label_start_list_loose: Vec<LabelStart>,
    /// Matched label starts and ends.
    pub media_list: Vec<Media>,
    /// Content type of `space_or_tab_eol`.
    pub space_or_tab_eol_content_type: Option<Content>,
    /// Whether `space_or_tab_eol` connects to previous content.
    pub space_or_tab_eol_connect: bool,
    /// Whether `space_or_tab_eol` has seen whitespace before the line ending.
    pub space_or_tab_eol_ok: bool,
    /// Whether `space_or_tab` connects to previous content.
    pub space_or_tab_connect: bool,
    /// Content type of `space_or_tab`.
    pub space_or_tab_content_type: Option<Content>,
    /// Minimum size of `space_or_tab`.
    pub space_or_tab_min: usize,
    /// Maximum size of `space_or_tab`.
    pub space_or_tab_max: usize,
    /// Token name of `space_or_tab`.
    pub space_or_tab_token: Name,
}

/// Model of the construct state: the same fields, with sequences in place
/// of vectors.
pub struct TokenizeStateModel {
    pub marker: u8,
    pub end: usize,
    pub size_b: usize,
    pub token_1: Name,
    pub token_2: Name,
    pub token_3: Name,
    pub token_4: Name,
    pub token_5: Name,
    pub label_start_stack: Seq<LabelStart>,
    pub label_start_list_loose: Seq<LabelStart>,
    pub media_list: Seq<Media>,
    pub space_or_tab_eol_content_type: Option<Content>,
    pub space_or_tab_eol_connect: bool,
    pub space_or_tab_eol_ok: bool,
    pub space_or_tab_connect: bool,
    pub space_or_tab_content_type: Option<Content>,
    pub space_or_tab_min: usize,
    pub space_or_tab_max: usize,
    pub space_or_tab_token: Name,
}

impl View for TokenizeState {
    type V = TokenizeStateModel;

    open spec fn view(&self) -> TokenizeStateModel {
        TokenizeStateModel {
            marker: self.marker,
            end: self.end,
            size_b: self.size_b,
            token_1: self.token_1,
            token_2: self.token_2,
            token_3: self.token_3,
            token_4: self.token_4,
            token_5: self.token_5,
            label_start_stack: self.label_start_stack@,
            label_start_list_loose: self.label_start_list_loose@,
            media_list: self.media_list@,
            space_or_tab_eol_content_type: self.space_or_tab_eol_content_type,
            space_or_tab_eol_connect: self.space_or_tab_eol_connect,
            space_or_tab_eol_ok: self.space_or_tab_eol_ok,
            space_or_tab_connect: self.space_or_tab_connect,
            space_or_tab_content_type: self.space_or_tab_content_type,
            space_or_tab_min: self.space_or_tab_min,
            space_or_tab_max: self.space_or_tab_max,
            space_or_tab_token: self.space_or_tab_token,
        }
    }
}

/// A tokenizer: walks through the bytes of a document with a state machine
/// and emits events.
pub struct Tokenizer {
    /// Byte before the current one.
    pub previous: Option<u8>,
    /// Current byte (`None` at the end of the document, or once consumed).
    pub current: Option<u8>,
    /// Whether the current byte was consumed.
    pub consumed: bool,
    /// Current place.
    pub point: Point,
    /// Emitted events.
    pub events: Vec<Event>,
    /// Names of the spans that are open.
    pub stack: Vec<Name>,
    /// Pending changes to the events.
    pub map: EditMap,
    /// Attempts that are in progress.
    pub attempts: Vec<Attempt>,
    /// Resolvers to run once done.
    pub resolvers: Vec<ResolveName>,
    /// Whether the current flow construct may be interrupted.
    pub interrupt: bool,
    /// Whether the current line is lazy (a continuation without prefix).
    pub lazy: bool,
    /// Shared information about the document.
    pub parse_state: ParseState,
    /// What constructs remember.
    pub tokenize_state: TokenizeState,
}

/// Model of a tokenizer: the same fields, with sequences in place of vectors
/// and the model of the edit map.
pub struct TokenizerModel {
    pub previous: Option<u8>,
    pub current: Option<u8>,
    pub consumed: bool,
    pub point: Point,
    pub events: Seq<Event>,
    pub stack: Seq<Name>,
    pub map: Map<usize, (usize, Seq<Event>)>,
    pub attempts: Seq<Attempt>,
    pub resolvers: Seq<ResolveName>,
    pub interrupt: bool,
    pub lazy: bool,
    pub parse_state: ParseStateModel,
    pub tokenize_state: TokenizeStateModel,
}

impl View for Tokenizer {
    type V = TokenizerModel;

    open spec fn view(&self) -> TokenizerModel {
        TokenizerModel {
            previous: self.previous,
            current: self.current,
            consumed: self.consumed,
            point: self.point,
            events: self.events@,
            stack: self.stack@,
            map: self.map@,
            attempts: self.attempts@,
            resolvers: self.resolvers@,
            interrupt: self.interrupt,
            lazy: self.lazy,
            parse_state: self.parse_state@,
            tokenize_state: self.tokenize_state@,
        }
    }
}

/// The place after the byte `current` at `point`: a line feed (`0x0A`)
/// starts a new line.
pub open spec fn advance(point: Point, current: Option<u8>) -> Point {
    if current == Some(0x0Au8) {
        Point { line: (point.line + 1) as usize, column: 1, index: (point.index + 1) as usize }
    } else {
        Point { line: point.line, column: (point.column + 1) as usize, index: (point.index + 1) as usize }
    }
}

/// The link that an event of the given content type carries.
pub open spec fn content_link(content_type: Option<Content>) -> Option<Link> {
    match content_type {
        Some(content) => Some(Link { previous: None, next: None, content }),
        None => None,
    }
}

impl TokenizerModel {
    /// After opening a span with the given link.
    pub open spec fn entered_with_link(self, name: Name, link: Option<Link>) -> TokenizerModel {
        TokenizerModel {
            events: self.events.push(Event { kind: Kind::Enter, name, point: self.point, link }),
            stack: self.stack.push(name),
            ..self
        }
    }

    /// After opening a span.
    pub open spec fn entered(self, name: Name) -> TokenizerModel {
        self.entered_with_link(name, None)
    }

    /// Whether the span `name` is the innermost open span.
    pub open spec fn can_exit(self, name: Name) -> bool {
        self.stack.len() > 0 && self.stack.last() == name
    }

    /// After closing the innermost span.
    pub open spec fn exited(self, name: Name) -> TokenizerModel {
        TokenizerModel {
            events: self.events.push(
                Event { kind: Kind::Exit, name, point: self.point, link: None },
            ),
            stack: self.stack.drop_last(),
            ..self
        }
    }

    /// Whether the current byte can be consumed.
    pub open spec fn can_consume(self) -> bool {
        &&& self.current is Some
        &&& self.point.index < usize::MAX
        &&& self.point.line < usize::MAX
        &&& self.point.column < usize::MAX
    }

    /// After consuming the current byte.
    pub open spec fn consumed(self) -> TokenizerModel {
        TokenizerModel {
            point: advance(self.point, self.current),
            previous: self.current,
            current: None,
            consumed: true,
            ..self
        }
    }

    /// After beginning an attempt.
    pub open spec fn attempted(self, ok: State, nok: State) -> TokenizerModel {
        TokenizerModel {
            attempts: self.attempts.push(
                Attempt {
                    ok,
                    nok,
                    progress: Progress {
                        previous: self.previous,
                        current: self.current,
                        point: self.point,
                        events_len: self.events.len() as usize,
                        stack_len: self.stack.len() as usize,
                    },
                },
            ),
            ..self
        }
    }

    /// After registering a resolver to run after the others.
    pub open spec fn with_resolver(self, name: ResolveName) -> TokenizerModel {
        if self.resolvers.contains(name) {
            self
        } else {
            TokenizerModel { resolvers: self.resolvers.push(name), ..self }
        }
    }

    /// After registering a resolver to run before the others.
    pub open spec fn with_resolver_before(self, name: ResolveName) -> TokenizerModel {
        if self.resolvers.contains(name) {
            self
        } else {
            TokenizerModel { resolvers: seq![name] + self.resolvers, ..self }
        }
    }

    /// With other construct state.
    pub open spec fn with_state(self, tokenize_state: TokenizeStateModel) -> TokenizerModel {
        TokenizerModel { tokenize_state, ..self }
    }
}

/// A tokenizer at the start of a document: nothing emitted, nothing open,
/// nothing remembered.
pub open spec fn initial(parse_state: ParseStateModel) -> TokenizerModel {
    TokenizerModel {
        previous: None,
        current: None,
        consumed: false,
        point: Point { line: 1, column: 1, index: 0 },
        events: Seq::empty(),
        stack: Seq::empty(),
        map: Map::empty(),
        attempts: Seq::empty(),
        resolvers: Seq::empty(),
        interrupt: false,
        lazy: false,
        parse_state,
        tokenize_state: TokenizeStateModel {
            marker: 0,
            end: 0,
            size_b: 0,
            token_1: Name::Data,
            token_2: Name::Data,
            token_3: Name::Data,
            token_4: Name::Data,
            token_5: Name::Data,
            label_start_stack: Seq::empty(),
            label_start_list_loose: Seq::empty(),
            media_list: Seq::empty(),
            space_or_tab_eol_content_type: None,
            space_or_tab_eol_connect: false,
            space_or_tab_eol_ok: false,
            space_or_tab_connect: false,
            space_or_tab_content_type: None,
            space_or_tab_min: 0,
            space_or_tab_max: 0,
            space_or_tab_token: Name::SpaceOrTab,
        },
    }
}

/// Opening a span and closing it again leaves the open spans as they were
/// and adds exactly its enter and exit events.
pub proof fn lemma_enter_exit(m: TokenizerModel, name: Name)
    ensures
        m.entered(name).can_exit(name),
        m.entered(name).exited(name).stack == m.stack,
        m.entered(name).exited(name).events == m.events.push(
            Event { kind: Kind::Enter, name, point: m.point, link: None },
        ).push(Event { kind: Kind::Exit, name, point: m.point, link: None }),
{
    assert(m.stack.push(name).drop_last() =~= m.stack);
}

impl Tokenizer {
    /// Create a new tokenizer at the start of a document.
    pub fn new(parse_state: ParseState) -> (r: Tokenizer)
        ensures
            r@ == initial(parse_state@),
    {
        let r = Tokenizer {
            previous: None,
            current: None,
            consumed: false,
            point: Point { line: 1, column: 1, index: 0 },
            events: Vec::new(),
            stack: Vec::new(),
            map: EditMap::new(),
            attempts: Vec::new(),
            resolvers: Vec::new(),
            interrupt: false,
            lazy: false,
            parse_state,
            tokenize_state: TokenizeState {
                marker: 0,
                end: 0,
                size_b: 0,
                token_1: Name::Data,
                token_2: Name::Data,
                token_3: Name::Data,
                token_4: Name::Data,
                token_5: Name::Data,
                label_start_stack: Vec::new(),
                label_start_list_loose: Vec::new(),
                media_list: Vec::new(),
                space_or_tab_eol_content_type: None,
                space_or_tab_eol_connect: false,
                space_or_tab_eol_ok: false,
                space_or_tab_connect: false,
                space_or_tab_content_type: None,
                space_or_tab_min: 0,
                space_or_tab_max: 0,
                space_or_tab_token: Name::SpaceOrTab,
            },
        };
        assert(r@.events =~= Seq::<Event>::empty());
        assert(r@.stack =~= Seq::<Name>::empty());
        assert(r@.attempts =~= Seq::<Attempt>::empty());
        assert(r@.resolvers =~= Seq::<ResolveName>::empty());
        assert(r@.tokenize_state.label_start_stack =~= Seq::<LabelStart>::empty());
        assert(r@.tokenize_state.label_start_list_loose =~= Seq::<LabelStart>::empty());
        assert(r@.tokenize_state.media_list =~= Seq::<Media>::empty());
        r
    }

    /// Open a span.
    pub fn enter(&mut self, name: Name)
        ensures
            final(self)@ == old(self)@.entered(name),
    {
        self.enter_with_content(name, None);
    }

    /// Open a span of embedded content.
    pub fn enter_with_content(&mut self, name: Name, content_type: Option<Content>)
        ensures
            final(self)@ == old(self)@.entered_with_link(name, content_link(content_type)),
    {
        let link = match content_type {
            Some(content) => Some(Link { previous: None, next: None, content }),
            None => None,
        };
        self.events.push(Event { kind: Kind::Enter, name, point: self.point, link });
        self.stack.push(name);
    }

    /// Close the innermost span, which must be `name`.
    pub fn exit(&mut self, name: Name)
        requires
            old(self)@.can_exit(name),
        ensures
            final(self)@ == old(self)@.exited(name),
    {
        self.stack.pop();
        self.events.push(Event { kind: Kind::Exit, name, point: self.point, link: None });
    }

    /// Consume the current byte.
    pub fn consume(&mut self)
        requires
            old(self)@.can_consume(),
        ensures
            final(self)@ == old(self)@.consumed(),
    {
        // Line feed.
        if self.current == Some(0x0Au8) {
            self.point = Point { line: self.point.line + 1, column: 1, index: self.point.index + 1 };
        } else {
            self.point = Point {
                line: self.point.line,
                column: self.point.column + 1,
                index: self.point.index + 1,
            };
        }
        self.previous = self.current;
        self.current = None;
        self.consumed = true;
    }

    /// Try the construct that comes next: go to `ok` if it succeeds and to
    /// `nok` if it fails.
    pub fn attempt(&mut self, ok: State, nok: State)
        ensures
            final(self)@ == old(self)@.attempted(ok, nok),
    {
        let progress = Progress {
            previous: self.previous,
            current: self.current,
            point: self.point,
            events_len: self.events.len(),
            stack_len: self.stack.len(),
        };
        self.attempts.push(Attempt { ok, nok, progress });
    }

    /// Whether the resolver `name` is registered.
    fn has_resolver(&self, name: ResolveName) -> (r: bool)
        ensures
            r == self.resolvers@.contains(name),
    {
        let mut i: usize = 0;
        while i < self.resolvers.len()
            invariant
                i <= self.resolvers@.len(),
                forall|j: int| 0 <= j < i ==> self.resolvers@[j] != name,
            decreases self.resolvers@.len() - i,
        {
            if self.resolvers[i] == name {
                assert(self.resolvers@[i as int] == name);
                return true;
            }
            i = i + 1;
        }
        false
    }

    /// Register a resolver, to run after the others.
    pub fn register_resolver(&mut self, name: ResolveName)
        ensures
            final(self)@ == old(self)@.with_resolver(name),
    {
        if !self.has_resolver(name) {
            self.resolvers.push(name);
        }
    }

    /// Register a resolver, to run before the others.
    pub fn register_resolver_before(&mut self, name: ResolveName)
        ensures
            final(self)@ == old(self)@.with_resolver_before(name),
    {
        if !self.has_resolver(name) {
            self.resolvers.insert(0, name);
            assert(self.resolvers@ =~= seq![name] + old(self).resolvers@);
        }
    }
}

} // verus!
