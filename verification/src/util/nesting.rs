//! Nesting of spans: whether each exit closes the innermost open span.

use vstd::prelude::*;
use crate::event::{Event, Kind, Name};

verus! {

/// The names of the spans open after walking `events` from the open spans
/// `stack` (innermost last), or `None` once an exit does not close the
/// innermost open span.
pub open spec fn open_spans(stack: Seq<Name>, events: Seq<Event>) -> Option<Seq<Name>>
    decreases events.len(),
{
    if events.len() == 0 {
        Some(stack)
    } else {
        match open_spans(stack, events.drop_last()) {
            None => None,
            Some(open) => {
                let e = events.last();
                if e.kind == Kind::Enter {
                    Some(open.push(e.name))
                } else if open.len() > 0 && open.last() == e.name {
                    Some(open.drop_last())
                } else {
                    None
                }
            },
        }
    }
}

/// Whether every exit in `events` closes the innermost open span and every
/// span is closed.
pub open spec fn well_nested(events: Seq<Event>) -> bool {
    open_spans(Seq::empty(), events) == Some(Seq::<Name>::empty())
}

/// Walking two runs of events one after the other.
pub proof fn lemma_open_spans_concat(stack: Seq<Name>, a: Seq<Event>, b: Seq<Event>)
    ensures
        open_spans(stack, a + b) == (match open_spans(stack, a) {
            Some(open) => open_spans(open, b),
            None => None,
        }),
    decreases b.len(),
{
    if b.len() == 0 {
        assert(a + b =~= a);
    } else {
        assert((a + b).drop_last() =~= a + b.drop_last());
        assert((a + b).last() == b.last());
        lemma_open_spans_concat(stack, a, b.drop_last());
    }
}

/// Spans already open below do not change what a run of events does.
pub proof fn lemma_open_spans_frame(below: Seq<Name>, stack: Seq<Name>, events: Seq<Event>)
    requires
        open_spans(stack, events) is Some,
    ensures
        open_spans(below + stack, events) == Some(below + open_spans(stack, events)->0),
    decreases events.len(),
{
    if events.len() > 0 {
        lemma_open_spans_frame(below, stack, events.drop_last());
        let open = open_spans(stack, events.drop_last())->0;
        let e = events.last();
        if e.kind == Kind::Enter {
            assert((below + open).push(e.name) =~= below + open.push(e.name));
        } else {
            assert((below + open).last() == open.last());
            assert((below + open).drop_last() =~= below + open.drop_last());
        }
    }
}

/// A well nested run of events leaves any open spans as they were.
pub proof fn lemma_well_nested_keeps(stack: Seq<Name>, events: Seq<Event>)
    requires
        well_nested(events),
    ensures
        open_spans(stack, events) == Some(stack),
{
    lemma_open_spans_frame(stack, Seq::empty(), events);
    assert(stack + Seq::<Name>::empty() =~= stack);
}

/// An enter opens a span.
pub proof fn lemma_open_spans_enter(stack: Seq<Name>, e: Event)
    requires
        e.kind == Kind::Enter,
    ensures
        open_spans(stack, seq![e]) == Some(stack.push(e.name)),
{
    assert(seq![e].drop_last() =~= Seq::<Event>::empty());
    assert(open_spans(stack, Seq::<Event>::empty()) == Some(stack));
    assert(seq![e].last() == e);
}

/// An exit closes the innermost open span when the names agree.
pub proof fn lemma_open_spans_exit(stack: Seq<Name>, e: Event)
    requires
        e.kind == Kind::Exit,
        stack.len() > 0,
        stack.last() == e.name,
    ensures
        open_spans(stack, seq![e]) == Some(stack.drop_last()),
{
    assert(seq![e].drop_last() =~= Seq::<Event>::empty());
    assert(open_spans(stack, Seq::<Event>::empty()) == Some(stack));
    assert(seq![e].last() == e);
}

/// Walking on after a run whose open spans are known.
pub proof fn lemma_open_spans_then(stack: Seq<Name>, a: Seq<Event>, b: Seq<Event>, mid: Seq<Name>)
    requires
        open_spans(stack, a) == Some(mid),
    ensures
        open_spans(stack, a + b) == open_spans(mid, b),
{
    lemma_open_spans_concat(stack, a, b);
}

/// What a run of events does to the open spans depends only on the kinds
/// and names of its events.
pub proof fn lemma_open_spans_shape(stack: Seq<Name>, a: Seq<Event>, b: Seq<Event>)
    requires
        a.len() == b.len(),
        forall|i: int| 0 <= i < a.len() ==> #[trigger] a[i].kind == b[i].kind && a[i].name == b[i].name,
    ensures
        open_spans(stack, a) == open_spans(stack, b),
    decreases a.len(),
{
    if a.len() > 0 {
        assert forall|i: int| 0 <= i < a.drop_last().len() implies #[trigger] a.drop_last()[i].kind
            == b.drop_last()[i].kind && a.drop_last()[i].name == b.drop_last()[i].name by {
            assert(a[i].kind == b[i].kind);
        }
        lemma_open_spans_shape(stack, a.drop_last(), b.drop_last());
        assert(a[a.len() - 1].kind == b[b.len() - 1].kind);
    }
}

} // verus!
