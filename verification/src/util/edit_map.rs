//! Deal with several changes in events, batching them together.
//!
//! Preferably, changes should be kept to a minimum.
//! Sometimes, it’s needed to change the list of events, because parsing can be
//! messy, and it helps to expose a cleaner interface of events to the compiler
//! and other users.
//! It can also help to merge many adjacent similar events.
//! And, in other cases, it’s needed to parse subcontent: pass some events
//! through another tokenizer and inject the result.

use vstd::prelude::*;
use crate::event::{Event, Link, Name};
use crate::util::nesting::{open_spans, well_nested, lemma_open_spans_concat, lemma_well_nested_keeps};

verus! {

/// The model of an edit map: for each index, how many events to remove
/// there and which events to insert there (before the event at that index).
pub open spec fn add_edit(
    m: Map<usize, (usize, Seq<Event>)>,
    at: usize,
    remove: usize,
    add: Seq<Event>,
) -> Map<usize, (usize, Seq<Event>)> {
    if remove == 0 && add.len() == 0 {
        m
    } else if m.dom().contains(at) {
        m.insert(at, ((m[at].0 + remove) as usize, m[at].1 + add))
    } else {
        m.insert(at, (remove, add))
    }
}

/// The model of an edit map after an edit whose events go before the events
/// already inserted at the same index.
pub open spec fn add_edit_before(
    m: Map<usize, (usize, Seq<Event>)>,
    at: usize,
    remove: usize,
    add: Seq<Event>,
) -> Map<usize, (usize, Seq<Event>)> {
    if remove == 0 && add.len() == 0 {
        m
    } else if m.dom().contains(at) {
        m.insert(at, ((m[at].0 + remove) as usize, add + m[at].1))
    } else {
        m.insert(at, (remove, add))
    }
}

/// The model of an edit map after one edit: index, number of events to
/// remove, events to insert, and whether they go before the events already
/// inserted there.
pub open spec fn add_step(
    m: Map<usize, (usize, Seq<Event>)>,
    e: (usize, usize, Seq<Event>, bool),
) -> Map<usize, (usize, Seq<Event>)> {
    if e.3 {
        add_edit_before(m, e.0, e.1, e.2)
    } else {
        add_edit(m, e.0, e.1, e.2)
    }
}

/// The model of an edit map after adding `edits` in order.
pub open spec fn add_all(
    m: Map<usize, (usize, Seq<Event>)>,
    edits: Seq<(usize, usize, Seq<Event>, bool)>,
) -> Map<usize, (usize, Seq<Event>)>
    decreases edits.len(),
{
    if edits.len() == 0 {
        m
    } else {
        add_step(add_all(m, edits.drop_last()), edits.last())
    }
}

/// Total number of events that `edits` remove at index `k`.
pub open spec fn removes_in(edits: Seq<(usize, usize, Seq<Event>, bool)>, k: usize) -> nat
    decreases edits.len(),
{
    if edits.len() == 0 {
        0
    } else {
        removes_in(edits.drop_last(), k) + (if edits.last().0 == k {
            edits.last().1 as nat
        } else {
            0
        })
    }
}

/// Whether one of `edits` changes something at index `k`.
pub open spec fn touches(edits: Seq<(usize, usize, Seq<Event>, bool)>, k: usize) -> bool {
    exists|j: int|
        0 <= j < edits.len() && #[trigger] edits[j].0 == k && (edits[j].1 > 0 || edits[j].2.len()
            > 0)
}

/// Adding edits one by one: at each index, the removals add up, and an index
/// has an entry when it had one or an edit changed something there.
pub proof fn lemma_add_all(
    m: Map<usize, (usize, Seq<Event>)>,
    edits: Seq<(usize, usize, Seq<Event>, bool)>,
    k: usize,
)
    requires
        removes_at(m, k as nat) + removes_in(edits, k) <= usize::MAX,
    ensures
        removes_at(add_all(m, edits), k as nat) == removes_at(m, k as nat) + removes_in(edits, k),
        add_all(m, edits).dom().contains(k) <==> (m.dom().contains(k) || touches(edits, k)),
    decreases edits.len(),
{
    if edits.len() > 0 {
        let p = edits.drop_last();
        let e = edits.last();
        lemma_add_all(m, p, k);
        assert(touches(edits, k) <==> (touches(p, k) || (e.0 == k && (e.1 > 0 || e.2.len() > 0))))
            by {
            if touches(edits, k) {
                let j = choose|j: int|
                    0 <= j < edits.len() && #[trigger] edits[j].0 == k && (edits[j].1 > 0
                        || edits[j].2.len() > 0);
                if j < p.len() {
                    assert(p[j] == edits[j]);
                }
            }
            if touches(p, k) {
                let j = choose|j: int|
                    0 <= j < p.len() && #[trigger] p[j].0 == k && (p[j].1 > 0 || p[j].2.len() > 0);
                assert(edits[j] == p[j]);
            }
            if e.0 == k && (e.1 > 0 || e.2.len() > 0) {
                assert(edits[edits.len() - 1].0 == k);
            }
        }
    }
}

/// Removals counted over a prefix of the edits are at most those over all.
pub proof fn lemma_removes_in_prefix(edits: Seq<(usize, usize, Seq<Event>, bool)>, i: int, k: usize)
    requires
        0 <= i <= edits.len(),
    ensures
        removes_in(edits.take(i), k) <= removes_in(edits, k),
    decreases edits.len(),
{
    if i < edits.len() {
        assert(edits.drop_last().take(i) =~= edits.take(i));
        lemma_removes_in_prefix(edits.drop_last(), i, k);
    } else {
        assert(edits.take(i) =~= edits);
    }
}

/// Adding edits one at a time.
pub proof fn lemma_add_all_push(
    m: Map<usize, (usize, Seq<Event>)>,
    edits: Seq<(usize, usize, Seq<Event>, bool)>,
    e: (usize, usize, Seq<Event>, bool),
)
    ensures
        add_all(m, edits.push(e)) == add_step(add_all(m, edits), e),
{
    assert(edits.push(e).drop_last() =~= edits);
}

/// Adding two lists of edits, one after the other.
pub proof fn lemma_add_all_concat(
    m: Map<usize, (usize, Seq<Event>)>,
    a: Seq<(usize, usize, Seq<Event>, bool)>,
    b: Seq<(usize, usize, Seq<Event>, bool)>,
)
    ensures
        add_all(m, a + b) == add_all(add_all(m, a), b),
    decreases b.len(),
{
    if b.len() == 0 {
        assert(a + b =~= a);
    } else {
        assert((a + b).drop_last() =~= a + b.drop_last());
        lemma_add_all_concat(m, a, b.drop_last());
    }
}

/// The events that `edits` insert at index `k`, in order.
pub open spec fn inserted_at(edits: Seq<(usize, usize, Seq<Event>, bool)>, k: usize) -> Seq<Event>
    decreases edits.len(),
{
    if edits.len() == 0 {
        Seq::empty()
    } else {
        inserted_at(edits.drop_last(), k) + if edits.last().0 == k {
            edits.last().2
        } else {
            Seq::empty()
        }
    }
}

/// Whether none of `edits` puts its events before those already inserted.
pub open spec fn only_appends(edits: Seq<(usize, usize, Seq<Event>, bool)>) -> bool {
    forall|j: int| 0 <= j < edits.len() ==> !(#[trigger] edits[j]).3
}

/// What one more edit does to the events inserted at index `k`.
pub proof fn lemma_adds_at_step(
    m: Map<usize, (usize, Seq<Event>)>,
    e: (usize, usize, Seq<Event>, bool),
    k: usize,
)
    ensures
        adds_at(add_step(m, e), k as nat) == (if e.0 == k {
            if e.3 {
                e.2 + adds_at(m, k as nat)
            } else {
                adds_at(m, k as nat) + e.2
            }
        } else {
            adds_at(m, k as nat)
        }),
{
    let r = add_step(m, e);
    if e.0 == k {
        if e.1 == 0 && e.2.len() == 0 {
            assert(e.2 + adds_at(m, k as nat) =~= adds_at(m, k as nat));
            assert(adds_at(m, k as nat) + e.2 =~= adds_at(m, k as nat));
        } else if !m.dom().contains(k) {
            assert(e.2 + adds_at(m, k as nat) =~= e.2);
            assert(adds_at(m, k as nat) + e.2 =~= e.2);
        }
    }
}

/// Events inserted by edits, one more edit at a time.
pub proof fn lemma_inserted_at_push(
    edits: Seq<(usize, usize, Seq<Event>, bool)>,
    e: (usize, usize, Seq<Event>, bool),
    k: usize,
)
    ensures
        inserted_at(edits.push(e), k) == inserted_at(edits, k) + (if e.0 == k {
            e.2
        } else {
            Seq::empty()
        }),
{
    assert(edits.push(e).drop_last() =~= edits);
}

/// Edits that append add their events after those already inserted, in
/// order.
pub proof fn lemma_add_all_appends(
    m: Map<usize, (usize, Seq<Event>)>,
    edits: Seq<(usize, usize, Seq<Event>, bool)>,
    k: usize,
)
    requires
        only_appends(edits),
    ensures
        adds_at(add_all(m, edits), k as nat) == adds_at(m, k as nat) + inserted_at(edits, k),
    decreases edits.len(),
{
    if edits.len() == 0 {
        assert(adds_at(m, k as nat) + Seq::<Event>::empty() =~= adds_at(m, k as nat));
    } else {
        let p = edits.drop_last();
        let e = edits.last();
        assert(only_appends(p)) by {
            assert forall|j: int| 0 <= j < p.len() implies !(#[trigger] p[j]).3 by {
                assert(p[j] == edits[j]);
            }
        }
        assert(!edits[edits.len() - 1].3);
        lemma_add_all_appends(m, p, k);
        let before = add_all(m, p);
        if e.0 == k {
            assert(adds_at(add_all(m, edits), k as nat) =~= adds_at(before, k as nat) + e.2);
        } else {
            assert(adds_at(add_all(m, edits), k as nat) =~= adds_at(before, k as nat));
        }
        assert(adds_at(m, k as nat) + inserted_at(edits, k) =~= adds_at(m, k as nat) + inserted_at(
            p,
            k,
        ) + if e.0 == k {
            e.2
        } else {
            Seq::empty()
        });
    }
}

/// Once events lead those inserted at index `k`, edits that do not put
/// anything before them at `k` keep them in the lead.
pub proof fn lemma_add_all_keeps_lead(
    m: Map<usize, (usize, Seq<Event>)>,
    edits: Seq<(usize, usize, Seq<Event>, bool)>,
    k: usize,
    lead: Seq<Event>,
)
    requires
        lead.len() <= adds_at(m, k as nat).len(),
        adds_at(m, k as nat).take(lead.len() as int) == lead,
        forall|j: int| 0 <= j < edits.len() ==> !((#[trigger] edits[j]).3 && edits[j].0 == k),
    ensures
        lead.len() <= adds_at(add_all(m, edits), k as nat).len(),
        adds_at(add_all(m, edits), k as nat).take(lead.len() as int) == lead,
    decreases edits.len(),
{
    if edits.len() > 0 {
        let p = edits.drop_last();
        let e = edits.last();
        assert forall|j: int| 0 <= j < p.len() implies !((#[trigger] p[j]).3 && p[j].0 == k) by {
            assert(p[j] == edits[j]);
        }
        assert(!(edits[edits.len() - 1].3 && edits[edits.len() - 1].0 == k));
        lemma_add_all_keeps_lead(m, p, k, lead);
        let before = adds_at(add_all(m, p), k as nat);
        if e.0 == k && !(e.1 == 0 && e.2.len() == 0) {
            assert(adds_at(add_all(m, edits), k as nat) =~= before + e.2);
            assert((before + e.2).take(lead.len() as int) =~= before.take(lead.len() as int));
        }
    }
}

/// Events inserted at index `i`.
pub open spec fn adds_at(m: Map<usize, (usize, Seq<Event>)>, i: nat) -> Seq<Event> {
    if i <= usize::MAX && m.dom().contains(i as usize) {
        m[i as usize].1
    } else {
        Seq::empty()
    }
}

/// Number of events removed starting at index `i`.
pub open spec fn removes_at(m: Map<usize, (usize, Seq<Event>)>, i: nat) -> nat {
    if i <= usize::MAX && m.dom().contains(i as usize) {
        m[i as usize].0 as nat
    } else {
        0
    }
}

/// The end of the furthest removal that starts at or before index `i`.
pub open spec fn cover_through(m: Map<usize, (usize, Seq<Event>)>, i: nat) -> nat
    decreases i,
{
    let here = if removes_at(m, i) > 0 {
        i + removes_at(m, i)
    } else {
        0
    };
    if i == 0 {
        here
    } else {
        let before = cover_through(m, (i - 1) as nat);
        if before >= here {
            before
        } else {
            here
        }
    }
}

/// Whether the event at index `i` survives the edits.
pub open spec fn kept(m: Map<usize, (usize, Seq<Event>)>, i: nat) -> bool {
    !(i < cover_through(m, i))
}

/// The result of the edits over positions `0..n`, before links are moved:
/// each entry is an event and whether it is one of the events before the edits.
pub open spec fn layout(events: Seq<Event>, m: Map<usize, (usize, Seq<Event>)>, n: nat) -> Seq<
    (Event, bool),
>
    decreases n,
{
    if n == 0 {
        Seq::empty()
    } else {
        let i = (n - 1) as nat;
        let added = adds_at(m, i).map_values(|e: Event| (e, false));
        let own = if i < events.len() && kept(m, i) {
            seq![(events[i as int], true)]
        } else {
            Seq::empty()
        };
        layout(events, m, i) + added + own
    }
}

/// Where the existing event at index `j` ends up.
pub open spec fn new_index(events: Seq<Event>, m: Map<usize, (usize, Seq<Event>)>, j: nat) -> nat {
    layout(events, m, j).len() + adds_at(m, j).len()
}

/// `new_index` for every existing event.
pub open spec fn new_indices(events: Seq<Event>, m: Map<usize, (usize, Seq<Event>)>) -> Seq<usize> {
    Seq::new(events.len(), |j: int| new_index(events, m, j as nat) as usize)
}

/// Move a link target to its new place.
pub open spec fn move_target(target: Option<usize>, positions: Seq<usize>) -> Option<usize> {
    match target {
        Some(t) => if t < positions.len() {
            Some(positions[t as int])
        } else {
            Some(t)
        },
        None => None,
    }
}

/// Move the link targets of an event to their new places.
pub open spec fn relink(e: Event, positions: Seq<usize>) -> Event {
    Event {
        link: match e.link {
            Some(l) => Some(
                Link {
                    previous: move_target(l.previous, positions),
                    next: move_target(l.next, positions),
                    content: l.content,
                },
            ),
            None => None,
        },
        ..e
    }
}

/// The events after applying all edits: removed events are gone, inserted
/// events stand before the event at their index, and the links of the
/// existing events point to the new places of their targets.
pub open spec fn applied(events: Seq<Event>, m: Map<usize, (usize, Seq<Event>)>) -> Seq<Event> {
    let l = layout(events, m, events.len() + 1);
    let p = new_indices(events, m);
    Seq::new(l.len(), |k: int| if l[k].1 { relink(l[k].0, p) } else { l[k].0 })
}

/// Every edit removes events that exist.
pub open spec fn edits_fit(m: Map<usize, (usize, Seq<Event>)>, len: nat) -> bool {
    forall|k: usize| #[trigger] m.dom().contains(k) ==> k + m[k].0 <= len
}

proof fn lemma_layout_empty(events: Seq<Event>, n: nat)
    requires
        n <= events.len(),
    ensures
        layout(events, Map::empty(), n) == Seq::new(n, |i: int| (events[i], true)),
    decreases n,
{
    let m = Map::<usize, (usize, Seq<Event>)>::empty();
    if n > 0 {
        let i = (n - 1) as nat;
        lemma_layout_empty(events, i);
        lemma_cover_no_removes(Map::empty(), i);
        assert(adds_at(m, i).map_values(|e: Event| (e, false)) =~= Seq::<(Event, bool)>::empty());
        assert(layout(events, m, n) =~= Seq::new(n, |j: int| (events[j], true)));
    }
}

proof fn lemma_cover_no_removes(m: Map<usize, (usize, Seq<Event>)>, i: nat)
    requires
        forall|k: nat| #[trigger] removes_at(m, k) == 0,
    ensures
        cover_through(m, i) == 0,
    decreases i,
{
    assert(removes_at(m, i) == 0);
    if i > 0 {
        lemma_cover_no_removes(m, (i - 1) as nat);
    }
}

/// Applying no edits changes nothing, links included.
pub proof fn lemma_applied_empty(events: Seq<Event>)
    requires
        events.len() <= usize::MAX,
    ensures
        applied(events, Map::empty()) == events,
{
    let m = Map::<usize, (usize, Seq<Event>)>::empty();
    let len = events.len();
    lemma_layout_empty(events, len);
    assert(adds_at(m, len).map_values(|e: Event| (e, false)) =~= Seq::<(Event, bool)>::empty());
    assert(layout(events, m, len + 1) =~= layout(events, m, len));
    let p = new_indices(events, m);
    assert forall|j: int| 0 <= j < len implies #[trigger] p[j] == j by {
        lemma_layout_empty(events, j as nat);
        assert(adds_at(m, j as nat).len() == 0);
        assert(layout(events, m, j as nat).len() == j);
    }
    assert forall|k: int| 0 <= k < len implies #[trigger] relink(events[k], p) == events[k] by {
        let e = events[k];
        if let Some(l) = e.link {
            assert(move_target(l.previous, p) == l.previous);
            assert(move_target(l.next, p) == l.next);
        }
    }
    assert(applied(events, m) =~= events);
}

/// The events of `layout`, without their marks.
pub open spec fn layout_events(events: Seq<Event>, m: Map<usize, (usize, Seq<Event>)>, n: nat) -> Seq<
    Event,
> {
    layout(events, m, n).map_values(|p: (Event, bool)| p.0)
}

/// One more position of the layout: what is inserted there, then the event
/// there if it is kept.
pub proof fn lemma_layout_events_step(events: Seq<Event>, m: Map<usize, (usize, Seq<Event>)>, n: nat)
    ensures
        layout_events(events, m, n + 1) == layout_events(events, m, n) + adds_at(m, n) + (if n
            < events.len() && kept(m, n) {
            seq![events[n as int]]
        } else {
            Seq::empty()
        }),
{
    let added = adds_at(m, n).map_values(|e: Event| (e, false));
    let own = if n < events.len() && kept(m, n) {
        seq![(events[n as int], true)]
    } else {
        Seq::empty()
    };
    assert(layout(events, m, n + 1) == layout(events, m, n) + added + own);
    assert(layout_events(events, m, n + 1) =~= layout_events(events, m, n) + adds_at(m, n) + (if n
        < events.len() && kept(m, n) {
        seq![events[n as int]]
    } else {
        Seq::empty()
    }));
}

/// The applied events are the events of the whole layout, with the links
/// of existing events moved: kinds and names are those of the layout.
pub proof fn lemma_applied_shape(events: Seq<Event>, m: Map<usize, (usize, Seq<Event>)>)
    ensures
        applied(events, m).len() == layout_events(events, m, events.len() + 1).len(),
        forall|k: int|
            0 <= k < applied(events, m).len() ==> #[trigger] applied(events, m)[k].kind
                == layout_events(events, m, events.len() + 1)[k].kind && applied(events, m)[k].name
                == layout_events(events, m, events.len() + 1)[k].name,
{
}

/// The event at index `k` if it survives the edits.
pub open spec fn own_event(events: Seq<Event>, m: Map<usize, (usize, Seq<Event>)>, k: nat) -> Seq<Event> {
    if k < events.len() && kept(m, k) {
        seq![events[k as int]]
    } else {
        Seq::empty()
    }
}

/// The layout of positions `p` to `q`: at each, what is inserted there and
/// then the event there if it survives.
pub open spec fn layout_between(
    events: Seq<Event>,
    m: Map<usize, (usize, Seq<Event>)>,
    p: nat,
    q: nat,
) -> Seq<Event>
    decreases q,
{
    if q <= p {
        Seq::empty()
    } else {
        layout_between(events, m, p, (q - 1) as nat) + adds_at(m, (q - 1) as nat) + own_event(
            events,
            m,
            (q - 1) as nat,
        )
    }
}

/// The layout up to `q` is the layout up to `p` and then that of `p` to `q`.
pub proof fn lemma_layout_between(events: Seq<Event>, m: Map<usize, (usize, Seq<Event>)>, p: nat, q: nat)
    requires
        p <= q,
    ensures
        layout_events(events, m, q) == layout_events(events, m, p) + layout_between(events, m, p, q),
    decreases q,
{
    if q == p {
        assert(layout_events(events, m, q) =~= layout_events(events, m, p) + Seq::<Event>::empty());
    } else {
        let r = (q - 1) as nat;
        lemma_layout_between(events, m, p, r);
        lemma_layout_events_step(events, m, r);
        assert(layout_events(events, m, q) =~= layout_events(events, m, p) + layout_between(
            events,
            m,
            p,
            q,
        ));
    }
}

/// Layouts of adjacent ranges of positions join.
pub proof fn lemma_layout_between_join(
    events: Seq<Event>,
    m: Map<usize, (usize, Seq<Event>)>,
    p: nat,
    q: nat,
    r: nat,
)
    requires
        p <= q <= r,
    ensures
        layout_between(events, m, p, q) + layout_between(events, m, q, r) == layout_between(
            events,
            m,
            p,
            r,
        ),
    decreases r,
{
    if r == q {
        assert(layout_between(events, m, p, q) + Seq::<Event>::empty() =~= layout_between(
            events,
            m,
            p,
            q,
        ));
    } else {
        lemma_layout_between_join(events, m, p, q, (r - 1) as nat);
        assert(layout_between(events, m, p, q) + layout_between(events, m, q, r) =~= layout_between(
            events,
            m,
            p,
            r,
        ));
    }
}

/// The layout of one position.
pub proof fn lemma_layout_between_one(events: Seq<Event>, m: Map<usize, (usize, Seq<Event>)>, p: nat)
    ensures
        layout_between(events, m, p, p + 1) == adds_at(m, p) + own_event(events, m, p),
{
    assert(layout_between(events, m, p, p) =~= Seq::<Event>::empty());
    assert(layout_between(events, m, p, p + 1) =~= adds_at(m, p) + own_event(events, m, p));
}

/// Two edit maps that remove the same events and insert the same events at
/// positions `p` to `q` lay those positions out alike.
pub proof fn lemma_layout_between_same(
    events: Seq<Event>,
    m1: Map<usize, (usize, Seq<Event>)>,
    m2: Map<usize, (usize, Seq<Event>)>,
    p: nat,
    q: nat,
)
    requires
        forall|k: nat| #[trigger] removes_at(m1, k) == removes_at(m2, k),
        forall|k: nat| p <= k < q ==> #[trigger] adds_at(m1, k) == adds_at(m2, k),
    ensures
        layout_between(events, m1, p, q) == layout_between(events, m2, p, q),
    decreases q,
{
    if q > p {
        let r = (q - 1) as nat;
        lemma_layout_between_same(events, m1, m2, p, r);
        lemma_cover_same(m1, m2, r);
        assert(adds_at(m1, r) == adds_at(m2, r));
    }
}

/// Equal removals reach equally far.
proof fn lemma_cover_same(m1: Map<usize, (usize, Seq<Event>)>, m2: Map<usize, (usize, Seq<Event>)>, k: nat)
    requires
        forall|k: nat| #[trigger] removes_at(m1, k) == removes_at(m2, k),
    ensures
        cover_through(m1, k) == cover_through(m2, k),
    decreases k,
{
    assert(removes_at(m1, k) == removes_at(m2, k));
    if k > 0 {
        lemma_cover_same(m1, m2, (k - 1) as nat);
    }
}

/// Events inserted by two lists of edits, one after the other.
pub proof fn lemma_inserted_at_concat(
    a: Seq<(usize, usize, Seq<Event>, bool)>,
    b: Seq<(usize, usize, Seq<Event>, bool)>,
    k: usize,
)
    ensures
        inserted_at(a + b, k) == inserted_at(a, k) + inserted_at(b, k),
    decreases b.len(),
{
    if b.len() == 0 {
        assert(a + b =~= a);
        assert(inserted_at(a, k) + inserted_at(b, k) =~= inserted_at(a, k));
    } else {
        assert((a + b).drop_last() =~= a + b.drop_last());
        assert((a + b).last() == b.last());
        lemma_inserted_at_concat(a, b.drop_last(), k);
        assert(inserted_at(a + b, k) =~= inserted_at(a, k) + inserted_at(b, k));
    }
}

/// Removals by two lists of edits, one after the other.
pub proof fn lemma_removes_in_concat(
    a: Seq<(usize, usize, Seq<Event>, bool)>,
    b: Seq<(usize, usize, Seq<Event>, bool)>,
    k: usize,
)
    ensures
        removes_in(a + b, k) == removes_in(a, k) + removes_in(b, k),
    decreases b.len(),
{
    if b.len() == 0 {
        assert(a + b =~= a);
    } else {
        assert((a + b).drop_last() =~= a + b.drop_last());
        assert((a + b).last() == b.last());
        lemma_removes_in_concat(a, b.drop_last(), k);
    }
}

/// Edits with the same removals keep the same events.
pub proof fn lemma_kept_same(m1: Map<usize, (usize, Seq<Event>)>, m2: Map<usize, (usize, Seq<Event>)>, k: nat)
    requires
        forall|k: nat| #[trigger] removes_at(m1, k) == removes_at(m2, k),
    ensures
        kept(m1, k) == kept(m2, k),
{
    lemma_cover_same(m1, m2, k);
}

/// Where no run of removed events starts inside another, an event outside
/// every run is kept.
pub proof fn lemma_kept_outside_runs(m: Map<usize, (usize, Seq<Event>)>, k: nat)
    requires
        forall|a: nat, k: nat|
            #![trigger removes_at(m, a), removes_at(m, k)]
            removes_at(m, a) > 0 && a < k < a + removes_at(m, a) ==> removes_at(m, k) == 0,
        forall|a: nat|
            #![trigger removes_at(m, a)]
            removes_at(m, a) > 0 ==> !(a <= k < a + removes_at(m, a)),
    ensures
        kept(m, k),
{
    lemma_cover_runs(m, k);
}

/// Positions with nothing inserted whose events are kept lay out as those
/// events.
pub proof fn lemma_between_plain(events: Seq<Event>, m: Map<usize, (usize, Seq<Event>)>, p: nat, q: nat)
    requires
        p <= q <= events.len(),
        forall|k: nat| p <= k < q ==> #[trigger] adds_at(m, k).len() == 0 && kept(m, k),
    ensures
        layout_between(events, m, p, q) == events.subrange(p as int, q as int),
    decreases q,
{
    if q == p {
        assert(layout_between(events, m, p, q) =~= events.subrange(p as int, q as int));
    } else {
        let r = (q - 1) as nat;
        lemma_between_plain(events, m, p, r);
        assert(adds_at(m, r).len() == 0 && kept(m, r));
        assert(layout_between(events, m, p, q) =~= events.subrange(p as int, q as int));
    }
}

/// The sum of `f` over the positions before `n`.
pub open spec fn sum_before(f: spec_fn(nat) -> int, n: nat) -> int
    decreases n,
{
    if n == 0 {
        0
    } else {
        sum_before(f, (n - 1) as nat) + f((n - 1) as nat)
    }
}

/// Sums of functions that differ at one position differ by as much, when
/// that position is counted.
pub proof fn lemma_sum_point(f: spec_fn(nat) -> int, g: spec_fn(nat) -> int, p: nat, c: int, n: nat)
    requires
        forall|k: nat| k != p ==> #[trigger] g(k) == f(k),
        g(p) == f(p) + c,
    ensures
        sum_before(g, n) == sum_before(f, n) + if p < n {
            c
        } else {
            0
        },
    decreases n,
{
    if n > 0 {
        lemma_sum_point(f, g, p, c, (n - 1) as nat);
        assert(g((n - 1) as nat) == f((n - 1) as nat) + if (n - 1) as nat == p {
            c
        } else {
            0
        });
    }
}

/// Sums of functions that agree below `n` agree.
pub proof fn lemma_sum_same(f: spec_fn(nat) -> int, g: spec_fn(nat) -> int, n: nat)
    requires
        forall|k: nat| k < n ==> #[trigger] g(k) == f(k),
    ensures
        sum_before(g, n) == sum_before(f, n),
    decreases n,
{
    if n > 0 {
        lemma_sum_same(f, g, (n - 1) as nat);
        assert(g((n - 1) as nat) == f((n - 1) as nat));
    }
}

/// How many events are inserted at a position.
pub open spec fn adds_count(m: Map<usize, (usize, Seq<Event>)>) -> spec_fn(nat) -> int {
    |k: nat| adds_at(m, k).len() as int
}

/// How many events a removal starting at a position covers.
pub open spec fn removes_count(m: Map<usize, (usize, Seq<Event>)>) -> spec_fn(nat) -> int {
    |k: nat| removes_at(m, k) as int
}

/// Whether the event at a position is kept, as a count.
pub open spec fn kept_count(events: Seq<Event>, m: Map<usize, (usize, Seq<Event>)>) -> spec_fn(nat) -> int {
    |k: nat| own_event(events, m, k).len() as int
}

/// The length of the layout of the first `n` positions: what is inserted
/// there and the events kept.
pub proof fn lemma_layout_len(events: Seq<Event>, m: Map<usize, (usize, Seq<Event>)>, n: nat)
    ensures
        layout_between(events, m, 0, n).len() == sum_before(adds_count(m), n) + sum_before(
            kept_count(events, m),
            n,
        ),
    decreases n,
{
    if n > 0 {
        lemma_layout_len(events, m, (n - 1) as nat);
    }
}

/// Events inserted by `edits` at positions before `n`.
pub open spec fn edits_adds_before(edits: Seq<(usize, usize, Seq<Event>, bool)>, n: nat) -> int
    decreases edits.len(),
{
    if edits.len() == 0 {
        0
    } else {
        edits_adds_before(edits.drop_last(), n) + if (edits.last().0 as nat) < n {
            edits.last().2.len() as int
        } else {
            0
        }
    }
}

/// Events removed by `edits` at positions before `n`.
pub open spec fn edits_removes_before(edits: Seq<(usize, usize, Seq<Event>, bool)>, n: nat) -> int
    decreases edits.len(),
{
    if edits.len() == 0 {
        0
    } else {
        edits_removes_before(edits.drop_last(), n) + if (edits.last().0 as nat) < n {
            edits.last().1 as int
        } else {
            0
        }
    }
}

/// Every edit inserts its events at its index.
pub proof fn lemma_adds_sum(m: Map<usize, (usize, Seq<Event>)>, edits: Seq<(usize, usize, Seq<Event>, bool)>, n: nat)
    ensures
        sum_before(adds_count(add_all(m, edits)), n) == sum_before(adds_count(m), n)
            + edits_adds_before(edits, n),
    decreases edits.len(),
{
    if edits.len() > 0 {
        let p = edits.drop_last();
        let e = edits.last();
        lemma_adds_sum(m, p, n);
        let before = add_all(m, p);
        let after = add_all(m, edits);
        assert forall|k: nat| k != e.0 as nat implies #[trigger] adds_count(after)(k) == adds_count(
            before,
        )(k) by {
            if k <= usize::MAX {
                lemma_adds_at_step(before, e, k as usize);
                assert((k as usize) as nat == k);
            }
        }
        lemma_adds_at_step(before, e, e.0);
        assert(adds_count(after)(e.0 as nat) == adds_count(before)(e.0 as nat) + e.2.len());
        lemma_sum_point(adds_count(before), adds_count(after), e.0 as nat, e.2.len() as int, n);
    }
}

/// Every edit removes its events at its index.
pub proof fn lemma_removes_sum(edits: Seq<(usize, usize, Seq<Event>, bool)>, n: nat)
    requires
        forall|k: usize| #[trigger] removes_in(edits, k) <= usize::MAX,
    ensures
        sum_before(removes_count(add_all(Map::empty(), edits)), n) == edits_removes_before(edits, n),
    decreases edits.len(),
{
    let empty_map = Map::<usize, (usize, Seq<Event>)>::empty();
    let f = |k: nat| if k <= usize::MAX {
        removes_in(edits, k as usize) as int
    } else {
        0int
    };
    assert forall|k: nat| k < n implies #[trigger] removes_count(add_all(empty_map, edits))(k) == f(
        k,
    ) by {
        if k <= usize::MAX {
            lemma_add_all(empty_map, edits, k as usize);
            assert((k as usize) as nat == k);
        }
    }
    lemma_sum_same(f, removes_count(add_all(empty_map, edits)), n);
    lemma_removes_in_sum(edits, n);
}

/// The removals of `edits`, summed over positions, are summed over edits.
proof fn lemma_removes_in_sum(edits: Seq<(usize, usize, Seq<Event>, bool)>, n: nat)
    ensures
        sum_before(
            |k: nat| if k <= usize::MAX {
                removes_in(edits, k as usize) as int
            } else {
                0int
            },
            n,
        ) == edits_removes_before(edits, n),
    decreases edits.len(),
{
    let f = |k: nat| if k <= usize::MAX {
        removes_in(edits, k as usize) as int
    } else {
        0int
    };
    if edits.len() == 0 {
        let z = |k: nat| 0int;
        assert forall|k: nat| k < n implies #[trigger] f(k) == z(k) by {}
        lemma_sum_same(z, f, n);
        lemma_sum_zero(n);
    } else {
        let p = edits.drop_last();
        let e = edits.last();
        lemma_removes_in_sum(p, n);
        let fp = |k: nat| if k <= usize::MAX {
            removes_in(p, k as usize) as int
        } else {
            0int
        };
        assert forall|k: nat| k != e.0 as nat implies #[trigger] f(k) == fp(k) by {}
        assert(f(e.0 as nat) == fp(e.0 as nat) + e.1);
        lemma_sum_point(fp, f, e.0 as nat, e.1 as int, n);
    }
}

/// The sum of zero.
pub proof fn lemma_sum_zero(n: nat)
    ensures
        sum_before(|k: nat| 0int, n) == 0,
    decreases n,
{
    if n > 0 {
        lemma_sum_zero((n - 1) as nat);
    }
}

/// Up to a position outside the removed runs, each event is kept or
/// removed.
pub proof fn lemma_kept_removed(events: Seq<Event>, m: Map<usize, (usize, Seq<Event>)>, n: nat)
    requires
        replaces_runs(events, m),
        n <= events.len(),
        forall|a: nat|
            #![trigger removes_at(m, a)]
            removes_at(m, a) > 0 ==> !(a < n < a + removes_at(m, a)),
    ensures
        sum_before(kept_count(events, m), n) + sum_before(removes_count(m), n) == n,
    decreases n,
{
    if n > 0 {
        let k = (n - 1) as nat;
        lemma_cover_runs(m, k);
        if exists|a: nat|
            #![trigger removes_at(m, a)]
            removes_at(m, a) > 0 && a <= k < a + removes_at(m, a) {
            let a = choose|a: nat|
                #![trigger removes_at(m, a)]
                removes_at(m, a) > 0 && a <= k < a + removes_at(m, a);
            let r = removes_at(m, a);
            assert(n == a + r);
            assert forall|b: nat|
                #![trigger removes_at(m, b)]
                removes_at(m, b) > 0 implies !(b < a < b + removes_at(m, b)) by {
                if b < a < b + removes_at(m, b) {
                    assert(removes_at(m, a) == 0);
                }
            }
            lemma_kept_removed(events, m, a);
            lemma_run_counts(events, m, a, n);
        } else {
            assert(cover_through(m, k) <= k);
            assert(kept(m, k));
            assert forall|a: nat|
                #![trigger removes_at(m, a)]
                removes_at(m, a) > 0 implies !(a < k < a + removes_at(m, a)) by {}
            lemma_kept_removed(events, m, k);
            assert(removes_count(m)(k) == 0);
            assert(kept_count(events, m)(k) == 1);
        }
    }
}

/// Through a removed run: nothing kept, and the run counted once.
proof fn lemma_run_counts(events: Seq<Event>, m: Map<usize, (usize, Seq<Event>)>, a: nat, q: nat)
    requires
        replaces_runs(events, m),
        removes_at(m, a) > 0,
        a < q <= a + removes_at(m, a),
    ensures
        sum_before(kept_count(events, m), q) == sum_before(kept_count(events, m), a),
        sum_before(removes_count(m), q) == sum_before(removes_count(m), a) + removes_at(m, a),
    decreases q,
{
    let k = (q - 1) as nat;
    lemma_cover_runs(m, k);
    assert(!kept(m, k));
    assert(kept_count(events, m)(k) == 0);
    if k > a {
        lemma_run_counts(events, m, a, k);
        assert(removes_at(m, k) == 0);
        assert(removes_count(m)(k) == 0);
    } else {
        assert(removes_count(m)(k) == removes_at(m, a));
    }
}

/// With at most one edit per index, what is removed and inserted at an
/// index is what the edit there says, or nothing.
pub proof fn lemma_distinct_keys(edits: Seq<(usize, usize, Seq<Event>, bool)>, k: usize)
    requires
        forall|i: int, j: int| 0 <= i < j < edits.len() ==> #[trigger] edits[i].0 != #[trigger] edits[j].0,
    ensures
        forall|i: int|
            0 <= i < edits.len() && #[trigger] edits[i].0 == k ==> removes_in(edits, k) == edits[i].1
                && inserted_at(edits, k) == edits[i].2,
        (forall|i: int| 0 <= i < edits.len() ==> #[trigger] edits[i].0 != k) ==> removes_in(edits, k)
            == 0 && inserted_at(edits, k) == Seq::<Event>::empty(),
    decreases edits.len(),
{
    if edits.len() > 0 {
        let p = edits.drop_last();
        let l = edits.len() - 1;
        assert forall|i: int, j: int| 0 <= i < j < p.len() implies #[trigger] p[i].0 != #[trigger] p[j].0 by {
            assert(p[i] == edits[i]);
            assert(p[j] == edits[j]);
        }
        lemma_distinct_keys(p, k);
        if edits[l].0 == k {
            assert forall|i: int| 0 <= i < p.len() implies #[trigger] p[i].0 != k by {
                assert(p[i] == edits[i]);
            }
            assert(inserted_at(edits, k) =~= edits[l].2);
        } else {
            assert(inserted_at(edits, k) =~= inserted_at(p, k));
        }
        assert forall|i: int|
            0 <= i < edits.len() && #[trigger] edits[i].0 == k implies removes_in(edits, k)
            == edits[i].1 && inserted_at(edits, k) == edits[i].2 by {
            if i < l {
                assert(p[i] == edits[i]);
            }
        }
        if forall|i: int| 0 <= i < edits.len() ==> #[trigger] edits[i].0 != k {
            assert(edits[l].0 != k);
            assert forall|i: int| 0 <= i < p.len() implies #[trigger] p[i].0 != k by {
                assert(p[i] == edits[i]);
            }
        }
    }
}

/// Edits that remove whole runs of events and insert only where a run
/// starts: no run starts inside another, nothing is inserted elsewhere, each
/// run lies within the events and is well nested, and so is what replaces
/// it.
pub open spec fn replaces_runs(events: Seq<Event>, m: Map<usize, (usize, Seq<Event>)>) -> bool {
    &&& forall|a: nat, k: nat|
        #![trigger removes_at(m, a), removes_at(m, k)]
        removes_at(m, a) > 0 && a < k < a + removes_at(m, a) ==> removes_at(m, k) == 0
    &&& forall|k: nat| #[trigger] removes_at(m, k) == 0 ==> adds_at(m, k).len() == 0
    &&& forall|a: nat|
        #[trigger] removes_at(m, a) > 0 ==> {
            &&& a + removes_at(m, a) <= events.len()
            &&& well_nested(events.subrange(a as int, (a + removes_at(m, a)) as int))
            &&& well_nested(adds_at(m, a))
        }
}

/// Where no run of removed events starts inside another, the removals
/// reach exactly to the end of the run an index lies in, and no further than
/// the index itself elsewhere.
proof fn lemma_cover_runs(m: Map<usize, (usize, Seq<Event>)>, k: nat)
    requires
        forall|a: nat, k: nat|
            #![trigger removes_at(m, a), removes_at(m, k)]
            removes_at(m, a) > 0 && a < k < a + removes_at(m, a) ==> removes_at(m, k) == 0,
    ensures
        forall|a: nat|
            #![trigger removes_at(m, a)]
            removes_at(m, a) > 0 && a <= k < a + removes_at(m, a) ==> cover_through(m, k) == a
                + removes_at(m, a),
        cover_through(m, k) <= k || exists|a: nat|
            #![trigger removes_at(m, a)]
            removes_at(m, a) > 0 && a <= k < a + removes_at(m, a),
    decreases k,
{
    if k > 0 {
        let p = (k - 1) as nat;
        lemma_cover_runs(m, p);
        assert forall|a: nat|
            #![trigger removes_at(m, a)]
            removes_at(m, a) > 0 && a <= k < a + removes_at(m, a) implies cover_through(m, k) == a
            + removes_at(m, a) by {
            if a == k {
                if cover_through(m, p) > p {
                    let b = choose|b: nat|
                        #![trigger removes_at(m, b)]
                        removes_at(m, b) > 0 && b <= p < b + removes_at(m, b);
                    if k < b + removes_at(m, b) {
                        assert(removes_at(m, k) == 0);
                    }
                }
            } else {
                assert(removes_at(m, k) == 0);
            }
        }
        if removes_at(m, k) == 0 && cover_through(m, p) > p {
            let b = choose|b: nat|
                #![trigger removes_at(m, b)]
                removes_at(m, b) > 0 && b <= p < b + removes_at(m, b);
            assert(cover_through(m, p) == b + removes_at(m, b));
        }
    }
}

/// Positions that are dropped and have nothing inserted after the first lay
/// out as what is inserted at the first.
proof fn lemma_gap_between(events: Seq<Event>, m: Map<usize, (usize, Seq<Event>)>, i: nat, j: nat)
    requires
        i < j,
        forall|k: nat| i <= k < j ==> !#[trigger] kept(m, k),
        forall|k: nat| i < k < j ==> #[trigger] adds_at(m, k).len() == 0,
    ensures
        layout_between(events, m, i, j) == adds_at(m, i),
    decreases j,
{
    let p = (j - 1) as nat;
    assert(!kept(m, p));
    assert(own_event(events, m, p) =~= Seq::<Event>::empty());
    if p > i {
        lemma_gap_between(events, m, i, p);
        assert(adds_at(m, p).len() == 0);
        assert(layout_between(events, m, i, j) =~= adds_at(m, i));
    } else {
        assert(layout_between(events, m, i, i) =~= Seq::<Event>::empty());
        assert(layout_between(events, m, i, j) =~= adds_at(m, i));
    }
}

/// Between two positions that are not inside a removed run, the layout opens
/// and closes spans as the events between them do.
#[verifier::spinoff_prover]
#[verifier::rlimit(50)]
pub proof fn lemma_runs_between(
    events: Seq<Event>,
    m: Map<usize, (usize, Seq<Event>)>,
    i: nat,
    j: nat,
    stack: Seq<Name>,
)
    requires
        replaces_runs(events, m),
        i <= j <= events.len(),
        forall|a: nat|
            #![trigger removes_at(m, a)]
            removes_at(m, a) > 0 ==> !(a < i < a + removes_at(m, a)) && !(a < j < a + removes_at(
                m,
                a,
            )),
    ensures
        open_spans(stack, layout_between(events, m, i, j)) == open_spans(
            stack,
            events.subrange(i as int, j as int),
        ),
    decreases j,
{
    if j == i {
        assert(layout_between(events, m, i, j) =~= events.subrange(i as int, j as int));
    } else {
        let k = (j - 1) as nat;
        lemma_cover_runs(m, k);
        if exists|a: nat|
            #![trigger removes_at(m, a)]
            removes_at(m, a) > 0 && a <= k < a + removes_at(m, a) {
            let a = choose|a: nat|
                #![trigger removes_at(m, a)]
                removes_at(m, a) > 0 && a <= k < a + removes_at(m, a);
            let r = removes_at(m, a);
            assert(i <= a);
            assert(j == a + r);
            assert forall|b: nat|
                #![trigger removes_at(m, b)]
                removes_at(m, b) > 0 implies !(b < i < b + removes_at(m, b)) && !(b < a < b
                + removes_at(m, b)) by {
                if b < a < b + removes_at(m, b) {
                    assert(removes_at(m, a) == 0);
                }
            }
            lemma_runs_between(events, m, i, a, stack);
            assert forall|q: nat| a <= q < j implies !#[trigger] kept(m, q) by {
                lemma_cover_runs(m, q);
            }
            assert forall|q: nat| a < q < j implies #[trigger] adds_at(m, q).len() == 0 by {
                assert(removes_at(m, q) == 0);
            }
            lemma_gap_between(events, m, a, j);
            lemma_layout_between_join(events, m, i, a, j);
            let run = events.subrange(a as int, j as int);
            assert(events.subrange(i as int, j as int) =~= events.subrange(i as int, a as int) + run);
            lemma_open_spans_concat(stack, layout_between(events, m, i, a), adds_at(m, a));
            lemma_open_spans_concat(stack, events.subrange(i as int, a as int), run);
            if open_spans(stack, events.subrange(i as int, a as int)) is Some {
                let open = open_spans(stack, events.subrange(i as int, a as int))->0;
                lemma_well_nested_keeps(open, adds_at(m, a));
                lemma_well_nested_keeps(open, run);
            }
        } else {
            assert(cover_through(m, k) <= k);
            assert(kept(m, k));
            assert forall|a: nat|
                #![trigger removes_at(m, a)]
                removes_at(m, a) > 0 implies !(a < i < a + removes_at(m, a)) && !(a < k < a
                + removes_at(m, a)) by {}
            lemma_runs_between(events, m, i, k, stack);
            lemma_layout_between_join(events, m, i, k, j);
            lemma_layout_between_one(events, m, k);
            assert(adds_at(m, k).len() == 0);
            assert(layout_between(events, m, k, j) =~= seq![events[k as int]]);
            assert(events.subrange(i as int, j as int) =~= events.subrange(i as int, k as int) + seq![
                events[k as int],
            ]);
            lemma_open_spans_concat(stack, layout_between(events, m, i, k), seq![events[k as int]]);
            lemma_open_spans_concat(stack, events.subrange(i as int, k as int), seq![events[k as int]]);
        }
    }
}

/// Existing events from `lo` to `hi`, marked as existing.
spec fn marked(events: Seq<Event>, lo: int, hi: int) -> Seq<(Event, bool)> {
    Seq::new((hi - lo) as nat, |i: int| (events[lo + i], true))
}

/// The edit map holding one edit.
pub open spec fn single_edit(at: usize, remove: usize, adds: Seq<Event>) -> Map<
    usize,
    (usize, Seq<Event>),
> {
    Map::empty().insert(at, (remove, adds))
}

proof fn lemma_cover_single(at: usize, remove: usize, adds: Seq<Event>, i: nat)
    ensures
        cover_through(single_edit(at, remove, adds), i) == if i >= at && remove > 0 {
            at + remove
        } else {
            0
        },
    decreases i,
{
    if i > 0 {
        lemma_cover_single(at, remove, adds, (i - 1) as nat);
    }
}

proof fn lemma_layout_single(events: Seq<Event>, at: usize, remove: usize, adds: Seq<Event>, n: nat)
    requires
        at + remove <= events.len(),
        n <= events.len() + 1,
    ensures
        ({
            let m = single_edit(at, remove, adds);
            let within = if n <= events.len() {
                n as int
            } else {
                events.len() as int
            };
            let hi = if within > at + remove {
                within
            } else {
                at + remove
            };
            layout(events, m, n) == if n <= at {
                marked(events, 0, n as int)
            } else {
                marked(events, 0, at as int) + adds.map_values(|e: Event| (e, false)) + marked(
                    events,
                    at + remove,
                    hi,
                )
            }
        }),
    decreases n,
{
    let m = single_edit(at, remove, adds);
    if n > 0 {
        let i = (n - 1) as nat;
        lemma_layout_single(events, at, remove, adds, i);
        lemma_cover_single(at, remove, adds, i);
        let added = adds_at(m, i).map_values(|e: Event| (e, false));
        if i == at {
            assert(adds_at(m, i) == adds);
        } else {
            assert(adds_at(m, i) =~= Seq::<Event>::empty());
            assert(added =~= Seq::<(Event, bool)>::empty());
        }
        let within = if n <= events.len() {
            n as int
        } else {
            events.len() as int
        };
        let hi = if within > at + remove {
            within
        } else {
            at + remove
        };
        if n <= at {
            assert(layout(events, m, n) =~= marked(events, 0, n as int));
        } else {
            assert(layout(events, m, n) =~= marked(events, 0, at as int) + adds.map_values(
                |e: Event| (e, false),
            ) + marked(events, at + remove, hi));
        }
    }
}

/// One edit replaces the `remove` events from index `at` by the inserted
/// events: the events before stay before and the events after stay after.
pub proof fn lemma_applied_single(events: Seq<Event>, at: usize, remove: usize, adds: Seq<Event>)
    requires
        at + remove <= events.len(),
        forall|i: int| 0 <= i < events.len() ==> (#[trigger] events[i]).link is None,
    ensures
        applied(events, single_edit(at, remove, adds)) == events.take(at as int) + adds
            + events.skip(at + remove),
{
    let m = single_edit(at, remove, adds);
    let len = events.len();
    lemma_layout_single(events, at, remove, adds, len + 1);
    let p = new_indices(events, m);
    assert forall|k: int| 0 <= k < len implies #[trigger] relink(events[k], p) == events[k] by {}
    assert(applied(events, m) =~= events.take(at as int) + adds + events.skip(at + remove));
}

/// The model of the entries of an edit map.
pub open spec fn entries_view(s: Seq<(usize, usize, Vec<Event>)>) -> Map<usize, (usize, Seq<Event>)>
    decreases s.len(),
{
    if s.len() == 0 {
        Map::empty()
    } else {
        entries_view(s.drop_last()).insert(s.last().0, (s.last().1, s.last().2@))
    }
}

pub open spec fn unique_keys(s: Seq<(usize, usize, Vec<Event>)>) -> bool {
    forall|i: int, j: int| 0 <= i < j < s.len() ==> #[trigger] s[i].0 != #[trigger] s[j].0
}

proof fn lemma_entries_view(s: Seq<(usize, usize, Vec<Event>)>)
    requires
        unique_keys(s),
    ensures
        forall|i: int|
            0 <= i < s.len() ==> #[trigger] entries_view(s).dom().contains(s[i].0) && entries_view(
                s,
            )[s[i].0] == (s[i].1, s[i].2@),
        forall|k: usize|
            #[trigger] entries_view(s).dom().contains(k) ==> exists|i: int|
                0 <= i < s.len() && s[i].0 == k,
    decreases s.len(),
{
    if s.len() > 0 {
        let t = s.drop_last();
        lemma_entries_view(t);
        let last = s.last();
        assert(entries_view(s) == entries_view(t).insert(last.0, (last.1, last.2@)));
        assert forall|i: int| 0 <= i < s.len() implies #[trigger] entries_view(s).dom().contains(
            s[i].0,
        ) && entries_view(s)[s[i].0] == (s[i].1, s[i].2@) by {
            if i < s.len() - 1 {
                assert(t[i] == s[i]);
                assert(entries_view(t).dom().contains(t[i].0));
                assert(s[i].0 != s[s.len() - 1].0);
            }
        }
        assert forall|k: usize| #[trigger] entries_view(s).dom().contains(k) implies exists|i: int|
            0 <= i < s.len() && s[i].0 == k by {
            if k != last.0 {
                assert(entries_view(t).dom().contains(k));
                let i = choose|i: int| 0 <= i < t.len() && t[i].0 == k;
                assert(s[i].0 == k);
            } else {
                assert(s[s.len() - 1].0 == k);
            }
        }
    }
}

proof fn lemma_entries_view_update(s: Seq<(usize, usize, Vec<Event>)>, i: int, e: (usize, usize, Vec<Event>))
    requires
        unique_keys(s),
        0 <= i < s.len(),
        e.0 == s[i].0,
    ensures
        entries_view(s.update(i, e)) == entries_view(s).insert(e.0, (e.1, e.2@)),
    decreases s.len(),
{
    let u = s.update(i, e);
    if i == s.len() - 1 {
        assert(u.drop_last() =~= s.drop_last());
        assert(entries_view(u) =~= entries_view(s).insert(e.0, (e.1, e.2@)));
    } else {
        let t = s.drop_last();
        assert(u.drop_last() =~= t.update(i, e));
        assert(unique_keys(t));
        lemma_entries_view_update(t, i, e);
        assert(s.last().0 != e.0);
        assert(entries_view(u) =~= entries_view(s).insert(e.0, (e.1, e.2@)));
    }
}

/// Tracks a bunch of edits.
pub struct EditMap {
    /// Record of changes: index, number of events to remove there, and
    /// events to insert there.
    map: Vec<(usize, usize, Vec<Event>)>,
}

impl View for EditMap {
    type V = Map<usize, (usize, Seq<Event>)>;

    closed spec fn view(&self) -> Map<usize, (usize, Seq<Event>)> {
        entries_view(self.map@)
    }
}

impl EditMap {
    /// Each index has at most one entry.
    #[verifier::type_invariant]
    closed spec fn inv(self) -> bool {
        unique_keys(self.map@)
    }

    /// Create a new edit map.
    pub fn new() -> (r: EditMap)
        ensures
            r@ == Map::<usize, (usize, Seq<Event>)>::empty(),
    {
        let r = EditMap { map: Vec::new() };
        assert(r@ =~= Map::<usize, (usize, Seq<Event>)>::empty());
        r
    }

    /// The entry for index `at`, if any.
    fn find(&self, at: usize) -> (r: Option<usize>)
        ensures
            match r {
                Some(i) => i < self.map@.len() && self.map@[i as int].0 == at && self@.dom().contains(at)
                    && self@[at] == (self.map@[i as int].1, self.map@[i as int].2@),
                None => !self@.dom().contains(at),
            },
    {
        proof {
            use_type_invariant(self);
            lemma_entries_view(self.map@);
        }
        let mut i: usize = 0;
        while i < self.map.len()
            invariant
                i <= self.map@.len(),
                forall|j: int| 0 <= j < i ==> self.map@[j].0 != at,
            decreases self.map@.len() - i,
        {
            if self.map[i].0 == at {
                proof {
                    use_type_invariant(self);
                    lemma_entries_view(self.map@);
                    assert(entries_view(self.map@).dom().contains(self.map@[i as int].0));
                }
                return Some(i);
            }
            i = i + 1;
        }
        None
    }

    /// Create an edit: a remove and/or add at a certain place.
    pub fn add(&mut self, index: usize, remove: usize, add: Vec<Event>)
        requires
            old(self)@.dom().contains(index) ==> old(self)@[index].0 + remove <= usize::MAX,
        ensures
            final(self)@ == add_edit(old(self)@, index, remove, add@),
    {
        proof {
            use_type_invariant(&*self);
        }
        if remove == 0 && add.len() == 0 {
            return;
        }
        let ghost s = self.map@;
        let found = self.find(index);
        let mut map: Vec<(usize, usize, Vec<Event>)> = Vec::new();
        std::mem::swap(&mut map, &mut self.map);
        match found {
            Some(i) => {
                let (at, removed, mut adds) = map.remove(i);
                let mut add = add;
                adds.append(&mut add);
                map.insert(i, (at, removed + remove, adds));
                proof {
                    let e = (at, (removed + remove) as usize, adds);
                    assert(map@ =~= s.update(i as int, e));
                    assert forall|a: int, b: int|
                        0 <= a < b < map@.len() implies #[trigger] map@[a].0
                        != #[trigger] map@[b].0 by {
                        assert(map@[a].0 == s[a].0);
                        assert(map@[b].0 == s[b].0);
                    }
                    lemma_entries_view_update(s, i as int, e);
                }
            },
            None => {
                map.push((index, remove, add));
                proof {
                    lemma_entries_view(s);
                    assert(map@.drop_last() =~= s);
                    assert forall|a: int, b: int|
                        0 <= a < b < map@.len() implies #[trigger] map@[a].0
                        != #[trigger] map@[b].0 by {
                        if b == s.len() {
                            assert(map@[a] == s[a]);
                            assert(s.contains(s[a]));
                        } else {
                            assert(map@[a] == s[a]);
                            assert(map@[b] == s[b]);
                        }
                    }
                }
            },
        }
        self.map = map;
    }

    /// Create an edit: a remove and/or add at a certain place, with the added
    /// events before those already added there.
    pub fn add_before(&mut self, index: usize, remove: usize, add: Vec<Event>)
        requires
            old(self)@.dom().contains(index) ==> old(self)@[index].0 + remove <= usize::MAX,
        ensures
            final(self)@ == add_edit_before(old(self)@, index, remove, add@),
    {
        proof {
            use_type_invariant(&*self);
        }
        if remove == 0 && add.len() == 0 {
            return;
        }
        let ghost s = self.map@;
        let found = self.find(index);
        let mut map: Vec<(usize, usize, Vec<Event>)> = Vec::new();
        std::mem::swap(&mut map, &mut self.map);
        match found {
            Some(i) => {
                let (at, removed, mut adds) = map.remove(i);
                let mut add = add;
                add.append(&mut adds);
                map.insert(i, (at, removed + remove, add));
                proof {
                    let e = (at, (removed + remove) as usize, add);
                    assert(map@ =~= s.update(i as int, e));
                    assert forall|a: int, b: int|
                        0 <= a < b < map@.len() implies #[trigger] map@[a].0
                        != #[trigger] map@[b].0 by {
                        assert(map@[a].0 == s[a].0);
                        assert(map@[b].0 == s[b].0);
                    }
                    lemma_entries_view_update(s, i as int, e);
                }
            },
            None => {
                map.push((index, remove, add));
                proof {
                    lemma_entries_view(s);
                    assert(map@.drop_last() =~= s);
                    assert forall|a: int, b: int|
                        0 <= a < b < map@.len() implies #[trigger] map@[a].0
                        != #[trigger] map@[b].0 by {
                        if b == s.len() {
                            assert(map@[a] == s[a]);
                            assert(s.contains(s[a]));
                        } else {
                            assert(map@[a] == s[a]);
                            assert(map@[b] == s[b]);
                        }
                    }
                }
            },
        }
        self.map = map;
    }

    /// Lay out the events inserted at `at`; answer how many events are
    /// removed there.
    fn lay_adds(&self, at: usize, laid: &mut Vec<(Event, bool)>) -> (removed: usize)
        ensures
            final(laid)@ == old(laid)@ + adds_at(self@, at as nat).map_values(|e: Event| (e, false)),
            removed == removes_at(self@, at as nat),
    {
        match self.find(at) {
            Some(i) => {
                let entry = &self.map[i];
                let adds = &entry.2;
                let ghost start = laid@;
                let mut k: usize = 0;
                while k < adds.len()
                    invariant
                        k <= adds@.len(),
                        laid@ == start + adds@.take(k as int).map_values(|e: Event| (e, false)),
                    decreases adds@.len() - k,
                {
                    laid.push((adds[k], false));
                    proof {
                        assert(adds@.take(k + 1) =~= adds@.take(k as int).push(adds@[k as int]));
                        assert(adds@.take(k + 1).map_values(|e: Event| (e, false)) =~= adds@.take(
                            k as int,
                        ).map_values(|e: Event| (e, false)).push((adds@[k as int], false)));
                    }
                    k = k + 1;
                }
                assert(adds@.take(k as int) =~= adds@);
                entry.1
            },
            None => {
                assert(adds_at(self@, at as nat).map_values(|e: Event| (e, false)) =~= Seq::<
                    (Event, bool),
                >::empty());
                assert(laid@ =~= old(laid)@ + Seq::<(Event, bool)>::empty());
                0
            },
        }
    }

    /// Move the link targets of `e` to their new places.
    fn relink_event(e: Event, positions: &Vec<usize>) -> (r: Event)
        ensures
            r == relink(e, positions@),
    {
        match e.link {
            Some(l) => {
                let previous = match l.previous {
                    Some(t) => if t < positions.len() {
                        Some(positions[t])
                    } else {
                        Some(t)
                    },
                    None => None,
                };
                let next = match l.next {
                    Some(t) => if t < positions.len() {
                        Some(positions[t])
                    } else {
                        Some(t)
                    },
                    None => None,
                };
                Event { link: Some(Link { previous, next, content: l.content }), ..e }
            },
            None => e,
        }
    }

    /// Done, change the events.
    pub fn consume(&mut self, events: &mut Vec<Event>)
        requires
            edits_fit(old(self)@, old(events)@.len()),
        ensures
            final(events)@ == applied(old(events)@, old(self)@),
            final(self)@ == Map::<usize, (usize, Seq<Event>)>::empty(),
    {
        let ghost m = self@;
        let ghost ev = events@;
        let len: usize = events.len();
        let mut laid: Vec<(Event, bool)> = Vec::new();
        let mut positions: Vec<usize> = Vec::new();
        let mut cover: usize = 0;
        let mut pos: usize = 0;
        assert(laid@ =~= layout(ev, m, 0));
        while pos < len
            invariant
                len == ev.len(),
                events@ == ev,
                self@ == m,
                edits_fit(m, len as nat),
                pos <= len,
                laid@ == layout(ev, m, pos as nat),
                positions@.len() == pos,
                forall|j: int| 0 <= j < pos ==> positions@[j] == new_index(ev, m, j as nat),
                pos > 0 ==> cover == cover_through(m, (pos - 1) as nat),
                pos == 0 ==> cover == 0,
                cover <= len,
            decreases len - pos,
        {
            let ghost before = laid@;
            let removed = self.lay_adds(pos, &mut laid);
            positions.push(laid.len());
            let here: usize = if removed > 0 {
                proof {
                    assert(m.dom().contains(pos));
                }
                pos + removed
            } else {
                0
            };
            if here > cover {
                cover = here;
            }
            assert(cover == cover_through(m, pos as nat));
            if !(pos < cover) {
                laid.push((events[pos], true));
            }
            proof {
                let added = adds_at(m, pos as nat).map_values(|e: Event| (e, false));
                let own = if pos < ev.len() && kept(m, pos as nat) {
                    seq![(ev[pos as int], true)]
                } else {
                    Seq::empty()
                };
                assert(layout(ev, m, (pos + 1) as nat) == layout(ev, m, pos as nat) + added + own);
                assert(laid@ =~= layout(ev, m, (pos + 1) as nat));
            }
            pos = pos + 1;
        }
        self.lay_adds(len, &mut laid);
        proof {
            let added = adds_at(m, len as nat).map_values(|e: Event| (e, false));
            assert(layout(ev, m, (len + 1) as nat) == layout(ev, m, len as nat) + added + Seq::<
                (Event, bool),
            >::empty());
            assert(laid@ =~= layout(ev, m, (len + 1) as nat));
            assert(positions@ =~= new_indices(ev, m));
        }
        let mut result: Vec<Event> = Vec::new();
        let mut k: usize = 0;
        while k < laid.len()
            invariant
                k <= laid@.len(),
                laid@ == layout(ev, m, (ev.len() + 1) as nat),
                positions@ == new_indices(ev, m),
                result@.len() == k,
                forall|j: int|
                    0 <= j < k ==> result@[j] == (if laid@[j].1 {
                        relink(laid@[j].0, positions@)
                    } else {
                        laid@[j].0
                    }),
            decreases laid@.len() - k,
        {
            let (e, own) = laid[k];
            if own {
                result.push(Self::relink_event(e, &positions));
            } else {
                result.push(e);
            }
            k = k + 1;
        }
        assert(result@ =~= applied(ev, m));
        *events = result;
        self.map = Vec::new();
        assert(self@ =~= Map::<usize, (usize, Seq<Event>)>::empty());
    }
}

} // verus!
