//! Connect the events of embedded content to each other.

use vstd::prelude::*;
use crate::event::{Event, Link};

verus! {

/// The events after connecting the linked events at `previous` and `next`:
/// `previous` points forward to `next` and `next` points back to `previous`.
pub open spec fn linked(events: Seq<Event>, previous: usize, next: usize) -> Seq<Event> {
    let before = events[previous as int];
    let first = events.update(
        previous as int,
        Event { link: Some(Link { next: Some(next), ..before.link.unwrap() }), ..before },
    );
    let after = first[next as int];
    first.update(
        next as int,
        Event { link: Some(Link { previous: Some(previous), ..after.link.unwrap() }), ..after },
    )
}

/// Link the event at `index` to the event two places before it.
pub fn link(events: &mut Vec<Event>, index: usize)
    requires
        2 <= index < old(events)@.len(),
        old(events)@[index - 2].link is Some,
        old(events)@[index as int].link is Some,
    ensures
        final(events)@ == linked(old(events)@, (index - 2) as usize, index),
{
    link_to(events, index - 2, index);
}

/// Link the events at `previous` and `next`.
pub fn link_to(events: &mut Vec<Event>, previous: usize, next: usize)
    requires
        previous < old(events)@.len(),
        next < old(events)@.len(),
        old(events)@[previous as int].link is Some,
        old(events)@[next as int].link is Some,
    ensures
        final(events)@ == linked(old(events)@, previous, next),
{
    let before = events[previous];
    let before_link = before.link.unwrap();
    events.set(
        previous,
        Event { link: Some(Link { next: Some(next), ..before_link }), ..before },
    );
    let after = events[next];
    let after_link = after.link.unwrap();
    events.set(
        next,
        Event { link: Some(Link { previous: Some(previous), ..after_link }), ..after },
    );
}

} // verus!
