//! Deal with bytes of the document.

use vstd::prelude::*;
use crate::event::{Event, Kind, Name, Point};

verus! {

/// Walking back from `k`, the index of the first enter event named `name`
/// (`-1` if there is none).
pub open spec fn enter_back(events: Seq<Event>, name: Name, k: int) -> int
    decreases k + 1,
{
    if k < 0 || k >= events.len() {
        -1
    } else if events[k].kind == Kind::Enter && events[k].name == name {
        k
    } else {
        enter_back(events, name, k - 1)
    }
}

proof fn lemma_enter_back_bounds(events: Seq<Event>, name: Name, k: int)
    requires
        -1 <= k < events.len(),
    ensures
        -1 <= enter_back(events, name, k) <= k,
    decreases k + 1,
{
    if k >= 0 && !(events[k].kind == Kind::Enter && events[k].name == name) {
        lemma_enter_back_bounds(events, name, k - 1);
    }
}

/// A range of the document, between two points.
#[derive(Clone, Copy, Debug)]
pub struct Position {
    /// Where it starts.
    pub start: Point,
    /// Where it ends.
    pub end: Point,
}

impl Position {
    /// The position of the span that the exit event at `index` closes.
    pub fn from_exit_event(events: &[Event], index: usize) -> (r: Position)
        requires
            index < events@.len(),
            enter_back(events@, events@[index as int].name, index - 1) >= 0,
        ensures
            r.start == events@[enter_back(events@, events@[index as int].name, index - 1)].point,
            r.end == events@[index as int].point,
    {
        let name = events[index].name;
        let ghost target = enter_back(events@, name, index - 1);
        proof {
            lemma_enter_back_bounds(events@, name, index - 1);
        }
        let mut enter_index: usize = index - 1;
        loop
            invariant
                0 <= target <= enter_index < index < events@.len(),
                enter_back(events@, name, enter_index as int) == target,
            ensures
                enter_index == target,
            decreases enter_index,
        {
            if events[enter_index].kind == Kind::Enter && events[enter_index].name == name {
                break;
            }
            proof {
                lemma_enter_back_bounds(events@, name, enter_index - 1);
            }
            enter_index = enter_index - 1;
        }
        Position { start: events[enter_index].point, end: events[index].point }
    }
}

/// Bytes of the document.
pub struct Slice<'a> {
    /// The bytes.
    pub bytes: &'a [u8],
}

impl<'a> Slice<'a> {
    /// The bytes between two byte offsets.
    pub fn from_indices(bytes: &'a [u8], start: usize, end: usize) -> (r: Slice<'a>)
        requires
            start <= end <= bytes@.len(),
        ensures
            r.bytes@ == bytes@.subrange(start as int, end as int),
    {
        Slice { bytes: &bytes[start..end] }
    }

    /// The bytes of a position.
    pub fn from_position(bytes: &'a [u8], position: &Position) -> (r: Slice<'a>)
        requires
            position.start.index <= position.end.index <= bytes@.len(),
        ensures
            r.bytes@ == bytes@.subrange(position.start.index as int, position.end.index as int),
    {
        Self::from_indices(bytes, position.start.index, position.end.index)
    }
}

} // verus!
