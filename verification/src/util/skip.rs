//! Move across lists of events.

use vstd::prelude::*;
use crate::event::{Event, Kind, Name};

verus! {

/// Whether `name` is one of `names`.
pub fn contains_name(names: &[Name], name: Name) -> (r: bool)
    ensures
        r == names@.contains(name),
{
    let mut i: usize = 0;
    while i < names.len()
        invariant
            i <= names@.len(),
            forall|j: int| 0 <= j < i ==> names@[j] != name,
        decreases names@.len() - i,
    {
        if names[i] == name {
            assert(names@[i as int] == name);
            return true;
        }
        i = i + 1;
    }
    false
}

/// An index as the tokenizer stores it: `-1`, before the first event, wraps
/// around to `usize::MAX`.
pub open spec fn wrapped(index: int) -> usize {
    if index < 0 {
        usize::MAX
    } else {
        index as usize
    }
}

/// Walking back from `j` with `balance` spans open, the index of the enter
/// event that closes the span `name`; `None` when the events run out or
/// close more spans than are open.
pub open spec fn back_match(events: Seq<Event>, j: int, balance: nat, name: Name) -> Option<int>
    decreases j + 1,
{
    if j < 0 || j >= events.len() {
        None
    } else {
        let b: int = if events[j].kind == Kind::Exit {
            balance + 1int
        } else {
            balance - 1
        };
        if b < 0 {
            None
        } else if events[j].name == name && b == 0 {
            Some(j)
        } else {
            back_match(events, j - 1, b as nat, name)
        }
    }
}

pub proof fn lemma_back_match_bounds(events: Seq<Event>, j: int, balance: nat, name: Name)
    ensures
        back_match(events, j, balance, name) matches Some(k) ==> 0 <= k <= j,
    decreases j + 1,
{
    if 0 <= j < events.len() {
        let b: int = if events[j].kind == Kind::Exit {
            balance + 1int
        } else {
            balance - 1
        };
        if b >= 0 && !(events[j].name == name && b == 0) {
            lemma_back_match_bounds(events, j - 1, b as nat, name);
        }
    }
}

/// Walking back from `index`, skip whole spans named by `names`: the index
/// of the first event that is not the exit of such a span.
/// `None` when a span has no matching enter.
pub open spec fn opt_back_spec(events: Seq<Event>, index: int, names: Seq<Name>) -> Option<int>
    decreases index + 1,
{
    if index < 0 || index >= events.len() {
        Some(index)
    } else if !names.contains(events[index].name) || events[index].kind != Kind::Exit {
        Some(index)
    } else {
        match back_match(events, index - 1, 1, events[index].name) {
            Some(j) => {
                proof {
                    lemma_back_match_bounds(events, index - 1, 1, events[index].name);
                }
                opt_back_spec(events, j - 1, names)
            },
            None => None,
        }
    }
}

/// Walking back from `index`, the index of the first event named by
/// `names` (`-1` if there is none).
pub open spec fn to_back_spec(events: Seq<Event>, index: int, names: Seq<Name>) -> int
    decreases index + 1,
{
    if index < 0 || index >= events.len() {
        index
    } else if names.contains(events[index].name) {
        index
    } else {
        to_back_spec(events, index - 1, names)
    }
}

/// Skip from `index` backwards past whole spans named by `names`.
pub fn opt_back(events: &[Event], index: usize, names: &[Name]) -> (r: usize)
    requires
        events@.len() < usize::MAX,
        opt_back_spec(events@, index as int, names@) is Some,
    ensures
        r == wrapped(opt_back_spec(events@, index as int, names@).unwrap()),
{
    let ghost target = opt_back_spec(events@, index as int, names@);
    let mut index: usize = index;
    let ghost mut at: int = index as int;
    let mut balance: usize = 0;
    while index < events.len()
        invariant
            events@.len() < usize::MAX,
            at >= 0 ==> index == at,
            at < 0 ==> index == usize::MAX && at == -1,
            opt_back_spec(events@, at, names@) == target,
            target is Some,
            balance == 0,
        ensures
            target == Some(at),
        decreases at + 1,
    {
        let current = events[index].name;
        if !contains_name(names, current) || events[index].kind != Kind::Exit {
            assert(opt_back_spec(events@, at, names@) == Some(at));
            break;
        }
        let ghost k = back_match(events@, at - 1, 1, current).unwrap();
        proof {
            lemma_back_match_bounds(events@, at - 1, 1, current);
        }
        index = index - 1;
        balance = balance + 1;
        let ghost mut j: int = at - 1;
        loop
            invariant_except_break
                events@.len() < usize::MAX,
                0 <= k <= j < events@.len(),
                index == j,
                back_match(events@, j, balance as nat, current) == Some(k),
                balance <= at - j,
                at < events@.len(),
            ensures
                index == k,
                j == k,
                balance == 0,
            decreases j,
        {
            let ghost old_balance = balance;
            if events[index].kind == Kind::Exit {
                balance = balance + 1;
            } else {
                balance = balance - 1;
            }
            if events[index].name == current && balance == 0 {
                break;
            }
            proof {
                lemma_back_match_bounds(events@, j - 1, balance as nat, current);
            }
            index = index - 1;
            proof {
                j = j - 1;
            }
        }
        proof {
            at = j - 1;
        }
        index = if index == 0 {
            usize::MAX
        } else {
            index - 1
        };
    }
    index
}

/// Find the first event named by `names`, walking back from `index`.
pub fn to_back(events: &[Event], index: usize, names: &[Name]) -> (r: usize)
    ensures
        r == wrapped(to_back_spec(events@, index as int, names@)),
{
    let ghost target = to_back_spec(events@, index as int, names@);
    let mut index: usize = index;
    let ghost mut at: int = index as int;
    while index < events.len()
        invariant
            at >= 0 ==> index == at,
            at < 0 ==> index == usize::MAX && at == -1,
            to_back_spec(events@, at, names@) == target,
        ensures
            target == at,
        decreases at + 1,
    {
        if contains_name(names, events[index].name) {
            assert(to_back_spec(events@, at, names@) == at);
            break;
        }
        index = if index == 0 {
            usize::MAX
        } else {
            index - 1
        };
        proof {
            at = at - 1;
        }
    }
    index
}

} // verus!
