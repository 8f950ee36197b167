//! What a space must say to mean something.
//!
//! A field that cannot mean what it says is refused when the space is read, rather than ignored
//! during the draw: a silent mistake shows up as a run nobody asked for.

use vstd::prelude::*;
use crate::scenario::{Event, Space};
use crate::text::{push_str, push_char, push_decimal, spec_decimal, text};

verus! {

/// The first thing wrong with one event, taken on its own, at the place named `at`.
pub open spec fn event_error(e: Event, root: bool, at: Seq<char>) -> Option<Seq<char>> {
    if e.nodes is Some && e.count is Some {
        Some(at + ": `nodes` and `count` both say how many; pick one"@)
    } else if root && e.delay is Some {
        Some(at + ": `delay` is relative to a parent, and this is a root"@)
    } else if root && e.at_frac is None {
        Some(at + ": a root needs `at_frac`"@)
    } else if !root && e.at_frac is Some {
        Some(at + ": `at_frac` places a root; a child is placed by `delay` from its parent"@)
    } else if root && e.nodes is None && e.children@.len() > 0 {
        Some(at + ": this root binds no process, so its children have nothing to inherit"@)
    } else if e.count is Some && e.children@.len() > 0 {
        Some(at + ": `count` binds no process, so its children have nothing to inherit"@)
    } else {
        None
    }
}

/// The place of the `i`-th event of a list named `path`.
pub open spec fn place(path: Seq<char>, i: nat) -> Seq<char> {
    path + seq!['['] + spec_decimal(i) + seq![']']
}

/// The first thing wrong with the events of `events` from the `i`-th on, depth first. A child's
/// place follows its parent's: the second child of the first root is `events[0][1]`.
pub open spec fn walk_from(events: Seq<Event>, root: bool, path: Seq<char>, i: nat) -> Option<Seq<char>>
    decreases events, events.len() - i,
{
    if i >= events.len() {
        None
    } else {
        let at = place(path, i);
        match event_error(events[i as int], root, at) {
            Some(m) => Some(m),
            None => {
                proof {
                    assert(decreases_to!(events => events[i as int]));
                    assert(decreases_to!(events[i as int] => events[i as int].children));
                    assert(decreases_to!(events[i as int].children => events[i as int].children@));
                }
                match walk_from(events[i as int].children@, false, at, 0) {
                    Some(m) => Some(m),
                    None => walk_from(events, root, path, i + 1),
                }
            },
        }
    }
}

/// The first thing wrong with a space, or nothing.
pub open spec fn space_error(sp: &Space) -> Option<Seq<char>> {
    walk_from(sp.events@, true, seq!['e', 'v', 'e', 'n', 't', 's'], 0)
}

fn check_event(e: &Event, root: bool, at: &String) -> (r: Result<(), String>)
    ensures
        match r {
            Ok(()) => event_error(*e, root, at@) is None,
            Err(m) => event_error(*e, root, at@) == Some(m@),
        },
{
    let mut m = at.clone();
    if e.nodes.is_some() && e.count.is_some() {
        push_str(&mut m, ": `nodes` and `count` both say how many; pick one");
        return Err(m);
    }
    if root && e.delay.is_some() {
        push_str(&mut m, ": `delay` is relative to a parent, and this is a root");
        return Err(m);
    }
    if root && e.at_frac.is_none() {
        push_str(&mut m, ": a root needs `at_frac`");
        return Err(m);
    }
    if !root && e.at_frac.is_some() {
        push_str(&mut m, ": `at_frac` places a root; a child is placed by `delay` from its parent");
        return Err(m);
    }
    if root && e.nodes.is_none() && e.children.len() > 0 {
        push_str(&mut m, ": this root binds no process, so its children have nothing to inherit");
        return Err(m);
    }
    if e.count.is_some() && e.children.len() > 0 {
        push_str(&mut m, ": `count` binds no process, so its children have nothing to inherit");
        return Err(m);
    }
    Ok(())
}

fn walk(events: &Vec<Event>, root: bool, path: &String) -> (r: Result<(), String>)
    ensures
        match r {
            Ok(()) => walk_from(events@, root, path@, 0) is None,
            Err(m) => walk_from(events@, root, path@, 0) == Some(m@),
        },
    decreases events@, 0int,
{
    let mut i: usize = 0;
    while i < events.len()
        invariant
            i <= events@.len(),
            walk_from(events@, root, path@, 0) == walk_from(events@, root, path@, i as nat),
        decreases events@.len() - i,
    {
        let mut at = path.clone();
        push_char(&mut at, '[');
        push_decimal(&mut at, i as u64);
        push_char(&mut at, ']');
        assert(at@ =~= place(path@, i as nat));
        let e = &events[i];
        match check_event(e, root, &at) {
            Err(m) => return Err(m),
            Ok(()) => {},
        }
        proof {
            assert(decreases_to!(events@ => events@[i as int]));
            assert(decreases_to!(events@[i as int] => events@[i as int].children));
        }
        match walk(&e.children, false, &at) {
            Err(m) => return Err(m),
            Ok(()) => {},
        }
        i = i + 1;
    }
    Ok(())
}

impl Space {
    /// Refuse a space that cannot mean what it says, naming the first event at fault.
    pub fn validate(&self) -> (r: Result<(), String>)
        ensures
            match r {
                Ok(()) => space_error(self) is None,
                Err(m) => space_error(self) == Some(m@),
            },
    {
        let path = text("events");
        proof {
            reveal_strlit("events");
            assert(path@ =~= seq!['e', 'v', 'e', 'n', 't', 's']);
        }
        walk(&self.events, true, &path)
    }
}

} // verus!
