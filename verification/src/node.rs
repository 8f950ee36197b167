//! What can go wrong talking to a node process, and what a node's output stream means.
//!
//! The processes themselves are the caller's: spawning, piping and the watchdog live outside this
//! crate. What lives here is the vocabulary for their failures and the rule that ends a step.

use vstd::prelude::*;
use crate::proto::{Envelope, harness_name};
use crate::text::{push_str, text};

verus! {

#[derive(Debug)]
pub enum NodeError {
    /// The process could not be started; the reason as the system gave it.
    Spawn(String),
    /// Exited or closed stdout before emitting `done`.
    Eof(String),
    /// Produced nothing for the watchdog interval: almost always a missing `done` or a loop.
    Hung(String),
    /// Reading or writing its pipes failed; the reason as the system gave it.
    Io(String),
    /// A line that is not a JSON envelope: the node and the line.
    Json(String, String),
}

pub open spec fn spec_message(e: NodeError) -> Seq<char> {
    match e {
        NodeError::Spawn(x) => "could not spawn node: "@ + x@,
        NodeError::Eof(id) => "node "@ + id@ + " closed its output before emitting `done`"@,
        NodeError::Hung(id) => "node "@ + id@
            + " produced no output within the watchdog interval (missing `done`, or an infinite loop in a handler)"@,
        NodeError::Io(x) => "io error talking to node: "@ + x@,
        NodeError::Json(id, l) => "node "@ + id@ + " emitted invalid JSON: "@ + l@,
    }
}

impl NodeError {
    /// What the error says to a person.
    pub fn message(&self) -> (s: String)
        ensures
            s@ == spec_message(*self),
    {
        match self {
            NodeError::Spawn(x) => {
                let mut s = text("could not spawn node: ");
                push_str(&mut s, x.as_str());
                s
            },
            NodeError::Eof(id) => {
                let mut s = text("node ");
                push_str(&mut s, id.as_str());
                push_str(&mut s, " closed its output before emitting `done`");
                s
            },
            NodeError::Hung(id) => {
                let mut s = text("node ");
                push_str(&mut s, id.as_str());
                push_str(
                    &mut s,
                    " produced no output within the watchdog interval (missing `done`, or an infinite loop in a handler)",
                );
                s
            },
            NodeError::Io(x) => {
                let mut s = text("io error talking to node: ");
                push_str(&mut s, x.as_str());
                s
            },
            NodeError::Json(id, l) => {
                let mut s = text("node ");
                push_str(&mut s, id.as_str());
                push_str(&mut s, " emitted invalid JSON: ");
                push_str(&mut s, l.as_str());
                s
            },
        }
    }
}

/// Whether an envelope a node emitted is the `done` that ends its step: addressed to the harness,
/// of type `done`. It is the barrier that lets logical time advance, and it is never journalled.
pub open spec fn spec_is_done(env: Envelope) -> bool {
    env.dest@ == harness_name() && env.spec_kind() == seq!['d', 'o', 'n', 'e']
}

pub fn is_done(env: &Envelope) -> (r: bool)
    ensures
        r == spec_is_done(*env),
{
    let h = crate::proto::harness();
    let k = env.kind();
    proof {
        reveal_strlit("done");
        assert("done"@ =~= seq!['d', 'o', 'n', 'e']);
    }
    let done = text("done");
    env.dest == h && k == done
}

} // verus!
