//! The wire protocol.
//!
//! Maelstrom's envelope plus three additive types (`set_timer`, `timer`, `done`). The harness only
//! interprets messages addressed to [`HARNESS`]; anything addressed to a node is opaque payload it
//! merely routes.

use vstd::prelude::*;
use crate::json::{Json, JsonV, spec_str_field, spec_as_u64, spec_get};
use crate::text::text;

verus! {

/// The address of the harness itself.
pub const HARNESS: &'static str = "harness";

pub open spec fn harness_name() -> Seq<char> {
    seq!['h', 'a', 'r', 'n', 'e', 's', 's']
}

/// The harness's own address, as a string.
pub fn harness() -> (s: String)
    ensures
        s@ == harness_name(),
{
    proof {
        reveal_strlit("harness");
    }
    let s = text(HARNESS);
    assert(s@ =~= harness_name());
    s
}

#[derive(Debug)]
pub struct Envelope {
    pub src: String,
    pub dest: String,
    pub body: Json,
}

/// An envelope as a value.
pub struct EnvelopeV {
    pub src: Seq<char>,
    pub dest: Seq<char>,
    pub body: JsonV,
}

impl View for Envelope {
    type V = EnvelopeV;

    open spec fn view(&self) -> EnvelopeV {
        EnvelopeV { src: self.src@, dest: self.dest@, body: self.body@ }
    }
}

/// The harness's address is the name it answers to.
pub proof fn lemma_harness_name()
    ensures
        HARNESS@ == harness_name(),
{
    reveal_strlit("harness");
    assert(HARNESS@ =~= harness_name());
}

impl Envelope {
    pub fn new(src: &str, dest: &str, body: Json) -> (e: Envelope)
        ensures
            e.src@ == src@,
            e.dest@ == dest@,
            e.body == body,
    {
        Envelope { src: text(src), dest: text(dest), body }
    }

    /// The `type` discriminator, or the empty string when it is absent or not a string.
    pub open spec fn spec_kind(&self) -> Seq<char> {
        spec_str_field(self.body@, seq!['t', 'y', 'p', 'e'])
    }

    pub fn kind(&self) -> (k: String)
        ensures
            k@ == self.spec_kind(),
    {
        proof {
            reveal_strlit("type");
            assert("type"@ =~= seq!['t', 'y', 'p', 'e']);
        }
        self.body.str_field("type")
    }

    pub fn u64_field(&self, k: &str) -> (v: Option<u64>)
        ensures
            v == spec_as_u64(spec_get(self.body@, k@)),
    {
        self.body.u64_field(k)
    }

    /// A copy of this envelope.
    pub fn duplicate(&self) -> (e: Envelope)
        ensures
            e.src@ == self.src@,
            e.dest@ == self.dest@,
            e.body@ == self.body@,
    {
        Envelope { src: self.src.clone(), dest: self.dest.clone(), body: self.body.duplicate() }
    }
}

} // verus!
