//! The journal: a totally ordered log of everything a run did, and the artefact a determinism
//! check diffs.
//!
//! It must contain nothing that varies between runs: no wall-clock, no process ids, no absolute
//! paths. Logical time only. Bodies are written in canonical form, so that two nodes that behaved
//! identically journal identically whatever order their runtimes wrote keys in.

use vstd::prelude::*;
use crate::json::{Json, JsonV, spec_canonical};
use crate::proto::Envelope;
use crate::text::text;

verus! {

/// One message-shaped line: an envelope exactly as it travelled, body in canonical form.
pub open spec fn spec_record_line(seq: u64, t: u64, kind: Seq<char>, src: Seq<char>, dest: Seq<char>, body: JsonV) -> JsonV {
    JsonV::Object(seq![
        (seq!['s', 'e', 'q'], JsonV::Uint(seq)),
        (seq!['t'], JsonV::Uint(t)),
        (seq!['k', 'i', 'n', 'd'], JsonV::Str(kind)),
        (seq!['s', 'r', 'c'], JsonV::Str(src)),
        (seq!['d', 'e', 's', 't'], JsonV::Str(dest)),
        (seq!['b', 'o', 'd', 'y'], spec_canonical(body)),
    ])
}

/// One event-shaped line: what the harness did on its own.
pub open spec fn spec_note_line(seq: u64, t: u64, kind: Seq<char>, detail: JsonV) -> JsonV {
    JsonV::Object(seq![
        (seq!['s', 'e', 'q'], JsonV::Uint(seq)),
        (seq!['t'], JsonV::Uint(t)),
        (seq!['k', 'i', 'n', 'd'], JsonV::Str(kind)),
        (seq!['d', 'e', 't', 'a', 'i', 'l'], spec_canonical(detail)),
    ])
}

/// The `seq` of a journal line.
pub open spec fn line_seq(line: JsonV) -> Option<u64> {
    match line {
        JsonV::Object(es) => if es.len() > 0 && es[0].0 == seq!['s', 'e', 'q'] {
            match es[0].1 {
                JsonV::Uint(s) => Some(s),
                _ => None,
            }
        } else {
            None
        },
        _ => None,
    }
}

/// The `t` of a journal line.
pub open spec fn line_time(line: JsonV) -> Option<u64> {
    match line {
        JsonV::Object(es) => if es.len() > 1 && es[1].0 == seq!['t'] {
            match es[1].1 {
                JsonV::Uint(s) => Some(s),
                _ => None,
            }
        } else {
            None
        },
        _ => None,
    }
}

/// The journal of one run.
pub struct Journal {
    count: u64,
    lines: Vec<Json>,
}

impl Journal {
    /// The lines written so far, each by its view.
    pub closed spec fn entries(&self) -> Seq<JsonV> {
        Seq::new(self.lines@.len(), |i: int| self.lines@[i]@)
    }

    /// `seq` is dense from zero, and `t` never goes backwards.
    pub closed spec fn wf(&self) -> bool {
        &&& self.count == self.lines@.len()
        &&& forall|i: int| 0 <= i < self.lines@.len() ==> line_seq(#[trigger] self.lines@[i]@) == Some(i as u64)
        &&& forall|i: int| 0 <= i < self.lines@.len() ==> (#[trigger] line_time(self.lines@[i]@)) is Some
        &&& forall|i: int, j: int| 0 <= i < j < self.lines@.len() ==>
            (#[trigger] line_time(self.lines@[i]@))->0 <= (#[trigger] line_time(self.lines@[j]@))->0
    }

    /// The instant of the last line, or zero.
    pub closed spec fn last_time(&self) -> u64 {
        if self.lines@.len() == 0 { 0 } else { line_time(self.lines@.last()@)->0 }
    }

    /// What a well-formed journal promises its readers: the lines are numbered densely from
    /// zero in the order written, each carries an instant, and no instant is earlier than the
    /// one before it.
    pub proof fn lemma_lines_ordered(&self)
        requires
            self.wf(),
        ensures
            forall|i: int| 0 <= i < self.entries().len() ==> line_seq(#[trigger] self.entries()[i]) == Some(i as u64),
            forall|i: int| 0 <= i < self.entries().len() ==> (#[trigger] line_time(self.entries()[i])) is Some,
            forall|i: int, j: int| 0 <= i < j < self.entries().len() ==>
                (#[trigger] line_time(self.entries()[i]))->0 <= (#[trigger] line_time(self.entries()[j]))->0,
            self.entries().len() > 0 ==> line_time(self.entries().last()) == Some(self.last_time()),
    {
        assert forall|i: int| 0 <= i < self.entries().len() implies #[trigger] self.entries()[i] == self.lines@[i]@ by {}
        assert forall|i: int, j: int| 0 <= i < j < self.entries().len() implies
            (#[trigger] line_time(self.entries()[i]))->0 <= (#[trigger] line_time(self.entries()[j]))->0 by {
            assert(self.entries()[i] == self.lines@[i]@);
            assert(self.entries()[j] == self.lines@[j]@);
        }
    }

    pub fn new() -> (j: Journal)
        ensures
            j.wf(),
            j.entries().len() == 0,
            j.last_time() == 0,
    {
        Journal { count: 0, lines: Vec::new() }
    }

    pub fn len(&self) -> (n: u64)
        requires
            self.wf(),
        ensures
            n == self.entries().len(),
    {
        self.count
    }

    /// One line per event. `seq` is the harness's own ordering, independent of scheduling.
    pub fn record(&mut self, time: u64, kind: &str, env: &Envelope)
        requires
            old(self).wf(),
            time >= old(self).last_time(),
            old(self).entries().len() < u64::MAX,
        ensures
            final(self).wf(),
            final(self).last_time() == time,
            final(self).entries() == old(self).entries().push(
                spec_record_line(old(self).entries().len() as u64, time, kind@, env.src@, env.dest@, env.body@),
            ),
    {
        let body = env.body.canonical();
        let mut es: Vec<(String, Json)> = Vec::new();
        es.push((text("seq"), Json::Uint(self.count)));
        es.push((text("t"), Json::Uint(time)));
        es.push((text("kind"), Json::str(kind)));
        es.push((text("src"), Json::str(env.src.as_str())));
        es.push((text("dest"), Json::str(env.dest.as_str())));
        es.push((text("body"), body));
        let line = Json::Object(es);
        proof {
            reveal_strlit("seq");
            assert("seq"@ =~= seq!['s', 'e', 'q']);
            reveal_strlit("t");
            assert("t"@ =~= seq!['t']);
            reveal_strlit("kind");
            assert("kind"@ =~= seq!['k', 'i', 'n', 'd']);
            reveal_strlit("src");
            assert("src"@ =~= seq!['s', 'r', 'c']);
            reveal_strlit("dest");
            assert("dest"@ =~= seq!['d', 'e', 's', 't']);
            reveal_strlit("body");
            assert("body"@ =~= seq!['b', 'o', 'd', 'y']);
            let v = line@;
            if let JsonV::Object(x) = v {
                let want = seq![
                    (seq!['s', 'e', 'q'], JsonV::Uint(self.count)),
                    (seq!['t'], JsonV::Uint(time)),
                    (seq!['k', 'i', 'n', 'd'], JsonV::Str(kind@)),
                    (seq!['s', 'r', 'c'], JsonV::Str(env.src@)),
                    (seq!['d', 'e', 's', 't'], JsonV::Str(env.dest@)),
                    (seq!['b', 'o', 'd', 'y'], spec_canonical(env.body@)),
                ];
                assert(x.len() == 6);
                assert(es@[0].1@ == JsonV::Uint(self.count));
                assert(es@[1].1@ == JsonV::Uint(time));
                assert(x[0] == want[0]);
                assert(x[1] == want[1]);
                assert(x[2] == want[2]);
                assert(x[3] == want[3]);
                assert(x[4] == want[4]);
                assert(x[5] == want[5]);
                assert(x =~= seq![
                    (seq!['s', 'e', 'q'], JsonV::Uint(self.count)),
                    (seq!['t'], JsonV::Uint(time)),
                    (seq!['k', 'i', 'n', 'd'], JsonV::Str(kind@)),
                    (seq!['s', 'r', 'c'], JsonV::Str(env.src@)),
                    (seq!['d', 'e', 's', 't'], JsonV::Str(env.dest@)),
                    (seq!['b', 'o', 'd', 'y'], spec_canonical(env.body@)),
                ]);
            }
        }
        self.push_line(line, time);
    }

    /// An event-shaped line: what the harness did on its own.
    pub fn note(&mut self, time: u64, kind: &str, detail: Json)
        requires
            old(self).wf(),
            time >= old(self).last_time(),
            old(self).entries().len() < u64::MAX,
        ensures
            final(self).wf(),
            final(self).last_time() == time,
            final(self).entries() == old(self).entries().push(
                spec_note_line(old(self).entries().len() as u64, time, kind@, detail@),
            ),
    {
        let d = detail.canonical();
        let mut es: Vec<(String, Json)> = Vec::new();
        es.push((text("seq"), Json::Uint(self.count)));
        es.push((text("t"), Json::Uint(time)));
        es.push((text("kind"), Json::str(kind)));
        es.push((text("detail"), d));
        let line = Json::Object(es);
        proof {
            reveal_strlit("seq");
            assert("seq"@ =~= seq!['s', 'e', 'q']);
            reveal_strlit("t");
            assert("t"@ =~= seq!['t']);
            reveal_strlit("kind");
            assert("kind"@ =~= seq!['k', 'i', 'n', 'd']);
            reveal_strlit("detail");
            assert("detail"@ =~= seq!['d', 'e', 't', 'a', 'i', 'l']);
            if let JsonV::Object(x) = line@ {
                let want = seq![
                    (seq!['s', 'e', 'q'], JsonV::Uint(self.count)),
                    (seq!['t'], JsonV::Uint(time)),
                    (seq!['k', 'i', 'n', 'd'], JsonV::Str(kind@)),
                    (seq!['d', 'e', 't', 'a', 'i', 'l'], spec_canonical(detail@)),
                ];
                assert(x.len() == 4);
                assert(es@[0].1@ == JsonV::Uint(self.count));
                assert(es@[1].1@ == JsonV::Uint(time));
                assert(x[0] == want[0]);
                assert(x[1] == want[1]);
                assert(x[2] == want[2]);
                assert(x[3] == want[3]);
                assert(x =~= seq![
                    (seq!['s', 'e', 'q'], JsonV::Uint(self.count)),
                    (seq!['t'], JsonV::Uint(time)),
                    (seq!['k', 'i', 'n', 'd'], JsonV::Str(kind@)),
                    (seq!['d', 'e', 't', 'a', 'i', 'l'], spec_canonical(detail@)),
                ]);
            }
        }
        self.push_line(line, time);
    }

    fn push_line(&mut self, line: Json, time: u64)
        requires
            old(self).wf(),
            time >= old(self).last_time(),
            old(self).entries().len() < u64::MAX,
            line_seq(line@) == Some(old(self).count),
            line_time(line@) == Some(time),
        ensures
            final(self).wf(),
            final(self).last_time() == time,
            final(self).entries() == old(self).entries().push(line@),
    {
        let ghost before = self.lines@;
        self.lines.push(line);
        self.count = self.count + 1;
        proof {
            assert forall|i: int, j: int| 0 <= i < j < self.lines@.len() implies
                (#[trigger] line_time(self.lines@[i]@))->0 <= (#[trigger] line_time(self.lines@[j]@))->0 by {
                if j == self.lines@.len() - 1 && i < j {
                    if before.len() > 0 {
                        assert(line_time(before[i]@)->0 <= line_time(before.last()@)->0);
                    }
                }
            }
            assert(self.entries() =~= old(self).entries().push(line@));
        }
    }

    /// Hand over every line written, in order, for the caller to write out.
    pub fn into_lines(self) -> (lines: Vec<Json>)
        ensures
            Seq::new(lines@.len(), |i: int| lines@[i]@) == self.entries(),
    {
        let lines = self.lines;
        proof {
            assert(Seq::new(lines@.len(), |i: int| lines@[i]@) =~= self.entries());
        }
        lines
    }
}

} // verus!
