//! Property checkers for the course labs.
//!
//! They read the journal after a run rather than observing it live, which keeps the simulator
//! free of per-lab knowledge. Safety checks apply unconditionally. Liveness checks are dated from
//! the effective GST, never from the scheduled one: a pause landing after GST legitimately delays
//! convergence, and a GST-dated deadline would fail correct implementations.

use vstd::prelude::*;
use crate::json::{Json, JsonV, spec_get, spec_as_str, spec_as_i64, spec_as_u64};
use crate::scenario::Scenario;
use crate::suite::{Events, EventsV, events_of, spec_events, values_view, spec_ty, ty, correct_nodes, spec_correct,
    effective_gst, spec_effective_gst, faults_end_in_range};
use crate::text::{seq_le, text_le, same_text, text, push_str, push_char, push_decimal, spec_decimal,
    lemma_seq_le_total, lemma_seq_le_transitive, lemma_seq_le_antisymmetric, lemma_seq_le_reflexive};
use crate::words::strings_view;

verus! {

#[derive(Debug, Clone, Copy, PartialEq, Eq, Structural)]
pub enum Kind {
    Safety,
    Liveness,
}

#[derive(Debug)]
pub struct Check {
    pub name: &'static str,
    pub kind: Kind,
    pub ok: bool,
    pub detail: String,
}

/// A check as a property states it.
pub struct CheckV {
    pub name: Seq<char>,
    pub kind: Kind,
    pub ok: bool,
    pub detail: Seq<char>,
}

pub open spec fn check_view(c: Check) -> CheckV {
    CheckV { name: c.name@, kind: c.kind, ok: c.ok, detail: c.detail@ }
}

#[derive(Debug)]
pub struct Report {
    pub checks: Vec<Check>,
}

impl View for Report {
    type V = Seq<CheckV>;

    open spec fn view(&self) -> Seq<CheckV> {
        Seq::new(self.checks@.len(), |i: int| check_view(self.checks@[i]))
    }
}

impl Default for Report {
    fn default() -> (r: Report)
        ensures
            r@.len() == 0,
    {
        Report { checks: Vec::new() }
    }
}

impl Report {
    /// Records one check after the others.
    pub fn add(&mut self, name: &'static str, kind: Kind, ok: bool, detail: String)
        ensures
            final(self)@ == old(self)@.push(CheckV { name: name@, kind, ok, detail: detail@ }),
    {
        self.checks.push(Check { name, kind, ok, detail });
        assert(self@ =~= old(self)@.push(CheckV { name: name@, kind, ok, detail: detail@ }));
    }

    /// Whether every check passed.
    pub fn ok(&self) -> (r: bool)
        ensures
            r == (forall|i: int| 0 <= i < self@.len() ==> #[trigger] self@[i].ok),
    {
        let mut i: usize = 0;
        while i < self.checks.len()
            invariant
                i <= self.checks@.len(),
                forall|k: int| 0 <= k < i ==> #[trigger] self@[k].ok,
            decreases self.checks@.len() - i,
        {
            if !self.checks[i].ok {
                assert(!self@[i as int].ok);
                return false;
            }
            i = i + 1;
        }
        true
    }

    /// Whether every safety check passed; liveness checks may have failed.
    pub fn safety_ok(&self) -> (r: bool)
        ensures
            r == (forall|i: int| 0 <= i < self@.len() && #[trigger] self@[i].kind == Kind::Safety ==> self@[i].ok),
    {
        let mut i: usize = 0;
        while i < self.checks.len()
            invariant
                i <= self.checks@.len(),
                forall|k: int| 0 <= k < i && #[trigger] self@[k].kind == Kind::Safety ==> self@[k].ok,
            decreases self.checks@.len() - i,
        {
            if self.checks[i].kind == Kind::Safety && !self.checks[i].ok {
                assert(self@[i as int].kind == Kind::Safety);
                return false;
            }
            i = i + 1;
        }
        true
    }
}

// ------------------------------------------------------------- writing values

/// A string as `{:?}` writes it: quoted, with what needs it escaped.
pub uninterp spec fn debug_quoted(s: Seq<char>) -> Seq<char>;

/// `format!("{:?}", s)` for a `str`. Claimed: the result is `debug_quoted` of `s`.
#[verifier::external_body]
fn debug_text(s: &str) -> (r: String)
    ensures
        r@ == debug_quoted(s@),
{
    format!("{:?}", s)
}

/// `v` in decimal, with a minus sign when negative.
pub open spec fn spec_i64_text(v: i64) -> Seq<char> {
    if v < 0 {
        seq!['-'] + spec_decimal((-(v as int)) as nat)
    } else {
        spec_decimal(v as nat)
    }
}

fn push_i64(s: &mut String, v: i64)
    ensures
        final(s)@ == old(s)@ + spec_i64_text(v),
{
    if v < 0 {
        push_char(s, '-');
        let m: u64 = if v == i64::MIN { 0x8000_0000_0000_0000u64 } else { (-v) as u64 };
        push_decimal(s, m);
        assert(final(s)@ =~= old(s)@ + spec_i64_text(v));
    } else {
        push_decimal(s, v as u64);
    }
}

/// Items joined by `, `.
pub open spec fn join_items(items: Seq<Seq<char>>) -> Seq<char>
    decreases items.len(),
{
    if items.len() == 0 {
        Seq::empty()
    } else if items.len() == 1 {
        items[0]
    } else {
        join_items(items.drop_last()) + ", "@ + items.last()
    }
}

proof fn lemma_join_push(items: Seq<Seq<char>>, x: Seq<char>)
    ensures
        join_items(items.push(x)) == if items.len() == 0 { x } else { join_items(items) + ", "@ + x },
{
    assert(items.push(x).drop_last() =~= items);
}

/// A set of integers as `{:?}` writes it: `{1, 2}`.
pub open spec fn i64_set_text(s: Seq<i64>) -> Seq<char> {
    "{"@ + join_items(Seq::new(s.len(), |i: int| spec_i64_text(s[i]))) + "}"@
}

fn push_i64_set(out: &mut String, s: &Vec<i64>)
    ensures
        final(out)@ == old(out)@ + i64_set_text(s@),
{
    let ghost items = Seq::new(s@.len(), |i: int| spec_i64_text(s@[i]));
    let mut body = String::new();
    let mut i: usize = 0;
    while i < s.len()
        invariant
            i <= s@.len(),
            items == Seq::new(s@.len(), |i: int| spec_i64_text(s@[i])),
            body@ == join_items(items.subrange(0, i as int)),
        decreases s@.len() - i,
    {
        proof {
            lemma_join_push(items.subrange(0, i as int), items[i as int]);
            assert(items.subrange(0, i + 1) =~= items.subrange(0, i as int).push(items[i as int]));
        }
        if i > 0 {
            push_str(&mut body, ", ");
        }
        push_i64(&mut body, s[i]);
        i = i + 1;
    }
    assert(items.subrange(0, s@.len() as int) =~= items);
    push_str(out, "{");
    push_str(out, body.as_str());
    push_str(out, "}");
    assert(final(out)@ =~= old(out)@ + i64_set_text(s@));
}

// ------------------------------------------------------- ordered collections

/// The keys of an association list.
pub open spec fn keys_of<X>(m: Seq<(String, X)>) -> Seq<Seq<char>> {
    Seq::new(m.len(), |i: int| m[i].0@)
}

/// The first position at or after `from` whose key is not before `k`: where `k` is or would go.
pub open spec fn spec_str_pos(keys: Seq<Seq<char>>, k: Seq<char>, from: int) -> int
    decreases keys.len() - from,
{
    if from < 0 || from >= keys.len() {
        if from < 0 { 0 } else { from }
    } else if seq_le(k, keys[from]) {
        from
    } else {
        spec_str_pos(keys, k, from + 1)
    }
}

pub proof fn lemma_str_pos_bounds(keys: Seq<Seq<char>>, k: Seq<char>, from: int)
    requires
        0 <= from <= keys.len(),
    ensures
        from <= spec_str_pos(keys, k, from) <= keys.len(),
    decreases keys.len() - from,
{
    if from < keys.len() && !seq_le(k, keys[from]) {
        lemma_str_pos_bounds(keys, k, from + 1);
    }
}

/// Where the key `k` is, or would go, in the association list `m`.
fn str_pos<X>(m: &Vec<(String, X)>, k: &str) -> (i: usize)
    ensures
        i == spec_str_pos(keys_of(m@), k@, 0),
        i <= m@.len(),
{
    let ghost keys = keys_of(m@);
    let mut i: usize = 0;
    while i < m.len()
        invariant
            keys == keys_of(m@),
            i <= m@.len(),
            spec_str_pos(keys, k@, 0) == spec_str_pos(keys, k@, i as int),
        decreases m@.len() - i,
    {
        assert(keys[i as int] == m@[i as int].0@);
        if text_le(k, m[i].0.as_str()) {
            return i;
        }
        i = i + 1;
    }
    i
}

/// A set of strings kept in order, as `BTreeSet::insert` keeps it.
pub open spec fn str_set_insert(s: Seq<Seq<char>>, k: Seq<char>) -> Seq<Seq<char>> {
    let i = spec_str_pos(s, k, 0);
    if i < s.len() && s[i] == k { s } else { s.insert(i, k) }
}

fn str_set_insert_exec(s: &mut Vec<String>, k: &str)
    ensures
        strings_view(final(s)@) == str_set_insert(strings_view(old(s)@), k@),
{
    let ghost v = strings_view(s@);
    let mut i: usize = 0;
    while i < s.len() && !text_le(k, s[i].as_str())
        invariant
            v == strings_view(s@),
            i <= s@.len(),
            spec_str_pos(v, k@, 0) == spec_str_pos(v, k@, i as int),
        decreases s@.len() - i,
    {
        i = i + 1;
    }
    assert(i < s@.len() ==> v[i as int] == s@[i as int]@);
    proof {
        lemma_str_pos_bounds(v, k@, 0);
    }
    if i < s.len() && same_text(s[i].as_str(), k) {
        return;
    }
    let ghost before = s@;
    s.insert(i, text(k));
    assert(strings_view(s@) =~= v.insert(i as int, k@));
}

/// Whether the strings `s` hold `k`.
pub fn holds_text(s: &Vec<String>, k: &str) -> (r: bool)
    ensures
        r == strings_view(s@).contains(k@),
{
    let mut i: usize = 0;
    while i < s.len()
        invariant
            i <= s@.len(),
            forall|j: int| 0 <= j < i ==> s@[j]@ != k@,
        decreases s@.len() - i,
    {
        if same_text(s[i].as_str(), k) {
            assert(strings_view(s@)[i as int] == k@);
            return true;
        }
        i = i + 1;
    }
    assert(!strings_view(s@).contains(k@)) by {
        if strings_view(s@).contains(k@) {
            let j = choose|j: int| 0 <= j < strings_view(s@).len() && strings_view(s@)[j] == k@;
            assert(s@[j]@ == k@);
        }
    }
    false
}

/// The first position at or after `from` that does not hold a smaller number than `x`.
pub open spec fn i64_pos(s: Seq<i64>, x: i64, from: int) -> int
    decreases s.len() - from,
{
    if from < 0 || from >= s.len() {
        if from < 0 { 0 } else { from }
    } else if x <= s[from] {
        from
    } else {
        i64_pos(s, x, from + 1)
    }
}

/// A set of numbers kept in order, as `BTreeSet::insert` keeps it.
pub open spec fn i64_set_insert(s: Seq<i64>, x: i64) -> Seq<i64> {
    let i = i64_pos(s, x, 0);
    if i < s.len() && s[i] == x { s } else { s.insert(i, x) }
}

proof fn lemma_i64_pos_bounds(s: Seq<i64>, x: i64, from: int)
    requires
        0 <= from <= s.len(),
    ensures
        from <= i64_pos(s, x, from) <= s.len(),
    decreases s.len() - from,
{
    if from < s.len() && x > s[from] {
        lemma_i64_pos_bounds(s, x, from + 1);
    }
}

fn i64_set_insert_exec(s: &mut Vec<i64>, x: i64)
    ensures
        final(s)@ == i64_set_insert(old(s)@, x),
{
    let mut i: usize = 0;
    while i < s.len() && x > s[i]
        invariant
            i <= s@.len(),
            i64_pos(s@, x, 0) == i64_pos(s@, x, i as int),
        decreases s@.len() - i,
    {
        i = i + 1;
    }
    proof {
        lemma_i64_pos_bounds(s@, x, 0);
    }
    if i < s.len() && s[i] == x {
        return;
    }
    s.insert(i, x);
}

// -------------------------------------------------------------------- lab 4

/// Each `(t, node, body)` of a run in order; a property folds over them.
pub type Triples = Seq<(u64, Seq<char>, JsonV)>;

/// The integer at `value` of a body.
pub open spec fn value_of(b: JsonV) -> Option<i64> {
    spec_as_i64(spec_get(b, "value"@))
}

/// The values proposed to the nodes, as a set in order.
pub open spec fn lab4_proposed(stimuli: Triples) -> Seq<i64>
    decreases stimuli.len(),
{
    if stimuli.len() == 0 {
        Seq::empty()
    } else {
        let rest = lab4_proposed(stimuli.drop_last());
        let b = stimuli.last().2;
        if spec_ty(b) == "propose"@ && value_of(b) is Some {
            i64_set_insert(rest, value_of(b)->0)
        } else {
            rest
        }
    }
}

/// `(node, value)`: the first value each node decided, by node name.
pub open spec fn lab4_decided(observes: Triples) -> Seq<(Seq<char>, i64)>
    decreases observes.len(),
{
    if observes.len() == 0 {
        Seq::empty()
    } else {
        let rest = lab4_decided(observes.drop_last());
        let (_, src, b) = observes.last();
        if spec_ty(b) == "decide"@ && value_of(b) is Some {
            let keys = Seq::new(rest.len(), |i: int| rest[i].0);
            let i = spec_str_pos(keys, src, 0);
            if i < rest.len() && rest[i].0 == src { rest } else { rest.insert(i, (src, value_of(b)->0)) }
        } else {
            rest
        }
    }
}

pub open spec fn decided_view(m: Seq<(String, i64)>) -> Seq<(Seq<char>, i64)> {
    Seq::new(m.len(), |i: int| (m[i].0@, m[i].1))
}

/// The distinct values decided, in order.
pub open spec fn distinct_values(d: Seq<(Seq<char>, i64)>) -> Seq<i64>
    decreases d.len(),
{
    if d.len() == 0 {
        Seq::empty()
    } else {
        i64_set_insert(distinct_values(d.drop_last()), d.last().1)
    }
}

/// The decisions on a value nobody proposed, by node name.
pub open spec fn unproposed(d: Seq<(Seq<char>, i64)>, proposed: Seq<i64>) -> Seq<(Seq<char>, i64)>
    decreases d.len(),
{
    if d.len() == 0 {
        Seq::empty()
    } else {
        let rest = unproposed(d.drop_last(), proposed);
        if proposed.contains(d.last().1) { rest } else { rest.push(d.last()) }
    }
}

/// How many of the deciding nodes are among `correct`.
pub open spec fn decided_among(d: Seq<(Seq<char>, i64)>, correct: Seq<Seq<char>>) -> nat
    decreases d.len(),
{
    if d.len() == 0 {
        0
    } else {
        decided_among(d.drop_last(), correct) + if correct.contains(d.last().0) { 1nat } else { 0nat }
    }
}

/// `{"n0": 1, "n1": 2}`.
pub open spec fn decided_text(d: Seq<(Seq<char>, i64)>) -> Seq<char> {
    "{"@ + join_items(Seq::new(d.len(), |i: int| debug_quoted(d[i].0) + ": "@ + spec_i64_text(d[i].1))) + "}"@
}

/// `[("n0", 7)]`.
pub open spec fn pairs_text(d: Seq<(Seq<char>, i64)>) -> Seq<char> {
    "["@ + join_items(Seq::new(d.len(), |i: int| "("@ + debug_quoted(d[i].0) + ", "@ + spec_i64_text(d[i].1) + ")"@)) + "]"@
}

/// What lab 4 (consensus) states of a run.
pub open spec fn spec_lab4(ev: EventsV, correct: Seq<Seq<char>>) -> Seq<CheckV> {
    let proposed = lab4_proposed(ev.stimuli);
    let decided = lab4_decided(ev.observes);
    let distinct = distinct_values(decided);
    let agree = distinct.len() <= 1;
    let bad = unproposed(decided, proposed);
    let n = decided_among(decided, correct);
    let shown = if decided.len() < correct.len() { decided.len() } else { correct.len() };
    seq![
        CheckV {
            name: "otr-agreement"@,
            kind: Kind::Safety,
            ok: agree,
            detail: if agree {
                spec_decimal(decided.len()) + " nodes decided, all on "@ + i64_set_text(distinct)
            } else {
                "CONFLICTING decisions "@ + decided_text(decided)
            },
        },
        CheckV {
            name: "otr-validity"@,
            kind: Kind::Safety,
            ok: bad.len() == 0,
            detail: if bad.len() == 0 {
                "decisions lie in the proposals "@ + i64_set_text(proposed)
            } else {
                "decided a value nobody proposed: "@ + pairs_text(bad)
            },
        },
        CheckV {
            name: "otr-termination"@,
            kind: Kind::Liveness,
            ok: n == correct.len(),
            detail: spec_decimal(shown) + "/"@ + spec_decimal(correct.len()) + " correct nodes decided"@,
        },
    ]
}

/// The integer at `value` of a body.
fn value_at(b: &Json) -> (r: Option<i64>)
    ensures
        r == value_of(b@),
{
    match b.get("value") {
        Some(x) => x.as_i64(),
        None => None,
    }
}

fn push_decided(out: &mut String, d: &Vec<(String, i64)>, pairs: bool)
    ensures
        final(out)@ == old(out)@ + if pairs { pairs_text(decided_view(d@)) } else { decided_text(decided_view(d@)) },
{
    let ghost dv = decided_view(d@);
    let ghost items = if pairs {
        Seq::new(dv.len(), |i: int| "("@ + debug_quoted(dv[i].0) + ", "@ + spec_i64_text(dv[i].1) + ")"@)
    } else {
        Seq::new(dv.len(), |i: int| debug_quoted(dv[i].0) + ": "@ + spec_i64_text(dv[i].1))
    };
    let mut body = String::new();
    let mut i: usize = 0;
    while i < d.len()
        invariant
            dv == decided_view(d@),
            i <= d@.len(),
            items.len() == d@.len(),
            items == if pairs {
                Seq::new(dv.len(), |i: int| "("@ + debug_quoted(dv[i].0) + ", "@ + spec_i64_text(dv[i].1) + ")"@)
            } else {
                Seq::new(dv.len(), |i: int| debug_quoted(dv[i].0) + ": "@ + spec_i64_text(dv[i].1))
            },
            body@ == join_items(items.subrange(0, i as int)),
        decreases d@.len() - i,
    {
        proof {
            lemma_join_push(items.subrange(0, i as int), items[i as int]);
            assert(items.subrange(0, i + 1) =~= items.subrange(0, i as int).push(items[i as int]));
        }
        if i > 0 {
            push_str(&mut body, ", ");
        }
        let ghost at = body@;
        if pairs {
            push_str(&mut body, "(");
        }
        let q = debug_text(d[i].0.as_str());
        push_str(&mut body, q.as_str());
        if pairs {
            push_str(&mut body, ", ");
        } else {
            push_str(&mut body, ": ");
        }
        push_i64(&mut body, d[i].1);
        if pairs {
            push_str(&mut body, ")");
        }
        assert(body@ =~= at + items[i as int]);
        i = i + 1;
    }
    assert(items.subrange(0, d@.len() as int) =~= items);
    if pairs {
        push_str(out, "[");
        push_str(out, body.as_str());
        push_str(out, "]");
    } else {
        push_str(out, "{");
        push_str(out, body.as_str());
        push_str(out, "}");
    }
    assert(final(out)@ =~= old(out)@ + if pairs { pairs_text(dv) } else { decided_text(dv) });
}

/// The first value each node decided, by node name.
fn decisions(ev: &Events) -> (d: Vec<(String, i64)>)
    ensures
        decided_view(d@) == lab4_decided(ev@.observes),
{
    let ghost obs = ev@.observes;
    let mut d: Vec<(String, i64)> = Vec::new();
    let mut i: usize = 0;
    while i < ev.observes.len()
        invariant
            obs == ev@.observes,
            i <= ev.observes@.len(),
            decided_view(d@) == lab4_decided(obs.subrange(0, i as int)),
        decreases ev.observes@.len() - i,
    {
        let ghost pre = obs.subrange(0, i + 1);
        assert(pre.drop_last() =~= obs.subrange(0, i as int));
        assert(pre.last() == obs[i as int]);
        let src = ev.observes[i].1.as_str();
        let b = &ev.observes[i].2;
        if same_text(ty(b), "decide") {
            match value_at(b) {
                Some(v) => {
                    let ghost dv = decided_view(d@);
                    let k = str_pos(&d, src);
                    proof {
                        assert(keys_of(d@) =~= Seq::new(dv.len(), |j: int| dv[j].0));
                        lemma_str_pos_bounds(keys_of(d@), src@, 0);
                    }
                    if k < d.len() && same_text(d[k].0.as_str(), src) {
                    } else {
                        d.insert(k, (text(src), v));
                        assert(decided_view(d@) =~= dv.insert(k as int, (src@, v)));
                    }
                },
                None => {},
            }
        }
        i = i + 1;
    }
    assert(obs.subrange(0, obs.len() as int) =~= obs);
    d
}

/// What lab 4 (consensus) states of a run: one decision, on a proposed value, by every correct node.
pub fn lab4(ev: &Events, sc: &Scenario, r: &mut Report)
    ensures
        final(r)@ == old(r)@ + spec_lab4(ev@, spec_correct(sc.nodes as nat, ev@.crashed)),
{
    let correct = correct_nodes(sc, ev);
    let ghost cv = strings_view(correct@);
    let ghost sts = ev@.stimuli;
    let mut proposed: Vec<i64> = Vec::new();
    let mut i: usize = 0;
    while i < ev.stimuli.len()
        invariant
            sts == ev@.stimuli,
            i <= ev.stimuli@.len(),
            proposed@ == lab4_proposed(sts.subrange(0, i as int)),
        decreases ev.stimuli@.len() - i,
    {
        let ghost pre = sts.subrange(0, i + 1);
        assert(pre.drop_last() =~= sts.subrange(0, i as int));
        assert(pre.last() == sts[i as int]);
        let b = &ev.stimuli[i].2;
        if same_text(ty(b), "propose") {
            match value_at(b) {
                Some(v) => i64_set_insert_exec(&mut proposed, v),
                None => {},
            }
        }
        i = i + 1;
    }
    assert(sts.subrange(0, sts.len() as int) =~= sts);
    let decided = decisions(ev);
    let ghost dv = decided_view(decided@);
    let mut distinct: Vec<i64> = Vec::new();
    let mut bad: Vec<(String, i64)> = Vec::new();
    let mut n: usize = 0;
    let mut i: usize = 0;
    while i < decided.len()
        invariant
            dv == decided_view(decided@),
            cv == strings_view(correct@),
            i <= decided@.len(),
            distinct@ == distinct_values(dv.subrange(0, i as int)),
            decided_view(bad@) == unproposed(dv.subrange(0, i as int), proposed@),
            n == decided_among(dv.subrange(0, i as int), cv),
            n <= i,
        decreases decided@.len() - i,
    {
        let ghost pre = dv.subrange(0, i + 1);
        assert(pre.drop_last() =~= dv.subrange(0, i as int));
        assert(pre.last() == dv[i as int]);
        let v = decided[i].1;
        i64_set_insert_exec(&mut distinct, v);
        let mut found = false;
        let mut j: usize = 0;
        while j < proposed.len()
            invariant
                j <= proposed@.len(),
                found == (exists|k: int| 0 <= k < j && proposed@[k] == v),
            decreases proposed@.len() - j,
        {
            if proposed[j] == v {
                found = true;
            }
            j = j + 1;
        }
        assert(found == proposed@.contains(v));
        if !found {
            let ghost before = bad@;
            bad.push((decided[i].0.clone(), v));
            assert(decided_view(bad@) =~= decided_view(before).push(dv[i as int]));
        }
        if holds_text(&correct, decided[i].0.as_str()) {
            n = n + 1;
        }
        i = i + 1;
    }
    assert(dv.subrange(0, dv.len() as int) =~= dv);
    let ghost checks = spec_lab4(ev@, cv);
    let agree = distinct.len() <= 1;
    let mut d1 = String::new();
    if agree {
        push_decimal(&mut d1, decided.len() as u64);
        push_str(&mut d1, " nodes decided, all on ");
        push_i64_set(&mut d1, &distinct);
    } else {
        push_str(&mut d1, "CONFLICTING decisions ");
        push_decided(&mut d1, &decided, false);
    }
    assert(d1@ =~= checks[0].detail);
    r.add("otr-agreement", Kind::Safety, agree, d1);
    let mut d2 = String::new();
    if bad.len() == 0 {
        push_str(&mut d2, "decisions lie in the proposals ");
        push_i64_set(&mut d2, &proposed);
    } else {
        push_str(&mut d2, "decided a value nobody proposed: ");
        push_decided(&mut d2, &bad, true);
    }
    assert(d2@ =~= checks[1].detail);
    r.add("otr-validity", Kind::Safety, bad.len() == 0, d2);
    let shown = if decided.len() < correct.len() { decided.len() } else { correct.len() };
    let mut d3 = String::new();
    push_decimal(&mut d3, shown as u64);
    push_str(&mut d3, "/");
    push_decimal(&mut d3, correct.len() as u64);
    push_str(&mut d3, " correct nodes decided");
    assert(d3@ =~= checks[2].detail);
    r.add("otr-termination", Kind::Liveness, n == correct.len(), d3);
    assert(final(r)@ =~= old(r)@ + checks);
}

// -------------------------------------------------------------------- lab 2

pub open spec fn str_pairs_view(m: Seq<(String, String)>) -> Seq<(Seq<char>, Seq<char>)> {
    Seq::new(m.len(), |i: int| (m[i].0@, m[i].1@))
}

/// `(node, leader)`: the last leader each node reported, by node name.
pub open spec fn lab2_last(observes: Triples) -> Seq<(Seq<char>, Seq<char>)>
    decreases observes.len(),
{
    if observes.len() == 0 {
        Seq::empty()
    } else {
        let rest = lab2_last(observes.drop_last());
        let (_, src, b) = observes.last();
        let id = spec_as_str(spec_get(b, "id"@));
        if spec_ty(b) == "leader"@ && id is Some {
            let keys = Seq::new(rest.len(), |i: int| rest[i].0);
            let i = spec_str_pos(keys, src, 0);
            if i < rest.len() && rest[i].0 == src {
                rest.update(i, (src, id->0))
            } else {
                rest.insert(i, (src, id->0))
            }
        } else {
            rest
        }
    }
}

/// The entries of `last` for the correct nodes.
pub open spec fn lab2_finals(last: Seq<(Seq<char>, Seq<char>)>, correct: Seq<Seq<char>>) -> Seq<(Seq<char>, Seq<char>)>
    decreases last.len(),
{
    if last.len() == 0 {
        Seq::empty()
    } else {
        let rest = lab2_finals(last.drop_last(), correct);
        if correct.contains(last.last().0) { rest.push(last.last()) } else { rest }
    }
}

// ------------------------------------------------------- keys kept in order

/// Keys in strictly ascending order, so each occurs once.
pub open spec fn keys_ascending(keys: Seq<Seq<char>>) -> bool {
    forall|a: int, b: int| 0 <= a < b < keys.len() ==> seq_le(#[trigger] keys[a], #[trigger] keys[b]) && keys[a] != keys[b]
}

proof fn lemma_str_pos_facts(keys: Seq<Seq<char>>, k: Seq<char>, from: int)
    requires
        0 <= from <= keys.len(),
    ensures
        from <= spec_str_pos(keys, k, from) <= keys.len(),
        forall|j: int| from <= j < spec_str_pos(keys, k, from) ==> !seq_le(k, #[trigger] keys[j]),
        spec_str_pos(keys, k, from) < keys.len() ==> seq_le(k, keys[spec_str_pos(keys, k, from)]),
    decreases keys.len() - from,
{
    if from < keys.len() && !seq_le(k, keys[from]) {
        lemma_str_pos_facts(keys, k, from + 1);
    }
}

/// Where a key goes among ascending keys: onto itself if it is there, and nowhere else; if it is
/// not there, into the one place that keeps them ascending.
proof fn lemma_str_pos_place(keys: Seq<Seq<char>>, k: Seq<char>)
    requires
        keys_ascending(keys),
    ensures
        0 <= spec_str_pos(keys, k, 0) <= keys.len(),
        spec_str_pos(keys, k, 0) < keys.len() && keys[spec_str_pos(keys, k, 0)] == k ==>
            forall|j: int| 0 <= j < keys.len() && j != spec_str_pos(keys, k, 0) ==> #[trigger] keys[j] != k,
        !(spec_str_pos(keys, k, 0) < keys.len() && keys[spec_str_pos(keys, k, 0)] == k) ==>
            (forall|j: int| 0 <= j < keys.len() ==> #[trigger] keys[j] != k)
            && keys_ascending(keys.insert(spec_str_pos(keys, k, 0), k)),
{
    let i = spec_str_pos(keys, k, 0);
    lemma_str_pos_facts(keys, k, 0);
    assert forall|j: int| 0 <= j < i implies seq_le(#[trigger] keys[j], k) && keys[j] != k by {
        assert(!seq_le(k, keys[j]));
        lemma_seq_le_total(k, keys[j]);
        lemma_seq_le_reflexive(k);
    }
    assert forall|j: int| i < j < keys.len() implies #[trigger] keys[j] != k || keys[i] == k by {
        if keys[j] == k {
            assert(seq_le(keys[i], keys[j]));
            lemma_seq_le_antisymmetric(keys[i], k);
        }
    }
    if !(i < keys.len() && keys[i] == k) {
        let r = keys.insert(i, k);
        assert forall|a: int, b: int| 0 <= a < b < r.len() implies seq_le(#[trigger] r[a], #[trigger] r[b]) && r[a] != r[b] by {
            if b < i {
                assert(r[a] == keys[a] && r[b] == keys[b]);
            } else if b == i {
                assert(r[a] == keys[a] && r[b] == k);
            } else if a == i {
                assert(r[a] == k && r[b] == keys[b - 1]);
                if b - 1 > i {
                    assert(seq_le(keys[i], keys[b - 1]));
                    lemma_seq_le_transitive(k, keys[i], keys[b - 1]);
                }
            } else if a < i {
                assert(r[a] == keys[a] && r[b] == keys[b - 1]);
            } else {
                assert(r[a] == keys[a - 1] && r[b] == keys[b - 1]);
            }
        }
    }
}

// ------------------------------------------------------- what omega-agreement means

/// The `k`-th observation is a leader `node` reported, naming one.
pub open spec fn reports_leader(obs: Triples, k: int, node: Seq<char>) -> bool {
    &&& 0 <= k < obs.len()
    &&& obs[k].1 == node
    &&& spec_ty(obs[k].2) == "leader"@
    &&& spec_as_str(spec_get(obs[k].2, "id"@)) is Some
}

/// The leader the `k`-th observation names.
pub open spec fn leader_at(obs: Triples, k: int) -> Seq<char> {
    spec_as_str(spec_get(obs[k].2, "id"@))->0
}

/// The `k`-th observation is the last leader `node` reported.
pub open spec fn last_leader_report(obs: Triples, k: int, node: Seq<char>) -> bool {
    reports_leader(obs, k, node) && forall|j: int| k < j ==> !#[trigger] reports_leader(obs, j, node)
}

/// The last leader `node` reported is `ldr`.
pub open spec fn ends_on(obs: Triples, node: Seq<char>, ldr: Seq<char>) -> bool {
    exists|k: int| #[trigger] last_leader_report(obs, k, node) && leader_at(obs, k) == ldr
}

pub open spec fn pair_keys(m: Seq<(Seq<char>, Seq<char>)>) -> Seq<Seq<char>> {
    Seq::new(m.len(), |i: int| m[i].0)
}

/// Some entry of `m` is for `node`.
pub open spec fn has_entry(m: Seq<(Seq<char>, Seq<char>)>, node: Seq<char>) -> bool {
    exists|j: int| 0 <= j < m.len() && #[trigger] m[j].0 == node
}

/// What `lab2_last` holds: one entry per node that reported a leader, giving its last one.
proof fn lemma_lab2_last_facts(obs: Triples)
    ensures
        keys_ascending(pair_keys(lab2_last(obs))),
        forall|j: int| 0 <= j < lab2_last(obs).len() ==> #[trigger] ends_on(obs, lab2_last(obs)[j].0, lab2_last(obs)[j].1),
        forall|k: int, node: Seq<char>| #[trigger] reports_leader(obs, k, node) ==> has_entry(lab2_last(obs), node),
    decreases obs.len(),
{
    if obs.len() > 0 {
        let n = obs.len() - 1;
        let pre = obs.drop_last();
        lemma_lab2_last_facts(pre);
        let rest = lab2_last(pre);
        let l = lab2_last(obs);
        let (t, src, b) = obs.last();
        assert forall|k: int, node: Seq<char>| #[trigger] reports_leader(pre, k, node) <==> (k < n && reports_leader(obs, k, node)) by {
            if 0 <= k < n {
                assert(obs[k] == pre[k]);
            }
        }
        assert forall|k: int| 0 <= k < n implies leader_at(obs, k) == leader_at(pre, k) by {
            assert(obs[k] == pre[k]);
        }
        let id = spec_as_str(spec_get(b, "id"@));
        if spec_ty(b) == "leader"@ && id is Some {
            assert(reports_leader(obs, n, src));
            let keys = Seq::new(rest.len(), |i: int| rest[i].0);
            assert(keys == pair_keys(rest));
            let i = spec_str_pos(keys, src, 0);
            lemma_str_pos_place(keys, src);
            assert(last_leader_report(obs, n, src));
            // A node other than `src` ends where it ended before.
            assert forall|node: Seq<char>, ldr: Seq<char>| node != src && #[trigger] ends_on(pre, node, ldr) implies ends_on(obs, node, ldr) by {
                let k = choose|k: int| #[trigger] last_leader_report(pre, k, node) && leader_at(pre, k) == ldr;
                assert forall|j: int| k < j implies !#[trigger] reports_leader(obs, j, node) by {
                    if j < n {
                        assert(!reports_leader(pre, j, node));
                    }
                }
                assert(last_leader_report(obs, k, node));
            }
            assert(ends_on(obs, src, id->0)) by {
                assert(last_leader_report(obs, n, src) && leader_at(obs, n) == id->0);
            }
            if i < rest.len() && rest[i].0 == src {
                assert(l == rest.update(i, (src, id->0)));
                assert(pair_keys(l) =~= pair_keys(rest));
                assert forall|j: int| 0 <= j < l.len() implies #[trigger] ends_on(obs, l[j].0, l[j].1) by {
                    if j != i {
                        assert(l[j] == rest[j]);
                        assert(keys[j] != src);
                        assert(ends_on(pre, rest[j].0, rest[j].1));
                    }
                }
                assert forall|k: int, node: Seq<char>| #[trigger] reports_leader(obs, k, node) implies has_entry(l, node) by {
                    if node == src {
                        assert(l[i].0 == src);
                    } else {
                        assert(k < n);
                        assert(reports_leader(pre, k, node));
                        let j = choose|j: int| 0 <= j < rest.len() && #[trigger] rest[j].0 == node;
                        assert(l[j].0 == node);
                    }
                }
            } else {
                assert(l == rest.insert(i, (src, id->0)));
                assert(pair_keys(l) =~= keys.insert(i, src));
                assert forall|j: int| 0 <= j < l.len() implies #[trigger] ends_on(obs, l[j].0, l[j].1) by {
                    if j < i {
                        assert(l[j] == rest[j]);
                        assert(keys[j] != src);
                        assert(ends_on(pre, rest[j].0, rest[j].1));
                    } else if j > i {
                        assert(l[j] == rest[j - 1]);
                        assert(keys[j - 1] != src);
                        assert(ends_on(pre, rest[j - 1].0, rest[j - 1].1));
                    }
                }
                assert forall|k: int, node: Seq<char>| #[trigger] reports_leader(obs, k, node) implies has_entry(l, node) by {
                    if node == src {
                        assert(l[i].0 == src);
                    } else {
                        assert(k < n);
                        assert(reports_leader(pre, k, node));
                        let j = choose|j: int| 0 <= j < rest.len() && #[trigger] rest[j].0 == node;
                        if j < i {
                            assert(l[j].0 == node);
                        } else {
                            assert(l[j + 1].0 == node);
                        }
                    }
                }
            }
        } else {
            assert(l == rest);
            assert(!reports_leader(obs, n, src));
            assert forall|node: Seq<char>, ldr: Seq<char>| #[trigger] ends_on(pre, node, ldr) implies ends_on(obs, node, ldr) by {
                let k = choose|k: int| #[trigger] last_leader_report(pre, k, node) && leader_at(pre, k) == ldr;
                assert forall|j: int| k < j implies !#[trigger] reports_leader(obs, j, node) by {
                    if j < n {
                        assert(!reports_leader(pre, j, node));
                    }
                }
                assert(last_leader_report(obs, k, node));
            }
            assert forall|j: int| 0 <= j < l.len() implies #[trigger] ends_on(obs, l[j].0, l[j].1) by {
                assert(ends_on(pre, rest[j].0, rest[j].1));
            }
            assert forall|k: int, node: Seq<char>| #[trigger] reports_leader(obs, k, node) implies has_entry(l, node) by {
                assert(reports_leader(obs, n, node) ==> node == src);
                assert(reports_leader(pre, k, node));
            }
        }
    } else {
        assert(pair_keys(lab2_last(obs)) =~= Seq::<Seq<char>>::empty());
    }
}

/// `x` is one of the entries of `m`.
pub open spec fn is_entry(m: Seq<(Seq<char>, Seq<char>)>, x: (Seq<char>, Seq<char>)) -> bool {
    exists|j: int| 0 <= j < m.len() && #[trigger] m[j] == x
}

/// `lab2_finals` keeps exactly the entries for correct nodes.
proof fn lemma_lab2_finals_facts(last: Seq<(Seq<char>, Seq<char>)>, correct: Seq<Seq<char>>)
    ensures
        forall|m: int| 0 <= m < lab2_finals(last, correct).len() ==> is_entry(last, #[trigger] lab2_finals(last, correct)[m])
            && correct.contains(lab2_finals(last, correct)[m].0),
        forall|j: int| 0 <= j < last.len() && correct.contains(#[trigger] last[j].0) ==> is_entry(lab2_finals(last, correct), last[j]),
    decreases last.len(),
{
    if last.len() > 0 {
        let pre = last.drop_last();
        lemma_lab2_finals_facts(pre, correct);
        let f0 = lab2_finals(pre, correct);
        let f = lab2_finals(last, correct);
        assert forall|m: int| 0 <= m < f.len() implies is_entry(last, #[trigger] f[m]) && correct.contains(f[m].0) by {
            if m < f0.len() {
                assert(f[m] == f0[m]);
                assert(is_entry(pre, f0[m]));
                let j = choose|j: int| 0 <= j < pre.len() && #[trigger] pre[j] == f0[m];
                assert(last[j] == pre[j]);
            } else {
                assert(last[last.len() - 1] == f[m]);
            }
        }
        assert forall|j: int| 0 <= j < last.len() && correct.contains(#[trigger] last[j].0) implies is_entry(f, last[j]) by {
            if j < pre.len() {
                assert(pre[j] == last[j]);
                assert(correct.contains(pre[j].0));
                assert(is_entry(f0, pre[j]));
                let m = choose|m: int| 0 <= m < f0.len() && #[trigger] f0[m] == pre[j];
                assert(f[m] == f0[m]);
            } else {
                assert(f[f.len() - 1] == last[j]);
            }
        }
    }
}

/// `node` reported a leader.
pub open spec fn reported_leader(obs: Triples, node: Seq<char>) -> bool {
    exists|k: int| #[trigger] last_leader_report(obs, k, node)
}

/// The entries kept for correct nodes stay in key order.
proof fn lemma_finals_ascending(last: Seq<(Seq<char>, Seq<char>)>, correct: Seq<Seq<char>>)
    requires
        keys_ascending(pair_keys(last)),
    ensures
        keys_ascending(pair_keys(lab2_finals(last, correct))),
    decreases last.len(),
{
    if last.len() > 0 {
        let pre = last.drop_last();
        assert(keys_ascending(pair_keys(pre))) by {
            assert forall|a: int, b: int| 0 <= a < b < pair_keys(pre).len() implies
                seq_le(#[trigger] pair_keys(pre)[a], #[trigger] pair_keys(pre)[b]) && pair_keys(pre)[a] != pair_keys(pre)[b] by {
                assert(pair_keys(pre)[a] == pair_keys(last)[a] && pair_keys(pre)[b] == pair_keys(last)[b]);
            }
        }
        lemma_finals_ascending(pre, correct);
        lemma_lab2_finals_facts(pre, correct);
        let f0 = lab2_finals(pre, correct);
        let f = lab2_finals(last, correct);
        if correct.contains(last.last().0) {
            let n = last.len() - 1;
            assert forall|a: int, b: int| 0 <= a < b < pair_keys(f).len() implies
                seq_le(#[trigger] pair_keys(f)[a], #[trigger] pair_keys(f)[b]) && pair_keys(f)[a] != pair_keys(f)[b] by {
                if b < f0.len() {
                    assert(pair_keys(f)[a] == pair_keys(f0)[a] && pair_keys(f)[b] == pair_keys(f0)[b]);
                } else {
                    assert(f[a] == f0[a]);
                    assert(is_entry(pre, f0[a]));
                    let j = choose|j: int| 0 <= j < pre.len() && #[trigger] pre[j] == f0[a];
                    assert(pair_keys(last)[j] == f0[a].0);
                    assert(pair_keys(last)[n] == last.last().0);
                }
            }
        } else {
            assert(f == f0);
        }
    }
}

/// Lab 2's omega-agreement holds only when every correct node reported a leader.
pub proof fn lemma_omega_agreement_needs_every_correct_node(ev: EventsV, correct: Seq<Seq<char>>, after: u64)
    ensures
        spec_lab2(ev, correct, after)[0].ok ==>
            forall|i: int| 0 <= i < correct.len() ==> #[trigger] reported_leader(ev.observes, correct[i]),
{
    let obs = ev.observes;
    let l = lab2_last(obs);
    let finals = lab2_finals(l, correct);
    lemma_lab2_last_facts(obs);
    lemma_lab2_finals_facts(l, correct);
    lemma_finals_ascending(l, correct);
    if spec_lab2(ev, correct, after)[0].ok {
        assert(finals.len() == correct.len());
        assert forall|i: int| 0 <= i < correct.len() implies #[trigger] reported_leader(obs, correct[i]) by {
            let c = correct[i];
            if !(exists|m: int| 0 <= m < finals.len() && #[trigger] finals[m].0 == c) {
                let keys = pair_keys(finals);
                assert(keys.no_duplicates());
                keys.unique_seq_to_set();
                correct.lemma_cardinality_of_set();
                let others = correct.to_set().remove(c);
                assert(keys.to_set().subset_of(others)) by {
                    assert forall|x: Seq<char>| keys.to_set().contains(x) implies others.contains(x) by {
                        let m = choose|m: int| 0 <= m < keys.len() && keys[m] == x;
                        assert(keys[m] == finals[m].0);
                        assert(is_entry(l, finals[m]));
                        let j = choose|j: int| 0 <= j < l.len() && #[trigger] l[j] == finals[m];
                        assert(correct.contains(finals[m].0));
                    }
                }
                assert(correct.to_set().contains(c));
                vstd::set_lib::lemma_len_subset(keys.to_set(), others);
                assert(false);
            }
            let m = choose|m: int| 0 <= m < finals.len() && #[trigger] finals[m].0 == c;
            assert(is_entry(l, finals[m]));
            let j = choose|j: int| 0 <= j < l.len() && #[trigger] l[j] == finals[m];
            assert(ends_on(obs, l[j].0, l[j].1));
            let k = choose|k: int| #[trigger] last_leader_report(obs, k, l[j].0) && leader_at(obs, k) == l[j].1;
            assert(last_leader_report(obs, k, c));
        }
    }
}

/// Lab 2's omega-agreement holds only when the correct nodes end on one leader: any two correct
/// nodes' last reported leaders are the same node.
pub proof fn lemma_omega_agreement_is_one_leader(ev: EventsV, correct: Seq<Seq<char>>, after: u64)
    ensures
        spec_lab2(ev, correct, after)[0].name == "omega-agreement"@,
        spec_lab2(ev, correct, after)[0].ok ==> forall|i1: int, i2: int, k1: int, k2: int|
            0 <= i1 < correct.len() && 0 <= i2 < correct.len()
            && #[trigger] last_leader_report(ev.observes, k1, correct[i1])
            && #[trigger] last_leader_report(ev.observes, k2, correct[i2])
            ==> leader_at(ev.observes, k1) == leader_at(ev.observes, k2),
{
    let obs = ev.observes;
    let l = lab2_last(obs);
    let finals = lab2_finals(l, correct);
    lemma_lab2_last_facts(obs);
    lemma_lab2_finals_facts(l, correct);
    if spec_lab2(ev, correct, after)[0].ok {
        assert forall|i1: int, i2: int, k1: int, k2: int|
            0 <= i1 < correct.len() && 0 <= i2 < correct.len()
            && #[trigger] last_leader_report(obs, k1, correct[i1])
            && #[trigger] last_leader_report(obs, k2, correct[i2])
            implies leader_at(obs, k1) == leader_at(obs, k2) by {
            assert(finals.len() > 0);
            let ldr = finals[0].1;
            assert forall|i: int, k: int| 0 <= i < correct.len() && #[trigger] last_leader_report(obs, k, correct[i])
                implies leader_at(obs, k) == ldr by {
                let c = correct[i];
                assert(reports_leader(obs, k, c));
                assert(has_entry(l, c));
                let j = choose|j: int| 0 <= j < l.len() && #[trigger] l[j].0 == c;
                assert(ends_on(obs, l[j].0, l[j].1));
                let k2 = choose|k2: int| #[trigger] last_leader_report(obs, k2, c) && leader_at(obs, k2) == l[j].1;
                if k2 < k {
                    assert(!reports_leader(obs, k, c));
                } else if k < k2 {
                    assert(!reports_leader(obs, k2, c));
                }
                assert(correct.contains(l[j].0));
                assert(is_entry(finals, l[j]));
                let m = choose|m: int| 0 <= m < finals.len() && #[trigger] finals[m] == l[j];
                assert(finals[m].1 == ldr);
            }
            assert(leader_at(obs, k1) == ldr);
            assert(leader_at(obs, k2) == ldr);
        }
    }
}

/// `{"n0": "n1", "n2": "n1"}`.
pub open spec fn finals_text(f: Seq<(Seq<char>, Seq<char>)>) -> Seq<char> {
    "{"@ + join_items(Seq::new(f.len(), |i: int| debug_quoted(f[i].0) + ": "@ + debug_quoted(f[i].1))) + "}"@
}

/// What lab 2 (eventual leader election) states of a run: the correct nodes end on one leader,
/// and that leader is alive.
pub open spec fn spec_lab2(ev: EventsV, correct: Seq<Seq<char>>, after: u64) -> Seq<CheckV> {
    let finals = lab2_finals(lab2_last(ev.observes), correct);
    if finals.len() == 0 {
        seq![CheckV { name: "omega-agreement"@, kind: Kind::Liveness, ok: false, detail: "nobody reported a leader"@ }]
    } else {
        let ldr = finals[0].1;
        let agreed = forall|i: int| 0 <= i < finals.len() ==> #[trigger] finals[i].1 == ldr;
        let dead = ev.crashed.contains_key(ldr);
        seq![
            CheckV {
                name: "omega-agreement"@,
                kind: Kind::Liveness,
                ok: agreed && finals.len() == correct.len(),
                detail: "final leaders "@ + finals_text(finals) + " (deadline dated from t="@ + spec_decimal(after as nat) + ")"@,
            },
            CheckV {
                name: "omega-elects-correct"@,
                kind: Kind::Liveness,
                ok: !dead,
                detail: "leader "@ + ldr + if dead { " IS CRASHED"@ } else { " is alive"@ },
            },
        ]
    }
}

fn push_finals(out: &mut String, f: &Vec<(String, String)>)
    ensures
        final(out)@ == old(out)@ + finals_text(str_pairs_view(f@)),
{
    let ghost fv = str_pairs_view(f@);
    let ghost items = Seq::new(fv.len(), |i: int| debug_quoted(fv[i].0) + ": "@ + debug_quoted(fv[i].1));
    let mut body = String::new();
    let mut i: usize = 0;
    while i < f.len()
        invariant
            fv == str_pairs_view(f@),
            items == Seq::new(fv.len(), |i: int| debug_quoted(fv[i].0) + ": "@ + debug_quoted(fv[i].1)),
            i <= f@.len(),
            body@ == join_items(items.subrange(0, i as int)),
        decreases f@.len() - i,
    {
        proof {
            lemma_join_push(items.subrange(0, i as int), items[i as int]);
            assert(items.subrange(0, i + 1) =~= items.subrange(0, i as int).push(items[i as int]));
        }
        if i > 0 {
            push_str(&mut body, ", ");
        }
        let ghost at = body@;
        let a = debug_text(f[i].0.as_str());
        let b = debug_text(f[i].1.as_str());
        push_str(&mut body, a.as_str());
        push_str(&mut body, ": ");
        push_str(&mut body, b.as_str());
        assert(body@ =~= at + items[i as int]);
        i = i + 1;
    }
    assert(items.subrange(0, f@.len() as int) =~= items);
    push_str(out, "{");
    push_str(out, body.as_str());
    push_str(out, "}");
    assert(final(out)@ =~= old(out)@ + finals_text(fv));
}

/// What lab 2 (eventual leader election) states of a run.
pub fn lab2(ev: &Events, sc: &Scenario, r: &mut Report)
    requires
        faults_end_in_range(sc.faults@),
    ensures
        final(r)@ == old(r)@ + spec_lab2(ev@, spec_correct(sc.nodes as nat, ev@.crashed), spec_effective_gst(sc.gst, sc.faults@) as u64),
{
    let correct = correct_nodes(sc, ev);
    let ghost cv = strings_view(correct@);
    let after = effective_gst(sc);
    let ghost obs = ev@.observes;
    let mut last: Vec<(String, String)> = Vec::new();
    let mut i: usize = 0;
    while i < ev.observes.len()
        invariant
            obs == ev@.observes,
            i <= ev.observes@.len(),
            str_pairs_view(last@) == lab2_last(obs.subrange(0, i as int)),
        decreases ev.observes@.len() - i,
    {
        let ghost pre = obs.subrange(0, i + 1);
        assert(pre.drop_last() =~= obs.subrange(0, i as int));
        assert(pre.last() == obs[i as int]);
        let src = ev.observes[i].1.as_str();
        let b = &ev.observes[i].2;
        if same_text(ty(b), "leader") {
            let id = match b.get("id") {
                Some(x) => x.as_str(),
                None => None,
            };
            match id {
                Some(id) => {
                    let ghost lv = str_pairs_view(last@);
                    let k = str_pos(&last, src);
                    proof {
                        assert(keys_of(last@) =~= Seq::new(lv.len(), |j: int| lv[j].0));
                        lemma_str_pos_bounds(keys_of(last@), src@, 0);
                    }
                    if k < last.len() && same_text(last[k].0.as_str(), src) {
                        last.set(k, (text(src), id.clone()));
                        assert(str_pairs_view(last@) =~= lv.update(k as int, (src@, id@)));
                    } else {
                        last.insert(k, (text(src), id.clone()));
                        assert(str_pairs_view(last@) =~= lv.insert(k as int, (src@, id@)));
                    }
                },
                None => {},
            }
        }
        i = i + 1;
    }
    assert(obs.subrange(0, obs.len() as int) =~= obs);
    let ghost lv = str_pairs_view(last@);
    let mut finals: Vec<(String, String)> = Vec::new();
    let mut i: usize = 0;
    while i < last.len()
        invariant
            lv == str_pairs_view(last@),
            cv == strings_view(correct@),
            i <= last@.len(),
            str_pairs_view(finals@) == lab2_finals(lv.subrange(0, i as int), cv),
        decreases last@.len() - i,
    {
        let ghost pre = lv.subrange(0, i + 1);
        assert(pre.drop_last() =~= lv.subrange(0, i as int));
        assert(pre.last() == lv[i as int]);
        if holds_text(&correct, last[i].0.as_str()) {
            let ghost before = str_pairs_view(finals@);
            finals.push((last[i].0.clone(), last[i].1.clone()));
            assert(str_pairs_view(finals@) =~= before.push(lv[i as int]));
        }
        i = i + 1;
    }
    assert(lv.subrange(0, lv.len() as int) =~= lv);
    let ghost fv = str_pairs_view(finals@);
    let ghost checks = spec_lab2(ev@, cv, after);
    if finals.len() == 0 {
        r.add("omega-agreement", Kind::Liveness, false, text("nobody reported a leader"));
        assert(final(r)@ =~= old(r)@ + checks);
        return;
    }
    let ldr = finals[0].1.as_str();
    let mut agreed = true;
    let mut i: usize = 0;
    while i < finals.len()
        invariant
            fv == str_pairs_view(finals@),
            finals@.len() > 0,
            ldr@ == fv[0].1,
            i <= finals@.len(),
            agreed == (forall|k: int| 0 <= k < i ==> #[trigger] fv[k].1 == ldr@),
        decreases finals@.len() - i,
    {
        assert(fv[i as int].1 == finals@[i as int].1@);
        if !same_text(finals[i].1.as_str(), ldr) {
            agreed = false;
        }
        i = i + 1;
    }
    let mut d1 = text("final leaders ");
    push_finals(&mut d1, &finals);
    push_str(&mut d1, " (deadline dated from t=");
    push_decimal(&mut d1, after);
    push_str(&mut d1, ")");
    assert(d1@ =~= checks[0].detail);
    r.add("omega-agreement", Kind::Liveness, agreed && finals.len() == correct.len(), d1);
    let dead = match ev.crashed_at(ldr) {
        Some(_) => true,
        None => false,
    };
    let mut d2 = text("leader ");
    push_str(&mut d2, ldr);
    if dead {
        push_str(&mut d2, " IS CRASHED");
    } else {
        push_str(&mut d2, " is alive");
    }
    assert(d2@ =~= checks[1].detail);
    r.add("omega-elects-correct", Kind::Liveness, !dead, d2);
    assert(final(r)@ =~= old(r)@ + checks);
}

// -------------------------------------------------------------------- lab 3

/// The integer at `key` of a body, or 0.
pub open spec fn u64_or_zero(b: JsonV, key: Seq<char>) -> u64 {
    match spec_as_u64(spec_get(b, key)) {
        Some(x) => x,
        None => 0,
    }
}

/// `(node, t, view, heard)` for each view a node reported, in order.
pub open spec fn view_obs(observes: Triples) -> Seq<(Seq<char>, u64, u64, u64)>
    decreases observes.len(),
{
    if observes.len() == 0 {
        Seq::empty()
    } else {
        let rest = view_obs(observes.drop_last());
        let (t, src, b) = observes.last();
        if spec_ty(b) == "view"@ {
            rest.push((src, t, u64_or_zero(b, "v"@), u64_or_zero(b, "heard"@)))
        } else {
            rest
        }
    }
}

/// The views `node` reported, in order.
pub open spec fn views_of(vo: Seq<(Seq<char>, u64, u64, u64)>, node: Seq<char>) -> Seq<u64>
    decreases vo.len(),
{
    if vo.len() == 0 {
        Seq::empty()
    } else {
        let rest = views_of(vo.drop_last(), node);
        if vo.last().0 == node { rest.push(vo.last().2) } else { rest }
    }
}

/// Never a smaller view after a larger one.
pub open spec fn rising(vs: Seq<u64>) -> bool {
    forall|i: int| 0 < i < vs.len() ==> vs[i - 1] <= #[trigger] vs[i]
}

/// The largest view anyone reported, or 0.
pub open spec fn max_view(vo: Seq<(Seq<char>, u64, u64, u64)>) -> u64
    decreases vo.len(),
{
    if vo.len() == 0 {
        0
    } else {
        let rest = max_view(vo.drop_last());
        if vo.last().2 > rest { vo.last().2 } else { rest }
    }
}

/// Counts `v` once more in a count of views kept in order.
pub open spec fn bump(pv: Seq<(u64, nat)>, v: u64) -> Seq<(u64, nat)> {
    let keys = Seq::new(pv.len(), |i: int| pv[i].0 as i64);
    let i = i64_pos_u(pv, v, 0);
    if i < pv.len() && pv[i].0 == v { pv.update(i, (v, pv[i].1 + 1)) } else { pv.insert(i, (v, 1nat)) }
}

/// Where the view `v` is or would go among the counted views.
pub open spec fn i64_pos_u(pv: Seq<(u64, nat)>, v: u64, from: int) -> int
    decreases pv.len() - from,
{
    if from < 0 || from >= pv.len() {
        if from < 0 { 0 } else { from }
    } else if v <= pv[from].0 {
        from
    } else {
        i64_pos_u(pv, v, from + 1)
    }
}

pub proof fn lemma_pos_u_bounds(pv: Seq<(u64, nat)>, v: u64, from: int)
    requires
        0 <= from <= pv.len(),
    ensures
        from <= i64_pos_u(pv, v, from) <= pv.len(),
    decreases pv.len() - from,
{
    if from < pv.len() && v > pv[from].0 {
        lemma_pos_u_bounds(pv, v, from + 1);
    }
}

/// For each view, how many reports of it by correct nodes came at or after `after` having heard
/// from at least `need` nodes.
pub open spec fn per_view(vo: Seq<(Seq<char>, u64, u64, u64)>, correct: Seq<Seq<char>>, after: u64, need: u64) -> Seq<(u64, nat)>
    decreases vo.len(),
{
    if vo.len() == 0 {
        Seq::empty()
    } else {
        let rest = per_view(vo.drop_last(), correct, after, need);
        let (n, t, v, h) = vo.last();
        if correct.contains(n) && t >= after && h >= need { bump(rest, v) } else { rest }
    }
}

/// The views heard by every correct node after `after`, in order.
pub open spec fn good_views(pv: Seq<(u64, nat)>, need: u64) -> Seq<u64>
    decreases pv.len(),
{
    if pv.len() == 0 {
        Seq::empty()
    } else {
        let rest = good_views(pv.drop_last(), need);
        if pv.last().1 == need { rest.push(pv.last().0) } else { rest }
    }
}

/// What lab 3 (view synchronisation) states of a run: views never go back, and some view after
/// the effective GST is held by every correct node having heard from all of them.
pub open spec fn spec_lab3(ev: EventsV, correct: Seq<Seq<char>>, after: u64) -> Seq<CheckV> {
    let vo = view_obs(ev.observes);
    let monotone = forall|i: int| 0 <= i < correct.len() ==> rising(views_of(vo, #[trigger] correct[i]));
    let need = correct.len() as u64;
    let good = good_views(per_view(vo, correct, after, need), need);
    seq![
        CheckV {
            name: "view-monotone"@,
            kind: Kind::Safety,
            ok: monotone,
            detail: "max view "@ + spec_decimal(max_view(vo) as nat),
        },
        CheckV {
            name: "view-co-presence"@,
            kind: Kind::Liveness,
            ok: good.len() > 0,
            detail: if good.len() == 0 {
                "no view after t="@ + spec_decimal(after as nat) + " heard from all "@ + spec_decimal(need as nat)
                    + " correct nodes"@
            } else {
                spec_decimal(good.len()) + " good views after t="@ + spec_decimal(after as nat) + " (first: "@
                    + spec_decimal(good[0] as nat) + ")"@
            },
        },
    ]
}

// ------------------------------------------------------- what view-monotone means

/// The `k`-th observation is a view `node` reported.
pub open spec fn reports_view(obs: Triples, k: int, node: Seq<char>) -> bool {
    0 <= k < obs.len() && obs[k].1 == node && spec_ty(obs[k].2) == "view"@
}

/// The view the `k`-th observation reports.
pub open spec fn view_at(obs: Triples, k: int) -> u64 {
    u64_or_zero(obs[k].2, "v"@)
}

/// `node` never reported a view smaller than one it had reported before.
pub open spec fn never_back(obs: Triples, node: Seq<char>) -> bool {
    forall|a: int, b: int| a < b && #[trigger] reports_view(obs, a, node) && #[trigger] reports_view(obs, b, node)
        ==> view_at(obs, a) <= view_at(obs, b)
}

/// Some report of `node` has view `x`.
pub open spec fn some_report(obs: Triples, node: Seq<char>, x: u64) -> bool {
    exists|a: int| #[trigger] reports_view(obs, a, node) && view_at(obs, a) == x
}

proof fn lemma_views_of_step(obs: Triples, node: Seq<char>)
    requires
        obs.len() > 0,
    ensures
        views_of(view_obs(obs), node) == if reports_view(obs, obs.len() - 1, node) {
            views_of(view_obs(obs.drop_last()), node).push(view_at(obs, obs.len() - 1))
        } else {
            views_of(view_obs(obs.drop_last()), node)
        },
{
    let vo = view_obs(obs.drop_last());
    let (t, src, b) = obs.last();
    if spec_ty(b) == "view"@ {
        let e = (src, t, u64_or_zero(b, "v"@), u64_or_zero(b, "heard"@));
        assert(vo.push(e).drop_last() =~= vo);
    }
}

/// The views `node` reported are those of its reports, in order.
proof fn lemma_views_are_reports(obs: Triples, node: Seq<char>)
    ensures
        forall|j: int| 0 <= j < views_of(view_obs(obs), node).len() ==>
            some_report(obs, node, #[trigger] views_of(view_obs(obs), node)[j]),
        forall|a: int| #[trigger] reports_view(obs, a, node) ==> views_of(view_obs(obs), node).contains(view_at(obs, a)),
    decreases obs.len(),
{
    if obs.len() > 0 {
        let pre = obs.drop_last();
        lemma_views_are_reports(pre, node);
        lemma_views_of_step(obs, node);
        let vs0 = views_of(view_obs(pre), node);
        let vs = views_of(view_obs(obs), node);
        assert forall|a: int| #[trigger] reports_view(pre, a, node) implies reports_view(obs, a, node) && view_at(obs, a) == view_at(pre, a) by {
            assert(obs[a] == pre[a]);
        }
        assert forall|j: int| 0 <= j < vs.len() implies some_report(obs, node, #[trigger] vs[j]) by {
            if j < vs0.len() {
                assert(vs[j] == vs0[j]);
                assert(some_report(pre, node, vs0[j]));
                let a = choose|a: int| #[trigger] reports_view(pre, a, node) && view_at(pre, a) == vs0[j];
                assert(reports_view(obs, a, node));
            } else {
                assert(reports_view(obs, obs.len() - 1, node));
            }
        }
        assert forall|a: int| #[trigger] reports_view(obs, a, node) implies vs.contains(view_at(obs, a)) by {
            if a < obs.len() - 1 {
                assert(obs[a] == pre[a]);
                assert(reports_view(pre, a, node));
                let j = choose|j: int| 0 <= j < vs0.len() && vs0[j] == view_at(pre, a);
                assert(vs[j] == vs0[j]);
            } else {
                assert(vs[vs.len() - 1] == view_at(obs, a));
            }
        }
    } else {
        assert(view_obs(obs) =~= Seq::<(Seq<char>, u64, u64, u64)>::empty());
    }
}

proof fn lemma_rising_below_last(vs: Seq<u64>, i: int, j: int)
    requires
        rising(vs),
        0 <= i <= j < vs.len(),
    ensures
        vs[i] <= vs[j],
    decreases j - i,
{
    if i < j {
        lemma_rising_below_last(vs, i, j - 1);
    }
}

/// A node's views rise exactly when it never reported a view below one it had reported before.
pub proof fn lemma_rising_is_never_back(obs: Triples, node: Seq<char>)
    ensures
        rising(views_of(view_obs(obs), node)) <==> never_back(obs, node),
    decreases obs.len(),
{
    if obs.len() == 0 {
        assert(view_obs(obs) =~= Seq::<(Seq<char>, u64, u64, u64)>::empty());
    } else {
        let n = obs.len() - 1;
        let pre = obs.drop_last();
        lemma_rising_is_never_back(pre, node);
        lemma_views_of_step(obs, node);
        lemma_views_are_reports(pre, node);
        let vs0 = views_of(view_obs(pre), node);
        let vs = views_of(view_obs(obs), node);
        assert forall|a: int| #[trigger] reports_view(pre, a, node) <==> (a < n && reports_view(obs, a, node)) by {
            if 0 <= a < n {
                assert(obs[a] == pre[a]);
            }
        }
        assert forall|a: int| 0 <= a < n implies view_at(obs, a) == view_at(pre, a) by {
            assert(obs[a] == pre[a]);
        }
        if reports_view(obs, n, node) {
            let v = view_at(obs, n);
            if rising(vs) {
                assert(rising(vs0)) by {
                    assert forall|i: int| 0 < i < vs0.len() implies vs0[i - 1] <= #[trigger] vs0[i] by {
                        assert(vs[i] == vs0[i] && vs[i - 1] == vs0[i - 1]);
                    }
                }
                assert forall|a: int, b: int| a < b && #[trigger] reports_view(obs, a, node) && #[trigger] reports_view(obs, b, node)
                    implies view_at(obs, a) <= view_at(obs, b) by {
                    if b < n {
                        assert(reports_view(pre, a, node) && reports_view(pre, b, node));
                    } else {
                        assert(reports_view(pre, a, node));
                        let j = choose|j: int| 0 <= j < vs0.len() && vs0[j] == view_at(pre, a);
                        lemma_rising_below_last(vs0, j, vs0.len() - 1);
                        assert(vs[vs0.len() - 1] == vs0[vs0.len() - 1]);
                        assert(vs[vs0.len() as int] == v);
                    }
                }
            }
            if never_back(obs, node) {
                assert(never_back(pre, node)) by {
                    assert forall|a: int, b: int| a < b && #[trigger] reports_view(pre, a, node) && #[trigger] reports_view(pre, b, node)
                        implies view_at(pre, a) <= view_at(pre, b) by {
                        assert(reports_view(obs, a, node) && reports_view(obs, b, node));
                    }
                }
                assert forall|k: int| 0 < k < vs.len() implies vs[k - 1] <= #[trigger] vs[k] by {
                    if k < vs0.len() {
                        assert(vs[k] == vs0[k] && vs[k - 1] == vs0[k - 1]);
                    } else {
                        assert(vs[k - 1] == vs0[k - 1]);
                        assert(some_report(pre, node, vs0[k - 1]));
                        let a = choose|a: int| #[trigger] reports_view(pre, a, node) && view_at(pre, a) == vs0[k - 1];
                        assert(reports_view(obs, a, node));
                    }
                }
            }
        } else {
            assert(never_back(obs, node) <==> never_back(pre, node)) by {
                if never_back(pre, node) {
                    assert forall|a: int, b: int| a < b && #[trigger] reports_view(obs, a, node) && #[trigger] reports_view(obs, b, node)
                        implies view_at(obs, a) <= view_at(obs, b) by {
                        assert(reports_view(pre, a, node) && reports_view(pre, b, node));
                    }
                }
                if never_back(obs, node) {
                    assert forall|a: int, b: int| a < b && #[trigger] reports_view(pre, a, node) && #[trigger] reports_view(pre, b, node)
                        implies view_at(pre, a) <= view_at(pre, b) by {
                        assert(reports_view(obs, a, node) && reports_view(obs, b, node));
                    }
                }
            }
        }
    }
}

/// Lab 3's view-monotone holds exactly when no correct node ever reported a view smaller than
/// one it had reported before: reporting the same view again keeps it.
pub proof fn lemma_view_monotone_is_never_back(ev: EventsV, correct: Seq<Seq<char>>, after: u64)
    ensures
        spec_lab3(ev, correct, after)[0].name == "view-monotone"@,
        spec_lab3(ev, correct, after)[0].ok <==> forall|i: int| 0 <= i < correct.len() ==> never_back(ev.observes, #[trigger] correct[i]),
{
    assert forall|i: int| 0 <= i < correct.len() implies
        (rising(views_of(view_obs(ev.observes), #[trigger] correct[i])) <==> never_back(ev.observes, correct[i])) by {
        lemma_rising_is_never_back(ev.observes, correct[i]);
    }
}

pub open spec fn counts_view(m: Seq<(u64, usize)>) -> Seq<(u64, nat)> {
    Seq::new(m.len(), |i: int| (m[i].0, m[i].1 as nat))
}

/// The view reports of a run, `(node, t, view, heard)`.
fn view_reports(ev: &Events) -> (r: Vec<(String, u64, u64, u64)>)
    ensures
        Seq::new(r@.len(), |i: int| (r@[i].0@, r@[i].1, r@[i].2, r@[i].3)) == view_obs(ev@.observes),
{
    let ghost obs = ev@.observes;
    let mut r: Vec<(String, u64, u64, u64)> = Vec::new();
    let mut i: usize = 0;
    while i < ev.observes.len()
        invariant
            obs == ev@.observes,
            i <= ev.observes@.len(),
            Seq::new(r@.len(), |i: int| (r@[i].0@, r@[i].1, r@[i].2, r@[i].3)) == view_obs(obs.subrange(0, i as int)),
        decreases ev.observes@.len() - i,
    {
        let ghost pre = obs.subrange(0, i + 1);
        assert(pre.drop_last() =~= obs.subrange(0, i as int));
        assert(pre.last() == obs[i as int]);
        let b = &ev.observes[i].2;
        if same_text(ty(b), "view") {
            let v = match b.u64_field("v") { Some(x) => x, None => 0 };
            let h = match b.u64_field("heard") { Some(x) => x, None => 0 };
            let ghost before = Seq::new(r@.len(), |i: int| (r@[i].0@, r@[i].1, r@[i].2, r@[i].3));
            r.push((ev.observes[i].1.clone(), ev.observes[i].0, v, h));
            assert(Seq::new(r@.len(), |i: int| (r@[i].0@, r@[i].1, r@[i].2, r@[i].3)) =~= before.push(
                (obs[i as int].1, obs[i as int].0, v, h)));
        }
        i = i + 1;
    }
    assert(obs.subrange(0, obs.len() as int) =~= obs);
    r
}

/// What lab 3 (view synchronisation) states of a run.
pub fn lab3(ev: &Events, sc: &Scenario, r: &mut Report)
    requires
        faults_end_in_range(sc.faults@),
    ensures
        final(r)@ == old(r)@ + spec_lab3(ev@, spec_correct(sc.nodes as nat, ev@.crashed), spec_effective_gst(sc.gst, sc.faults@) as u64),
{
    let correct = correct_nodes(sc, ev);
    let ghost cv = strings_view(correct@);
    let after = effective_gst(sc);
    let vr = view_reports(ev);
    let ghost vo = Seq::new(vr@.len(), |i: int| (vr@[i].0@, vr@[i].1, vr@[i].2, vr@[i].3));
    // Each correct node's views, in order, never going back.
    let mut monotone = true;
    let mut c: usize = 0;
    while c < correct.len()
        invariant
            cv == strings_view(correct@),
            vo == Seq::new(vr@.len(), |i: int| (vr@[i].0@, vr@[i].1, vr@[i].2, vr@[i].3)),
            c <= correct@.len(),
            monotone == (forall|i: int| 0 <= i < c ==> rising(views_of(vo, #[trigger] cv[i]))),
        decreases correct@.len() - c,
    {
        let n = correct[c].as_str();
        let mut up = true;
        let mut last: Option<u64> = None;
        let mut j: usize = 0;
        while j < vr.len()
            invariant
                vo == Seq::new(vr@.len(), |i: int| (vr@[i].0@, vr@[i].1, vr@[i].2, vr@[i].3)),
                j <= vr@.len(),
                up == rising(views_of(vo.subrange(0, j as int), n@)),
                last == (if views_of(vo.subrange(0, j as int), n@).len() == 0 { None } else {
                    Some(views_of(vo.subrange(0, j as int), n@).last()) }),
            decreases vr@.len() - j,
        {
            let ghost pre = vo.subrange(0, j + 1);
            let ghost old_vs = views_of(vo.subrange(0, j as int), n@);
            assert(pre.drop_last() =~= vo.subrange(0, j as int));
            assert(pre.last() == vo[j as int]);
            if same_text(vr[j].0.as_str(), n) {
                let v = vr[j].2;
                let ghost vs = old_vs.push(v);
                match last {
                    Some(p) => {
                        if v < p {
                            up = false;
                            assert(!rising(vs)) by {
                                assert(vs[vs.len() - 2] > vs[vs.len() - 1]);
                            }
                        } else {
                            assert(rising(vs) == rising(old_vs)) by {
                                if rising(old_vs) {
                                    assert forall|i: int| 0 < i < vs.len() implies vs[i - 1] <= #[trigger] vs[i] by {
                                        if i < vs.len() - 1 {
                                            assert(vs[i] == old_vs[i]);
                                            assert(vs[i - 1] == old_vs[i - 1]);
                                        }
                                    }
                                }
                                if rising(vs) {
                                    assert forall|i: int| 0 < i < old_vs.len() implies old_vs[i - 1] <= #[trigger] old_vs[i] by {
                                        assert(vs[i] == old_vs[i]);
                                        assert(vs[i - 1] == old_vs[i - 1]);
                                    }
                                }
                            }
                        }
                    },
                    None => {
                        assert(vs.len() == 1);
                    },
                }
                last = Some(v);
            }
            j = j + 1;
        }
        assert(vo.subrange(0, vo.len() as int) =~= vo);
        assert(cv[c as int] == n@);
        if !up {
            monotone = false;
        }
        c = c + 1;
    }
    // The largest view anyone reported.
    let mut maxv: u64 = 0;
    let mut j: usize = 0;
    while j < vr.len()
        invariant
            vo == Seq::new(vr@.len(), |i: int| (vr@[i].0@, vr@[i].1, vr@[i].2, vr@[i].3)),
            j <= vr@.len(),
            maxv == max_view(vo.subrange(0, j as int)),
        decreases vr@.len() - j,
    {
        assert(vo.subrange(0, j + 1).drop_last() =~= vo.subrange(0, j as int));
        if vr[j].2 > maxv {
            maxv = vr[j].2;
        }
        j = j + 1;
    }
    assert(vo.subrange(0, vo.len() as int) =~= vo);
    // For each view, how many correct reports after the GST heard from everyone.
    let need = correct.len() as u64;
    let mut pv: Vec<(u64, usize)> = Vec::new();
    let mut j: usize = 0;
    while j < vr.len()
        invariant
            vo == Seq::new(vr@.len(), |i: int| (vr@[i].0@, vr@[i].1, vr@[i].2, vr@[i].3)),
            cv == strings_view(correct@),
            need == cv.len(),
            j <= vr@.len(),
            counts_view(pv@) == per_view(vo.subrange(0, j as int), cv, after, need),
            forall|k: int| 0 <= k < pv@.len() ==> #[trigger] pv@[k].1 <= j,
        decreases vr@.len() - j,
    {
        let ghost pre = vo.subrange(0, j + 1);
        assert(pre.drop_last() =~= vo.subrange(0, j as int));
        assert(pre.last() == vo[j as int]);
        if holds_text(&correct, vr[j].0.as_str()) && vr[j].1 >= after && vr[j].3 >= need {
            let v = vr[j].2;
            let ghost cw = counts_view(pv@);
            let mut k: usize = 0;
            while k < pv.len() && v > pv[k].0
                invariant
                    cw == counts_view(pv@),
                    k <= pv@.len(),
                    i64_pos_u(cw, v, 0) == i64_pos_u(cw, v, k as int),
                decreases pv@.len() - k,
            {
                k = k + 1;
            }
            proof {
                lemma_pos_u_bounds(cw, v, 0);
            }
            if k < pv.len() && pv[k].0 == v {
                let c = pv[k].1;
                pv.set(k, (v, c + 1));
                assert(counts_view(pv@) =~= cw.update(k as int, (v, cw[k as int].1 + 1)));
            } else {
                pv.insert(k, (v, 1));
                assert(counts_view(pv@) =~= cw.insert(k as int, (v, 1nat)));
            }
        }
        j = j + 1;
    }
    assert(vo.subrange(0, vo.len() as int) =~= vo);
    let ghost pw = counts_view(pv@);
    let mut good: Vec<u64> = Vec::new();
    let mut k: usize = 0;
    while k < pv.len()
        invariant
            pw == counts_view(pv@),
            k <= pv@.len(),
            good@ == good_views(pw.subrange(0, k as int), need),
        decreases pv@.len() - k,
    {
        assert(pw.subrange(0, k + 1).drop_last() =~= pw.subrange(0, k as int));
        if pv[k].1 as u64 == need {
            good.push(pv[k].0);
        }
        k = k + 1;
    }
    assert(pw.subrange(0, pw.len() as int) =~= pw);
    let ghost checks = spec_lab3(ev@, cv, after);
    let mut d1 = text("max view ");
    push_decimal(&mut d1, maxv);
    assert(d1@ =~= checks[0].detail);
    r.add("view-monotone", Kind::Safety, monotone, d1);
    let mut d2 = String::new();
    if good.len() == 0 {
        push_str(&mut d2, "no view after t=");
        push_decimal(&mut d2, after);
        push_str(&mut d2, " heard from all ");
        push_decimal(&mut d2, need);
        push_str(&mut d2, " correct nodes");
    } else {
        push_decimal(&mut d2, good.len() as u64);
        push_str(&mut d2, " good views after t=");
        push_decimal(&mut d2, after);
        push_str(&mut d2, " (first: ");
        push_decimal(&mut d2, good[0]);
        push_str(&mut d2, ")");
    }
    assert(d2@ =~= checks[1].detail);
    r.add("view-co-presence", Kind::Liveness, good.len() > 0, d2);
    assert(final(r)@ =~= old(r)@ + checks);
}

// -------------------------------------------------------------------- lab 1

pub open spec fn got_view(g: Seq<(String, Vec<String>)>) -> Seq<(Seq<char>, Seq<Seq<char>>)> {
    Seq::new(g.len(), |i: int| (g[i].0@, strings_view(g[i].1@)))
}

/// The string at `mid` of a body.
pub open spec fn mid_of(b: JsonV) -> Option<Seq<char>> {
    spec_as_str(spec_get(b, "mid"@))
}

/// `(node, messages)`: what each node delivered, by node name, the messages in order.
pub open spec fn lab1_got(observes: Triples) -> Seq<(Seq<char>, Seq<Seq<char>>)>
    decreases observes.len(),
{
    if observes.len() == 0 {
        Seq::empty()
    } else {
        let rest = lab1_got(observes.drop_last());
        let (_, src, b) = observes.last();
        if spec_ty(b) == "deliver"@ && mid_of(b) is Some {
            let mid = mid_of(b)->0;
            let keys = Seq::new(rest.len(), |i: int| rest[i].0);
            let i = spec_str_pos(keys, src, 0);
            if i < rest.len() && rest[i].0 == src {
                rest.update(i, (src, str_set_insert(rest[i].1, mid)))
            } else {
                rest.insert(i, (src, seq![mid]))
            }
        } else {
            rest
        }
    }
}

/// The first entry at or after `from` of `got` for `node`, or -1.
pub open spec fn find_node(got: Seq<(Seq<char>, Seq<Seq<char>>)>, node: Seq<char>, from: int) -> int
    decreases got.len() - from,
{
    if from < 0 || from >= got.len() {
        -1
    } else if got[from].0 == node {
        from
    } else {
        find_node(got, node, from + 1)
    }
}

pub proof fn lemma_find_node(got: Seq<(Seq<char>, Seq<Seq<char>>)>, node: Seq<char>, from: int)
    requires
        0 <= from,
    ensures
        find_node(got, node, from) == -1 || (from <= find_node(got, node, from) < got.len()
            && got[find_node(got, node, from)].0 == node),
    decreases got.len() - from,
{
    if from < got.len() && got[from].0 != node {
        lemma_find_node(got, node, from + 1);
    }
}

/// What each correct node delivered, for those that delivered anything, in the order of `correct`.
pub open spec fn lab1_sets(got: Seq<(Seq<char>, Seq<Seq<char>>)>, correct: Seq<Seq<char>>) -> Seq<Seq<Seq<char>>>
    decreases correct.len(),
{
    if correct.len() == 0 {
        Seq::empty()
    } else {
        let rest = lab1_sets(got, correct.drop_last());
        let k = find_node(got, correct.last(), 0);
        if k >= 0 { rest.push(got[k].1) } else { rest }
    }
}

// ------------------------------------------------------- what rb-agreement means

/// The `k`-th observation is `node` delivering a message that names itself.
pub open spec fn delivers(obs: Triples, k: int, node: Seq<char>) -> bool {
    &&& 0 <= k < obs.len()
    &&& obs[k].1 == node
    &&& spec_ty(obs[k].2) == "deliver"@
    &&& mid_of(obs[k].2) is Some
}

/// `node` delivered some message.
pub open spec fn delivered_something(obs: Triples, node: Seq<char>) -> bool {
    exists|k: int| #[trigger] delivers(obs, k, node)
}

/// Every node `lab1_got` lists delivered something.
proof fn lemma_got_delivered(obs: Triples)
    ensures
        forall|j: int| 0 <= j < lab1_got(obs).len() ==> delivered_something(obs, #[trigger] lab1_got(obs)[j].0),
    decreases obs.len(),
{
    if obs.len() > 0 {
        let n = obs.len() - 1;
        let pre = obs.drop_last();
        lemma_got_delivered(pre);
        let rest = lab1_got(pre);
        let g = lab1_got(obs);
        let (_, src, b) = obs.last();
        assert forall|node: Seq<char>| #[trigger] delivered_something(pre, node) implies delivered_something(obs, node) by {
            let k = choose|k: int| #[trigger] delivers(pre, k, node);
            assert(obs[k] == pre[k]);
            assert(delivers(obs, k, node));
        }
        if spec_ty(b) == "deliver"@ && mid_of(b) is Some {
            assert(delivers(obs, n, src));
            let mid = mid_of(b)->0;
            let keys = Seq::new(rest.len(), |i: int| rest[i].0);
            let i = spec_str_pos(keys, src, 0);
            lemma_str_pos_bounds(keys, src, 0);
            assert forall|j: int| 0 <= j < g.len() implies delivered_something(obs, #[trigger] g[j].0) by {
                if i < rest.len() && rest[i].0 == src {
                    if j != i {
                        assert(g[j] == rest[j]);
                        assert(delivered_something(pre, rest[j].0));
                    }
                } else {
                    if j < i {
                        assert(g[j] == rest[j]);
                        assert(delivered_something(pre, rest[j].0));
                    } else if j > i {
                        assert(g[j] == rest[j - 1]);
                        assert(delivered_something(pre, rest[j - 1].0));
                    }
                }
            }
        } else {
            assert forall|j: int| 0 <= j < g.len() implies delivered_something(obs, #[trigger] g[j].0) by {
                assert(delivered_something(pre, rest[j].0));
            }
        }
    }
}

/// `lab1_sets` lists one set for each correct node `got` names, so it has an entry for each
/// correct node only when `got` names every one.
proof fn lemma_sets_complete(got: Seq<(Seq<char>, Seq<Seq<char>>)>, correct: Seq<Seq<char>>)
    ensures
        lab1_sets(got, correct).len() <= correct.len(),
        lab1_sets(got, correct).len() == correct.len() ==>
            forall|i: int| 0 <= i < correct.len() ==> find_node(got, #[trigger] correct[i], 0) >= 0,
    decreases correct.len(),
{
    if correct.len() > 0 {
        let pre = correct.drop_last();
        lemma_sets_complete(got, pre);
        if lab1_sets(got, correct).len() == correct.len() {
            assert forall|i: int| 0 <= i < correct.len() implies find_node(got, #[trigger] correct[i], 0) >= 0 by {
                if i < pre.len() {
                    assert(pre[i] == correct[i]);
                }
            }
        }
    }
}

/// Every node that delivered something is listed by `lab1_got`.
proof fn lemma_got_complete(obs: Triples)
    ensures
        forall|k: int, node: Seq<char>| #[trigger] delivers(obs, k, node) ==>
            exists|j: int| 0 <= j < lab1_got(obs).len() && #[trigger] lab1_got(obs)[j].0 == node,
    decreases obs.len(),
{
    if obs.len() > 0 {
        let n = obs.len() - 1;
        let pre = obs.drop_last();
        lemma_got_complete(pre);
        let rest = lab1_got(pre);
        let g = lab1_got(obs);
        let (_, src, b) = obs.last();
        assert forall|k: int, node: Seq<char>| #[trigger] delivers(obs, k, node) implies
            exists|j: int| 0 <= j < g.len() && #[trigger] g[j].0 == node by {
            if k < n {
                assert(obs[k] == pre[k]);
                assert(delivers(pre, k, node));
                let j0 = choose|j: int| 0 <= j < rest.len() && #[trigger] rest[j].0 == node;
                if spec_ty(b) == "deliver"@ && mid_of(b) is Some {
                    let keys = Seq::new(rest.len(), |i: int| rest[i].0);
                    let i = spec_str_pos(keys, src, 0);
                    lemma_str_pos_bounds(keys, src, 0);
                    if i < rest.len() && rest[i].0 == src {
                        assert(g[j0].0 == node);
                    } else if j0 < i {
                        assert(g[j0].0 == node);
                    } else {
                        assert(g[j0 + 1].0 == node);
                    }
                } else {
                    assert(g[j0].0 == node);
                }
            } else {
                let keys = Seq::new(rest.len(), |i: int| rest[i].0);
                let i = spec_str_pos(keys, src, 0);
                lemma_str_pos_bounds(keys, src, 0);
                assert(g[i].0 == node);
            }
        }
    }
}

proof fn lemma_find_node_absent(got: Seq<(Seq<char>, Seq<Seq<char>>)>, node: Seq<char>, from: int, j: int)
    requires
        0 <= from <= j < got.len(),
        got[j].0 == node,
    ensures
        find_node(got, node, from) >= 0,
    decreases got.len() - from,
{
    if got[from].0 != node {
        lemma_find_node_absent(got, node, from + 1, j);
    }
}

proof fn lemma_sets_nonempty(got: Seq<(Seq<char>, Seq<Seq<char>>)>, correct: Seq<Seq<char>>, i: int)
    requires
        0 <= i < correct.len(),
        find_node(got, correct[i], 0) >= 0,
    ensures
        lab1_sets(got, correct).len() > 0,
    decreases correct.len(),
{
    if i < correct.len() - 1 {
        assert(correct.drop_last()[i] == correct[i]);
        lemma_sets_nonempty(got, correct.drop_last(), i);
    }
}

/// Lab 1's rb-agreement holds, once some correct node delivered something, only when every
/// correct node did: the number of correct nodes with deliveries is the number of correct nodes.
pub proof fn lemma_rb_agreement_needs_every_correct_node(ev: EventsV, correct: Seq<Seq<char>>)
    ensures
        spec_lab1(ev, correct)[0].name == "rb-agreement"@,
        spec_lab1(ev, correct)[0].ok && (exists|i: int| 0 <= i < correct.len() && delivered_something(ev.observes, #[trigger] correct[i])) ==>
            forall|i: int| 0 <= i < correct.len() ==> delivered_something(ev.observes, #[trigger] correct[i]),
{
    let obs = ev.observes;
    let got = lab1_got(obs);
    lemma_got_delivered(obs);
    lemma_got_complete(obs);
    lemma_sets_complete(got, correct);
    if spec_lab1(ev, correct)[0].ok && (exists|i: int| 0 <= i < correct.len() && delivered_something(obs, #[trigger] correct[i])) {
        let i0 = choose|i: int| 0 <= i < correct.len() && delivered_something(obs, #[trigger] correct[i]);
        let k0 = choose|k: int| #[trigger] delivers(obs, k, correct[i0]);
        let j0 = choose|j: int| 0 <= j < got.len() && #[trigger] got[j].0 == correct[i0];
        lemma_find_node_absent(got, correct[i0], 0, j0);
        lemma_sets_nonempty(got, correct, i0);
        assert forall|i: int| 0 <= i < correct.len() implies delivered_something(obs, #[trigger] correct[i]) by {
            lemma_find_node(got, correct[i], 0);
            let k = find_node(got, correct[i], 0);
            assert(got[k].0 == correct[i]);
        }
    }
}

/// `node` delivered the message `m`.
pub open spec fn delivered_msg(obs: Triples, node: Seq<char>, m: Seq<char>) -> bool {
    exists|k: int| #[trigger] delivers(obs, k, node) && mid_of(obs[k].2) == Some(m)
}

pub open spec fn got_keys(g: Seq<(Seq<char>, Seq<Seq<char>>)>) -> Seq<Seq<char>> {
    Seq::new(g.len(), |i: int| g[i].0)
}

proof fn lemma_str_set_insert_contains(s: Seq<Seq<char>>, k: Seq<char>, x: Seq<char>)
    ensures
        str_set_insert(s, k).contains(x) <==> s.contains(x) || x == k,
{
    let i = spec_str_pos(s, k, 0);
    lemma_str_pos_bounds(s, k, 0);
    if !(i < s.len() && s[i] == k) {
        let r = s.insert(i, k);
        if s.contains(x) {
            let j = choose|j: int| 0 <= j < s.len() && s[j] == x;
            if j < i { assert(r[j] == x); } else { assert(r[j + 1] == x); }
        }
        if x == k {
            assert(r[i] == x);
        }
        if r.contains(x) {
            let j = choose|j: int| 0 <= j < r.len() && r[j] == x;
            if j < i { assert(s[j] == x); } else if j > i { assert(s[j - 1] == x); }
        }
    } else {
        if x == k {
            assert(s[i] == x);
        }
    }
}

/// `lab1_got` lists each node once, in key order, with exactly the messages it delivered.
proof fn lemma_got_exact(obs: Triples)
    ensures
        keys_ascending(got_keys(lab1_got(obs))),
        forall|j: int, m: Seq<char>| 0 <= j < lab1_got(obs).len() ==>
            (#[trigger] lab1_got(obs)[j].1.contains(m) <==> delivered_msg(obs, lab1_got(obs)[j].0, m)),
    decreases obs.len(),
{
    if obs.len() > 0 {
        let n = obs.len() - 1;
        let pre = obs.drop_last();
        lemma_got_exact(pre);
        lemma_got_complete(pre);
        let rest = lab1_got(pre);
        let g = lab1_got(obs);
        let (_, src, b) = obs.last();
        assert forall|k: int, node: Seq<char>| #[trigger] delivers(pre, k, node) <==> (k < n && delivers(obs, k, node)) by {
            if 0 <= k < n {
                assert(obs[k] == pre[k]);
            }
        }
        assert forall|k: int| 0 <= k < n implies obs[k] == pre[k] by {}
        if spec_ty(b) == "deliver"@ && mid_of(b) is Some {
            let mid = mid_of(b)->0;
            assert(delivers(obs, n, src));
            let keys = Seq::new(rest.len(), |i: int| rest[i].0);
            assert(keys == got_keys(rest));
            let i = spec_str_pos(keys, src, 0);
            lemma_str_pos_place(keys, src);
            // For a node other than `src`, nothing changed.
            assert forall|node: Seq<char>, m: Seq<char>| node != src implies
                (#[trigger] delivered_msg(obs, node, m) <==> delivered_msg(pre, node, m)) by {
                if delivered_msg(obs, node, m) {
                    let k = choose|k: int| #[trigger] delivers(obs, k, node) && mid_of(obs[k].2) == Some(m);
                    assert(delivers(pre, k, node));
                }
                if delivered_msg(pre, node, m) {
                    let k = choose|k: int| #[trigger] delivers(pre, k, node) && mid_of(pre[k].2) == Some(m);
                    assert(delivers(obs, k, node));
                }
            }
            // For `src`, what it delivered before and the message now.
            assert forall|m: Seq<char>| #[trigger] delivered_msg(obs, src, m) <==> (delivered_msg(pre, src, m) || m == mid) by {
                if delivered_msg(obs, src, m) {
                    let k = choose|k: int| #[trigger] delivers(obs, k, src) && mid_of(obs[k].2) == Some(m);
                    if k < n {
                        assert(delivers(pre, k, src));
                    }
                }
                if delivered_msg(pre, src, m) {
                    let k = choose|k: int| #[trigger] delivers(pre, k, src) && mid_of(pre[k].2) == Some(m);
                    assert(delivers(obs, k, src));
                }
                if m == mid {
                    assert(delivers(obs, n, src) && mid_of(obs[n].2) == Some(m));
                }
            }
            if i < rest.len() && rest[i].0 == src {
                assert(g == rest.update(i, (src, str_set_insert(rest[i].1, mid))));
                assert(got_keys(g) =~= keys);
                assert forall|j: int, m: Seq<char>| 0 <= j < g.len() implies
                    (#[trigger] g[j].1.contains(m) <==> delivered_msg(obs, g[j].0, m)) by {
                    if j == i {
                        lemma_str_set_insert_contains(rest[i].1, mid, m);
                        assert(rest[i].1.contains(m) <==> delivered_msg(pre, rest[i].0, m));
                    } else {
                        assert(keys[j] != src);
                        assert(rest[j].1.contains(m) <==> delivered_msg(pre, rest[j].0, m));
                    }
                }
            } else {
                assert(g == rest.insert(i, (src, seq![mid])));
                assert(got_keys(g) =~= keys.insert(i, src));
                assert forall|m: Seq<char>| !delivered_msg(pre, src, m) by {
                    if delivered_msg(pre, src, m) {
                        let k = choose|k: int| #[trigger] delivers(pre, k, src) && mid_of(pre[k].2) == Some(m);
                        let j = choose|j: int| 0 <= j < rest.len() && #[trigger] rest[j].0 == src;
                        assert(keys[j] == src);
                    }
                }
                assert forall|j: int, m: Seq<char>| 0 <= j < g.len() implies
                    (#[trigger] g[j].1.contains(m) <==> delivered_msg(obs, g[j].0, m)) by {
                    if j < i {
                        assert(g[j] == rest[j]);
                        assert(keys[j] != src);
                        assert(rest[j].1.contains(m) <==> delivered_msg(pre, rest[j].0, m));
                    } else if j > i {
                        assert(g[j] == rest[j - 1]);
                        assert(keys[j - 1] != src);
                        assert(rest[j - 1].1.contains(m) <==> delivered_msg(pre, rest[j - 1].0, m));
                    } else {
                        assert(g[j].1 == seq![mid]);
                        assert(seq![mid].contains(m) <==> m == mid) by {
                            if m == mid { assert(seq![mid][0] == m); }
                        }
                    }
                }
            }
        } else {
            assert(g == rest);
            assert forall|node: Seq<char>, m: Seq<char>| #[trigger] delivered_msg(obs, node, m) <==> delivered_msg(pre, node, m) by {
                if delivered_msg(obs, node, m) {
                    let k = choose|k: int| #[trigger] delivers(obs, k, node) && mid_of(obs[k].2) == Some(m);
                    assert(k < n);
                    assert(delivers(pre, k, node));
                }
                if delivered_msg(pre, node, m) {
                    let k = choose|k: int| #[trigger] delivers(pre, k, node) && mid_of(pre[k].2) == Some(m);
                    assert(delivers(obs, k, node));
                }
            }
            assert forall|j: int, m: Seq<char>| 0 <= j < g.len() implies
                (#[trigger] g[j].1.contains(m) <==> delivered_msg(obs, g[j].0, m)) by {
                assert(rest[j].1.contains(m) <==> delivered_msg(pre, rest[j].0, m));
            }
        }
    } else {
        assert(got_keys(lab1_got(obs)) =~= Seq::<Seq<char>>::empty());
    }
}

/// When every correct node is listed, the `i`-th set is the `i`-th correct node's.
proof fn lemma_sets_aligned(got: Seq<(Seq<char>, Seq<Seq<char>>)>, correct: Seq<Seq<char>>)
    requires
        lab1_sets(got, correct).len() == correct.len(),
    ensures
        forall|i: int| 0 <= i < correct.len() ==>
            #[trigger] lab1_sets(got, correct)[i] == got[find_node(got, correct[i], 0)].1,
    decreases correct.len(),
{
    if correct.len() > 0 {
        let pre = correct.drop_last();
        lemma_sets_complete(got, pre);
        lemma_sets_complete(got, correct);
        assert(find_node(got, correct.last(), 0) >= 0);
        lemma_sets_aligned(got, pre);
        assert forall|i: int| 0 <= i < correct.len() implies
            #[trigger] lab1_sets(got, correct)[i] == got[find_node(got, correct[i], 0)].1 by {
            if i < pre.len() {
                assert(pre[i] == correct[i]);
            }
        }
    }
}

/// Lab 1's rb-agreement holds, once some correct node delivered something, only when all correct
/// nodes delivered the same messages.
pub proof fn lemma_rb_agreement_is_same_deliveries(ev: EventsV, correct: Seq<Seq<char>>)
    ensures
        spec_lab1(ev, correct)[0].ok && (exists|i: int| 0 <= i < correct.len() && delivered_something(ev.observes, #[trigger] correct[i])) ==>
            forall|i1: int, i2: int, m: Seq<char>| 0 <= i1 < correct.len() && 0 <= i2 < correct.len() ==>
                (#[trigger] delivered_msg(ev.observes, correct[i1], m) <==> #[trigger] delivered_msg(ev.observes, correct[i2], m)),
{
    let obs = ev.observes;
    let got = lab1_got(obs);
    let sets = lab1_sets(got, correct);
    lemma_rb_agreement_needs_every_correct_node(ev, correct);
    lemma_got_exact(obs);
    lemma_got_complete(obs);
    lemma_sets_complete(got, correct);
    if spec_lab1(ev, correct)[0].ok && (exists|i: int| 0 <= i < correct.len() && delivered_something(obs, #[trigger] correct[i])) {
        let i0 = choose|i: int| 0 <= i < correct.len() && delivered_something(obs, #[trigger] correct[i]);
        let k0 = choose|k: int| #[trigger] delivers(obs, k, correct[i0]);
        let j0 = choose|j: int| 0 <= j < got.len() && #[trigger] got[j].0 == correct[i0];
        lemma_find_node_absent(got, correct[i0], 0, j0);
        lemma_sets_nonempty(got, correct, i0);
        assert(sets.len() == correct.len());
        lemma_sets_aligned(got, correct);
        assert forall|i1: int, i2: int, m: Seq<char>| 0 <= i1 < correct.len() && 0 <= i2 < correct.len() implies
            (#[trigger] delivered_msg(obs, correct[i1], m) <==> #[trigger] delivered_msg(obs, correct[i2], m)) by {
            lemma_find_node(got, correct[i1], 0);
            lemma_find_node(got, correct[i2], 0);
            let a = find_node(got, correct[i1], 0);
            let b = find_node(got, correct[i2], 0);
            assert(sets[i1] == got[a].1 && sets[i2] == got[b].1);
            assert(sets[i1] == sets[0] && sets[i2] == sets[0]);
            assert(got[a].1.contains(m) <==> delivered_msg(obs, got[a].0, m));
            assert(got[b].1.contains(m) <==> delivered_msg(obs, got[b].0, m));
        }
    }
}

/// The messages the harness asked the nodes to broadcast.
pub open spec fn lab1_asked(stimuli: Triples) -> Seq<Seq<char>>
    decreases stimuli.len(),
{
    if stimuli.len() == 0 {
        Seq::empty()
    } else {
        let rest = lab1_asked(stimuli.drop_last());
        let b = stimuli.last().2;
        if spec_ty(b) == "do_broadcast"@ && mid_of(b) is Some { str_set_insert(rest, mid_of(b)->0) } else { rest }
    }
}

/// How many of `ms` are not in `asked`.
pub open spec fn not_asked(ms: Seq<Seq<char>>, asked: Seq<Seq<char>>) -> nat
    decreases ms.len(),
{
    if ms.len() == 0 {
        0
    } else {
        not_asked(ms.drop_last(), asked) + if asked.contains(ms.last()) { 0nat } else { 1nat }
    }
}

/// How many deliveries, over all nodes, were of a message nobody broadcast.
pub open spec fn spurious(got: Seq<(Seq<char>, Seq<Seq<char>>)>, asked: Seq<Seq<char>>) -> nat
    decreases got.len(),
{
    if got.len() == 0 {
        0
    } else {
        spurious(got.drop_last(), asked) + not_asked(got.last().1, asked)
    }
}

/// The nodes the harness asked to enter the critical section, in order.
pub open spec fn lab1_asked_cs(stimuli: Triples) -> Seq<Seq<char>>
    decreases stimuli.len(),
{
    if stimuli.len() == 0 {
        Seq::empty()
    } else {
        let rest = lab1_asked_cs(stimuli.drop_last());
        let (_, dest, b) = stimuli.last();
        if spec_ty(b) == "request_cs"@ { str_set_insert(rest, dest) } else { rest }
    }
}

/// The nodes that reported entering the critical section.
pub open spec fn lab1_entered(observes: Triples) -> Seq<Seq<char>>
    decreases observes.len(),
{
    if observes.len() == 0 {
        Seq::empty()
    } else {
        let rest = lab1_entered(observes.drop_last());
        let (_, src, b) = observes.last();
        if spec_ty(b) == "enter_cs"@ { str_set_insert(rest, src) } else { rest }
    }
}

/// The correct nodes among `asked` that never entered.
pub open spec fn starved(asked: Seq<Seq<char>>, correct: Seq<Seq<char>>, entered: Seq<Seq<char>>) -> Seq<Seq<char>>
    decreases asked.len(),
{
    if asked.len() == 0 {
        Seq::empty()
    } else {
        let rest = starved(asked.drop_last(), correct, entered);
        let n = asked.last();
        if correct.contains(n) && !entered.contains(n) { rest.push(n) } else { rest }
    }
}

/// `["n1", "n2"]`.
pub open spec fn names_text(ns: Seq<Seq<char>>) -> Seq<char> {
    "["@ + join_items(Seq::new(ns.len(), |i: int| debug_quoted(ns[i]))) + "]"@
}

/// The first entry at or after `from` of the open sections for `node`, or -1.
pub open spec fn find_open(open: Seq<(Seq<char>, u64)>, node: Seq<char>, from: int) -> int
    decreases open.len() - from,
{
    if from < 0 || from >= open.len() {
        -1
    } else if open[from].0 == node {
        from
    } else {
        find_open(open, node, from + 1)
    }
}

pub proof fn lemma_find_open(open: Seq<(Seq<char>, u64)>, node: Seq<char>, from: int)
    requires
        0 <= from,
    ensures
        find_open(open, node, from) == -1 || (from <= find_open(open, node, from) < open.len()
            && open[find_open(open, node, from)].0 == node),
    decreases open.len() - from,
{
    if from < open.len() && open[from].0 != node {
        lemma_find_open(open, node, from + 1);
    }
}

/// `(open, spans)`: who is inside the critical section since when, and the sections entered and
/// left, `(from, to, node)`.
pub open spec fn lab1_sections(observes: Triples) -> (Seq<(Seq<char>, u64)>, Seq<(u64, u64, Seq<char>)>)
    decreases observes.len(),
{
    if observes.len() == 0 {
        (Seq::empty(), Seq::empty())
    } else {
        let (open, spans) = lab1_sections(observes.drop_last());
        let (t, src, b) = observes.last();
        let k = find_open(open, src, 0);
        if spec_ty(b) == "enter_cs"@ {
            if k >= 0 { (open.update(k, (src, t)), spans) } else { (open.push((src, t)), spans) }
        } else if spec_ty(b) == "exit_cs"@ {
            if k >= 0 { (open.remove(k), spans.push((open[k].1, t, src))) } else { (open, spans) }
        } else {
            (open, spans)
        }
    }
}

/// The sections still open at the end, held until the node crashed or until the run stopped.
pub open spec fn held_to_end(open: Seq<(Seq<char>, u64)>, crashed: Map<Seq<char>, u64>, end: u64) -> Seq<(u64, u64, Seq<char>)> {
    Seq::new(
        open.len(),
        |i: int| (open[i].1, if crashed.contains_key(open[i].0) { crashed[open[i].0] } else { end }, open[i].0),
    )
}

/// Whether the section `a` comes strictly before `b`: by start, then end, then name.
pub open spec fn span_lt(a: (u64, u64, Seq<char>), b: (u64, u64, Seq<char>)) -> bool {
    a.0 < b.0 || (a.0 == b.0 && (a.1 < b.1 || (a.1 == b.1 && seq_le(a.2, b.2) && a.2 != b.2)))
}

/// Where `x` goes in the ordered sections `s`: after every one that does not come after it.
pub open spec fn span_pos(s: Seq<(u64, u64, Seq<char>)>, x: (u64, u64, Seq<char>), from: int) -> int
    decreases s.len() - from,
{
    if from < 0 || from >= s.len() {
        if from < 0 { 0 } else { from }
    } else if span_lt(x, s[from]) {
        from
    } else {
        span_pos(s, x, from + 1)
    }
}

pub proof fn lemma_span_pos_bounds(s: Seq<(u64, u64, Seq<char>)>, x: (u64, u64, Seq<char>), from: int)
    requires
        0 <= from <= s.len(),
    ensures
        from <= span_pos(s, x, from) <= s.len(),
    decreases s.len() - from,
{
    if from < s.len() && !span_lt(x, s[from]) {
        lemma_span_pos_bounds(s, x, from + 1);
    }
}

/// The sections in order.
pub open spec fn sort_spans(s: Seq<(u64, u64, Seq<char>)>) -> Seq<(u64, u64, Seq<char>)>
    decreases s.len(),
{
    if s.len() == 0 {
        Seq::empty()
    } else {
        let sorted = sort_spans(s.drop_last());
        sorted.insert(span_pos(sorted, s.last(), 0), s.last())
    }
}

/// The first position at or after `from` where a section starts before the previous one ends,
/// or -1.
pub open spec fn first_clash(s: Seq<(u64, u64, Seq<char>)>, from: int) -> int
    decreases s.len() - from,
{
    if from < 0 || from + 1 >= s.len() {
        -1
    } else if s[from + 1].0 < s[from].1 {
        from
    } else {
        first_clash(s, from + 1)
    }
}

// ------------------------------------------------------- what a clash means

/// `a` starts no later than `b`, and ends no later when they start together.
pub open spec fn starts_first(a: (u64, u64, Seq<char>), b: (u64, u64, Seq<char>)) -> bool {
    a.0 < b.0 || (a.0 == b.0 && a.1 <= b.1)
}

/// Two critical sections overlap when each is entered before the other is left.
pub open spec fn sections_overlap(a: (u64, u64, Seq<char>), b: (u64, u64, Seq<char>)) -> bool {
    a.0 < b.1 && b.0 < a.1
}

/// Every section is left no earlier than it was entered.
pub open spec fn sections_forward(s: Seq<(u64, u64, Seq<char>)>) -> bool {
    forall|i: int| 0 <= i < s.len() ==> (#[trigger] s[i]).0 <= s[i].1
}

/// Some two different sections of `s` overlap.
pub open spec fn some_overlap(s: Seq<(u64, u64, Seq<char>)>) -> bool {
    exists|i: int, j: int| 0 <= i < s.len() && 0 <= j < s.len() && i != j && #[trigger] sections_overlap(s[i], s[j])
}

/// Some place `k` below `n` of `o` holds `i`.
pub open spec fn has_place(o: Seq<int>, i: int, n: int) -> bool {
    exists|k: int| 0 <= k < n && #[trigger] o[k] == i
}

proof fn lemma_span_pos_facts(s: Seq<(u64, u64, Seq<char>)>, x: (u64, u64, Seq<char>), from: int)
    requires
        0 <= from <= s.len(),
    ensures
        from <= span_pos(s, x, from) <= s.len(),
        forall|j: int| from <= j < span_pos(s, x, from) ==> !span_lt(x, #[trigger] s[j]),
        span_pos(s, x, from) < s.len() ==> span_lt(x, s[span_pos(s, x, from)]),
    decreases s.len() - from,
{
    if from < s.len() && !span_lt(x, s[from]) {
        lemma_span_pos_facts(s, x, from + 1);
    }
}

/// Sorting sections lists them in order of entry, and lists each once: the sorted `k`-th is the
/// `o[k]`-th, and every section has its place.
proof fn lemma_sort_spans_facts(s: Seq<(u64, u64, Seq<char>)>) -> (o: Seq<int>)
    ensures
        sort_spans(s).len() == s.len(),
        o.len() == s.len(),
        forall|k: int| 0 <= k < s.len() ==> 0 <= #[trigger] o[k] < s.len() && sort_spans(s)[k] == s[o[k]],
        forall|a: int, b: int| 0 <= a < b < s.len() ==> #[trigger] o[a] != #[trigger] o[b],
        forall|i: int| 0 <= i < s.len() ==> #[trigger] has_place(o, i, s.len() as int),
        forall|a: int, b: int| 0 <= a < b < s.len() ==> starts_first(#[trigger] sort_spans(s)[a], #[trigger] sort_spans(s)[b]),
    decreases s.len(),
{
    if s.len() == 0 {
        Seq::empty()
    } else {
        let n = s.len() - 1;
        let rest = s.drop_last();
        let o1 = lemma_sort_spans_facts(rest);
        let srt = sort_spans(rest);
        let x = s.last();
        let p = span_pos(srt, x, 0);
        lemma_span_pos_facts(srt, x, 0);
        let o = o1.insert(p, n);
        let r = sort_spans(s);
        assert(r == srt.insert(p, x));
        assert forall|k: int| 0 <= k < s.len() implies 0 <= #[trigger] o[k] < s.len() && r[k] == s[o[k]] by {
            if k < p {
                assert(r[k] == srt[k] && o[k] == o1[k]);
                assert(rest[o1[k]] == s[o1[k]]);
            } else if k > p {
                assert(r[k] == srt[k - 1] && o[k] == o1[k - 1]);
                assert(rest[o1[k - 1]] == s[o1[k - 1]]);
            }
        }
        assert forall|a: int, b: int| 0 <= a < b < s.len() implies #[trigger] o[a] != #[trigger] o[b] by {
            if a < p && b < p {
                assert(o[a] == o1[a] && o[b] == o1[b]);
            } else if a < p && b == p {
                assert(o[a] == o1[a]);
            } else if a < p {
                assert(o[a] == o1[a] && o[b] == o1[b - 1]);
            } else if a == p {
                assert(o[b] == o1[b - 1]);
            } else {
                assert(o[a] == o1[a - 1] && o[b] == o1[b - 1]);
            }
        }
        assert forall|i: int| 0 <= i < s.len() implies #[trigger] has_place(o, i, s.len() as int) by {
            if i == n {
                assert(o[p] == n);
            } else {
                assert(has_place(o1, i, rest.len() as int));
                let k1 = choose|k: int| 0 <= k < rest.len() && #[trigger] o1[k] == i;
                if k1 < p {
                    assert(o[k1] == i);
                } else {
                    assert(o[k1 + 1] == i);
                }
            }
        }
        assert forall|a: int, b: int| 0 <= a < b < s.len() implies starts_first(#[trigger] r[a], #[trigger] r[b]) by {
            if b < p {
                assert(r[a] == srt[a] && r[b] == srt[b]);
            } else if b == p {
                assert(r[a] == srt[a] && r[b] == x);
                assert(!span_lt(x, srt[a]));
            } else if a == p {
                assert(r[a] == x && r[b] == srt[b - 1]);
                assert(span_lt(x, srt[p]));
                if b - 1 > p {
                    assert(starts_first(srt[p], srt[b - 1]));
                }
            } else if a < p {
                assert(r[a] == srt[a] && r[b] == srt[b - 1]);
            } else {
                assert(r[a] == srt[a - 1] && r[b] == srt[b - 1]);
            }
        }
        o
    }
}

proof fn lemma_first_clash_facts(s: Seq<(u64, u64, Seq<char>)>, from: int)
    requires
        0 <= from,
    ensures
        first_clash(s, from) < 0 <==> forall|i: int| from <= i && i + 1 < s.len() ==> s[i + 1].0 >= #[trigger] s[i].1,
        first_clash(s, from) >= 0 ==> from <= first_clash(s, from) && first_clash(s, from) + 1 < s.len()
            && s[first_clash(s, from) + 1].0 < s[first_clash(s, from)].1,
    decreases s.len() - from,
{
    if from + 1 < s.len() && s[from + 1].0 >= s[from].1 {
        lemma_first_clash_facts(s, from + 1);
    }
}

/// In sections in order of entry that never clash with the next, each is entered no earlier than
/// every one before it is left.
proof fn lemma_no_clash_apart(s: Seq<(u64, u64, Seq<char>)>, i: int, j: int)
    requires
        sections_forward(s),
        forall|a: int, b: int| 0 <= a < b < s.len() ==> starts_first(#[trigger] s[a], #[trigger] s[b]),
        forall|k: int| 0 <= k && k + 1 < s.len() ==> s[k + 1].0 >= #[trigger] s[k].1,
        0 <= i < j < s.len(),
    ensures
        s[j].0 >= s[i].1,
    decreases j - i,
{
    assert(s[j - 1].1 <= s[j].0);
    if j - 1 > i {
        lemma_no_clash_apart(s, i, j - 1);
        assert(s[j - 1].0 <= s[j - 1].1);
    }
}

/// The check for mutual exclusion is exact: sorting the sections by entry and looking for one
/// entered before the previous is left finds a clash exactly when two different sections
/// overlap, each section being left no earlier than it was entered.
pub proof fn lemma_clash_is_overlap(s: Seq<(u64, u64, Seq<char>)>)
    requires
        sections_forward(s),
    ensures
        first_clash(sort_spans(s), 0) < 0 <==> !some_overlap(s),
{
    let o = lemma_sort_spans_facts(s);
    let t = sort_spans(s);
    lemma_first_clash_facts(t, 0);
    assert(sections_forward(t)) by {
        assert forall|k: int| 0 <= k < t.len() implies (#[trigger] t[k]).0 <= t[k].1 by {
            assert(t[k] == s[o[k]]);
        }
    }
    if first_clash(t, 0) >= 0 {
        let k = first_clash(t, 0);
        assert(starts_first(t[k], t[k + 1]));
        assert(sections_overlap(s[o[k]], s[o[k + 1]]));
        assert(o[k] != o[k + 1]);
    } else {
        if some_overlap(s) {
            let (i, j) = choose|i: int, j: int| 0 <= i < s.len() && 0 <= j < s.len() && i != j && #[trigger] sections_overlap(s[i], s[j]);
            assert(has_place(o, i, s.len() as int) && has_place(o, j, s.len() as int));
            let ki = choose|k: int| 0 <= k < s.len() && #[trigger] o[k] == i;
            let kj = choose|k: int| 0 <= k < s.len() && #[trigger] o[k] == j;
            assert(t[ki] == s[i] && t[kj] == s[j]);
            if ki < kj {
                lemma_no_clash_apart(t, ki, kj);
            } else {
                lemma_no_clash_apart(t, kj, ki);
            }
        }
    }
}

/// The sections lab 1 judges: those entered and left, and those still held when the node
/// crashed or the run stopped.
pub open spec fn lab1_all_sections(ev: EventsV) -> Seq<(u64, u64, Seq<char>)> {
    let (open, spans) = lab1_sections(ev.observes);
    spans + held_to_end(open, ev.crashed, ev.end)
}

/// Lab 1's mutual exclusion holds exactly when no two different critical sections of the run
/// overlap, held-to-the-end ones included, each section being left no earlier than entered.
pub proof fn lemma_mutual_exclusion_is_no_overlap(ev: EventsV, correct: Seq<Seq<char>>)
    requires
        sections_forward(lab1_all_sections(ev)),
    ensures
        spec_lab1(ev, correct).last().name == "mutual-exclusion"@,
        spec_lab1(ev, correct).last().ok <==> !some_overlap(lab1_all_sections(ev)),
{
    lemma_clash_is_overlap(lab1_all_sections(ev));
}

/// What lab 1 (reliable broadcast, mutual exclusion) states of a run.
pub open spec fn spec_lab1(ev: EventsV, correct: Seq<Seq<char>>) -> Seq<CheckV> {
    let got = lab1_got(ev.observes);
    let sets = lab1_sets(got, correct);
    let agreement = if sets.len() == 0 {
        CheckV { name: "rb-agreement"@, kind: Kind::Safety, ok: true, detail: "no deliveries in this run"@ }
    } else {
        let all_same = forall|i: int| 0 <= i < sets.len() ==> #[trigger] sets[i] == sets[0];
        let complete = sets.len() == correct.len();
        CheckV {
            name: "rb-agreement"@,
            kind: Kind::Safety,
            ok: all_same && complete,
            detail: if all_same && complete {
                spec_decimal(sets.len()) + " correct nodes each delivered "@ + spec_decimal(sets[0].len())
            } else if !all_same {
                "correct nodes delivered different sets"@
            } else {
                "only "@ + spec_decimal(sets.len()) + "/"@ + spec_decimal(correct.len()) + " correct nodes delivered anything"@
            },
        }
    };
    let asked = lab1_asked(ev.stimuli);
    let bad = spurious(got, asked);
    let validity = if asked.len() == 0 {
        Seq::empty()
    } else {
        seq![CheckV {
            name: "rb-validity"@,
            kind: Kind::Safety,
            ok: bad == 0,
            detail: if bad == 0 {
                "all deliveries trace to one of "@ + spec_decimal(asked.len()) + " broadcasts"@
            } else {
                "delivered "@ + spec_decimal(bad) + " message(s) nobody broadcast"@
            },
        }]
    };
    let asked_cs = lab1_asked_cs(ev.stimuli);
    let hungry = starved(asked_cs, correct, lab1_entered(ev.observes));
    let progress = if asked_cs.len() == 0 {
        Seq::empty()
    } else {
        seq![CheckV {
            name: "mutex-progress"@,
            kind: Kind::Liveness,
            ok: hungry.len() == 0,
            detail: if hungry.len() == 0 {
                "all "@ + spec_decimal(asked_cs.len()) + " requesting correct nodes entered"@
            } else {
                names_text(hungry) + " asked for the lock and never got it"@
            },
        }]
    };
    let (open, spans) = lab1_sections(ev.observes);
    let sorted = sort_spans(spans + held_to_end(open, ev.crashed, ev.end));
    let k = first_clash(sorted, 0);
    let exclusion = CheckV {
        name: "mutual-exclusion"@,
        kind: Kind::Safety,
        ok: k < 0,
        detail: if k < 0 {
            spec_decimal(sorted.len()) + " critical sections, none overlapping"@
        } else {
            sorted[k].2 + " held ["@ + spec_decimal(sorted[k].0 as nat) + ","@ + spec_decimal(sorted[k].1 as nat) + ") while "@
                + sorted[k + 1].2 + " entered at "@ + spec_decimal(sorted[k + 1].0 as nat)
        },
    };
    seq![agreement] + validity + progress + seq![exclusion]
}

pub open spec fn open_view(o: Seq<(String, u64)>) -> Seq<(Seq<char>, u64)> {
    Seq::new(o.len(), |i: int| (o[i].0@, o[i].1))
}

pub open spec fn spans_view(s: Seq<(u64, u64, String)>) -> Seq<(u64, u64, Seq<char>)> {
    Seq::new(s.len(), |i: int| (s[i].0, s[i].1, s[i].2@))
}

/// What each node delivered, by node name.
fn deliveries(ev: &Events) -> (g: Vec<(String, Vec<String>)>)
    ensures
        got_view(g@) == lab1_got(ev@.observes),
{
    let ghost obs = ev@.observes;
    let mut g: Vec<(String, Vec<String>)> = Vec::new();
    let mut i: usize = 0;
    while i < ev.observes.len()
        invariant
            obs == ev@.observes,
            i <= ev.observes@.len(),
            got_view(g@) == lab1_got(obs.subrange(0, i as int)),
        decreases ev.observes@.len() - i,
    {
        let ghost pre = obs.subrange(0, i + 1);
        assert(pre.drop_last() =~= obs.subrange(0, i as int));
        assert(pre.last() == obs[i as int]);
        let src = ev.observes[i].1.as_str();
        let b = &ev.observes[i].2;
        if same_text(ty(b), "deliver") {
            let mid = match b.get("mid") {
                Some(x) => x.as_str(),
                None => None,
            };
            match mid {
                Some(mid) => {
                    let ghost gv = got_view(g@);
                    let k = str_pos(&g, src);
                    proof {
                        assert(keys_of(g@) =~= Seq::new(gv.len(), |j: int| gv[j].0));
                        lemma_str_pos_bounds(keys_of(g@), src@, 0);
                    }
                    if k < g.len() && same_text(g[k].0.as_str(), src) {
                        let mut entry = g.remove(k);
                        str_set_insert_exec(&mut entry.1, mid.as_str());
                        g.insert(k, entry);
                        assert(got_view(g@) =~= gv.update(k as int, (src@, str_set_insert(gv[k as int].1, mid@))));
                    } else {
                        let mut ms: Vec<String> = Vec::new();
                        ms.push(mid.clone());
                        assert(strings_view(ms@) =~= seq![mid@]);
                        g.insert(k, (text(src), ms));
                        assert(got_view(g@) =~= gv.insert(k as int, (src@, seq![mid@])));
                    }
                },
                None => {},
            }
        }
        i = i + 1;
    }
    assert(obs.subrange(0, obs.len() as int) =~= obs);
    g
}

/// Whether two lists of strings are the same.
fn same_strings(a: &Vec<String>, b: &Vec<String>) -> (r: bool)
    ensures
        r == (strings_view(a@) == strings_view(b@)),
{
    if a.len() != b.len() {
        assert(strings_view(a@).len() != strings_view(b@).len());
        return false;
    }
    let mut i: usize = 0;
    while i < a.len()
        invariant
            a@.len() == b@.len(),
            i <= a@.len(),
            forall|k: int| 0 <= k < i ==> a@[k]@ == b@[k]@,
        decreases a@.len() - i,
    {
        if !same_text(a[i].as_str(), b[i].as_str()) {
            assert(strings_view(a@)[i as int] != strings_view(b@)[i as int]);
            return false;
        }
        i = i + 1;
    }
    assert(strings_view(a@) =~= strings_view(b@));
    true
}

/// A set of strings, one from each entry of `ts` whose body has type `kind`: its `mid` when
/// `mid` is set, else the entry's node.
fn collect_names(ts: &Vec<(u64, String, Json)>, kind: &str, by_mid: bool) -> (r: Vec<String>)
    ensures
        by_mid && kind@ == "do_broadcast"@ ==> strings_view(r@) == lab1_asked(crate::suite::triples_view(ts@)),
        !by_mid && kind@ == "request_cs"@ ==> strings_view(r@) == lab1_asked_cs(crate::suite::triples_view(ts@)),
        !by_mid && kind@ == "enter_cs"@ ==> strings_view(r@) == lab1_entered(crate::suite::triples_view(ts@)),
{
    let ghost tv = crate::suite::triples_view(ts@);
    let mut r: Vec<String> = Vec::new();
    let mut i: usize = 0;
    while i < ts.len()
        invariant
            tv == crate::suite::triples_view(ts@),
            i <= ts@.len(),
            by_mid && kind@ == "do_broadcast"@ ==> strings_view(r@) == lab1_asked(tv.subrange(0, i as int)),
            !by_mid && kind@ == "request_cs"@ ==> strings_view(r@) == lab1_asked_cs(tv.subrange(0, i as int)),
            !by_mid && kind@ == "enter_cs"@ ==> strings_view(r@) == lab1_entered(tv.subrange(0, i as int)),
        decreases ts@.len() - i,
    {
        let ghost pre = tv.subrange(0, i + 1);
        assert(pre.drop_last() =~= tv.subrange(0, i as int));
        assert(pre.last() == tv[i as int]);
        let b = &ts[i].2;
        if same_text(ty(b), kind) {
            if by_mid {
                match b.get("mid") {
                    Some(x) => match x.as_str() {
                        Some(m) => str_set_insert_exec(&mut r, m.as_str()),
                        None => {},
                    },
                    None => {},
                }
            } else {
                str_set_insert_exec(&mut r, ts[i].1.as_str());
            }
        }
        i = i + 1;
    }
    assert(tv.subrange(0, tv.len() as int) =~= tv);
    r
}

/// Who is still inside the critical section, and the sections entered and left.
fn sections(ev: &Events) -> (r: (Vec<(String, u64)>, Vec<(u64, u64, String)>))
    ensures
        (open_view(r.0@), spans_view(r.1@)) == lab1_sections(ev@.observes),
{
    let ghost obs = ev@.observes;
    let mut open: Vec<(String, u64)> = Vec::new();
    let mut spans: Vec<(u64, u64, String)> = Vec::new();
    let mut i: usize = 0;
    while i < ev.observes.len()
        invariant
            obs == ev@.observes,
            i <= ev.observes@.len(),
            (open_view(open@), spans_view(spans@)) == lab1_sections(obs.subrange(0, i as int)),
        decreases ev.observes@.len() - i,
    {
        let ghost pre = obs.subrange(0, i + 1);
        assert(pre.drop_last() =~= obs.subrange(0, i as int));
        assert(pre.last() == obs[i as int]);
        let t = ev.observes[i].0;
        let src = ev.observes[i].1.as_str();
        let b = &ev.observes[i].2;
        let ghost ov = open_view(open@);
        let ghost sv = spans_view(spans@);
        let mut k: usize = 0;
        while k < open.len() && !same_text(open[k].0.as_str(), src)
            invariant
                ov == open_view(open@),
                k <= open@.len(),
                find_open(ov, src@, 0) == find_open(ov, src@, k as int),
            decreases open@.len() - k,
        {
            k = k + 1;
        }
        proof {
            lemma_find_open(ov, src@, 0);
            if k < open@.len() {
                assert(ov[k as int].0 == src@);
            }
        }
        let found = k < open.len();
        let kind = ty(b);
        if same_text(kind, "enter_cs") {
            if found {
                open.set(k, (text(src), t));
                assert(open_view(open@) =~= ov.update(k as int, (src@, t)));
            } else {
                open.push((text(src), t));
                assert(open_view(open@) =~= ov.push((src@, t)));
            }
        } else if same_text(kind, "exit_cs") {
            if found {
                let (_, s0) = open.remove(k);
                assert(open_view(open@) =~= ov.remove(k as int));
                spans.push((s0, t, text(src)));
                assert(spans_view(spans@) =~= sv.push((ov[k as int].1, t, src@)));
            }
        }
        i = i + 1;
    }
    assert(obs.subrange(0, obs.len() as int) =~= obs);
    (open, spans)
}

fn span_less(a: &(u64, u64, String), b: &(u64, u64, String)) -> (r: bool)
    ensures
        r == span_lt((a.0, a.1, a.2@), (b.0, b.1, b.2@)),
{
    a.0 < b.0 || (a.0 == b.0 && (a.1 < b.1 || (a.1 == b.1 && text_le(a.2.as_str(), b.2.as_str())
        && !same_text(a.2.as_str(), b.2.as_str()))))
}

/// The sections in order.
fn sorted_spans(s: Vec<(u64, u64, String)>) -> (r: Vec<(u64, u64, String)>)
    ensures
        spans_view(r@) == sort_spans(spans_view(s@)),
{
    let ghost sv = spans_view(s@);
    let mut r: Vec<(u64, u64, String)> = Vec::new();
    let mut rest = s;
    let mut i: usize = 0;
    while i < rest.len()
        invariant
            sv == spans_view(rest@),
            i <= rest@.len(),
            spans_view(r@) == sort_spans(sv.subrange(0, i as int)),
        decreases rest@.len() - i,
    {
        let ghost pre = sv.subrange(0, i + 1);
        assert(pre.drop_last() =~= sv.subrange(0, i as int));
        assert(pre.last() == sv[i as int]);
        let ghost rv = spans_view(r@);
        let x = (rest[i].0, rest[i].1, rest[i].2.clone());
        let mut k: usize = 0;
        while k < r.len() && !span_less(&x, &r[k])
            invariant
                rv == spans_view(r@),
                k <= r@.len(),
                span_pos(rv, sv[i as int], 0) == span_pos(rv, sv[i as int], k as int),
                (x.0, x.1, x.2@) == sv[i as int],
            decreases r@.len() - k,
        {
            k = k + 1;
        }
        proof {
            lemma_span_pos_bounds(rv, sv[i as int], 0);
        }
        r.insert(k, x);
        assert(spans_view(r@) =~= rv.insert(k as int, sv[i as int]));
        i = i + 1;
    }
    assert(sv.subrange(0, sv.len() as int) =~= sv);
    r
}

/// What lab 1 (reliable broadcast, mutual exclusion) states of a run.
pub fn lab1(ev: &Events, sc: &Scenario, r: &mut Report)
    ensures
        final(r)@ == old(r)@ + spec_lab1(ev@, spec_correct(sc.nodes as nat, ev@.crashed)),
{
    let correct = correct_nodes(sc, ev);
    let ghost cv = strings_view(correct@);
    let ghost checks = spec_lab1(ev@, cv);
    let got = deliveries(ev);
    let ghost gv = got_view(got@);
    // -- reliable broadcast: agreement
    let mut sets: Vec<usize> = Vec::new();
    let mut c: usize = 0;
    while c < correct.len()
        invariant
            gv == got_view(got@),
            cv == strings_view(correct@),
            c <= correct@.len(),
            forall|j: int| 0 <= j < sets@.len() ==> #[trigger] sets@[j] < got@.len(),
            Seq::new(sets@.len(), |j: int| gv[sets@[j] as int].1) == lab1_sets(gv, cv.subrange(0, c as int)),
        decreases correct@.len() - c,
    {
        let ghost pre = cv.subrange(0, c + 1);
        assert(pre.drop_last() =~= cv.subrange(0, c as int));
        assert(pre.last() == cv[c as int]);
        let n = correct[c].as_str();
        let mut k: usize = 0;
        while k < got.len() && !same_text(got[k].0.as_str(), n)
            invariant
                gv == got_view(got@),
                k <= got@.len(),
                find_node(gv, n@, 0) == find_node(gv, n@, k as int),
            decreases got@.len() - k,
        {
            k = k + 1;
        }
        proof {
            lemma_find_node(gv, n@, 0);
            if k < got@.len() {
                assert(gv[k as int].0 == n@);
            }
        }
        if k < got.len() {
            let ghost before = Seq::new(sets@.len(), |j: int| gv[sets@[j] as int].1);
            sets.push(k);
            assert(Seq::new(sets@.len(), |j: int| gv[sets@[j] as int].1) =~= before.push(gv[k as int].1));
        }
        c = c + 1;
    }
    assert(cv.subrange(0, cv.len() as int) =~= cv);
    let ghost setv = Seq::new(sets@.len(), |j: int| gv[sets@[j] as int].1);
    if sets.len() == 0 {
        r.add("rb-agreement", Kind::Safety, true, text("no deliveries in this run"));
    } else {
        let first = &got[sets[0]].1;
        let mut all_same = true;
        let mut j: usize = 0;
        while j < sets.len()
            invariant
                gv == got_view(got@),
                setv == Seq::new(sets@.len(), |j: int| gv[sets@[j] as int].1),
                sets@.len() > 0,
                forall|j: int| 0 <= j < sets@.len() ==> #[trigger] sets@[j] < got@.len(),
                strings_view(first@) == setv[0],
                j <= sets@.len(),
                all_same == (forall|q: int| 0 <= q < j ==> #[trigger] setv[q] == setv[0]),
            decreases sets@.len() - j,
        {
            assert(setv[j as int] == strings_view(got@[sets@[j as int] as int].1@));
            if !same_strings(&got[sets[j]].1, first) {
                all_same = false;
            }
            j = j + 1;
        }
        let complete = sets.len() == correct.len();
        let mut d = String::new();
        if all_same && complete {
            push_decimal(&mut d, sets.len() as u64);
            push_str(&mut d, " correct nodes each delivered ");
            push_decimal(&mut d, first.len() as u64);
        } else if !all_same {
            push_str(&mut d, "correct nodes delivered different sets");
        } else {
            push_str(&mut d, "only ");
            push_decimal(&mut d, sets.len() as u64);
            push_str(&mut d, "/");
            push_decimal(&mut d, correct.len() as u64);
            push_str(&mut d, " correct nodes delivered anything");
        }
        assert(d@ =~= checks[0].detail);
        r.add("rb-agreement", Kind::Safety, all_same && complete, d);
    }
    let ghost after_agreement = r@;
    // -- reliable broadcast: validity
    let asked = collect_names(&ev.stimuli, "do_broadcast", true);
    let ghost av = strings_view(asked@);
    if asked.len() > 0 {
        let mut bad: Vec<String> = Vec::new();
        let mut e: usize = 0;
        while e < got.len()
            invariant
                gv == got_view(got@),
                av == strings_view(asked@),
                e <= got@.len(),
                bad@.len() == spurious(gv.subrange(0, e as int), av),
            decreases got@.len() - e,
        {
            let ghost pre = gv.subrange(0, e + 1);
            assert(pre.drop_last() =~= gv.subrange(0, e as int));
            assert(pre.last() == gv[e as int]);
            let ms = &got[e].1;
            let ghost mv = strings_view(ms@);
            let ghost base = bad@.len();
            let mut q: usize = 0;
            while q < ms.len()
                invariant
                    mv == strings_view(ms@),
                    av == strings_view(asked@),
                    q <= ms@.len(),
                    bad@.len() == base + not_asked(mv.subrange(0, q as int), av),
                decreases ms@.len() - q,
            {
                assert(mv.subrange(0, q + 1).drop_last() =~= mv.subrange(0, q as int));
                assert(mv.subrange(0, q + 1).last() == ms@[q as int]@);
                if !holds_text(&asked, ms[q].as_str()) {
                    bad.push(ms[q].clone());
                }
                q = q + 1;
            }
            assert(mv.subrange(0, mv.len() as int) =~= mv);
            e = e + 1;
        }
        assert(gv.subrange(0, gv.len() as int) =~= gv);
        let mut d = String::new();
        if bad.len() == 0 {
            push_str(&mut d, "all deliveries trace to one of ");
            push_decimal(&mut d, asked.len() as u64);
            push_str(&mut d, " broadcasts");
        } else {
            push_str(&mut d, "delivered ");
            push_decimal(&mut d, bad.len() as u64);
            push_str(&mut d, " message(s) nobody broadcast");
        }
        r.add("rb-validity", Kind::Safety, bad.len() == 0, d);
    }
    let ghost after_validity = r@;
    // -- mutex progress
    let asked_cs = collect_names(&ev.stimuli, "request_cs", false);
    let ghost acv = strings_view(asked_cs@);
    if asked_cs.len() > 0 {
        let entered = collect_names(&ev.observes, "enter_cs", false);
        let ghost env = strings_view(entered@);
        let mut hungry: Vec<String> = Vec::new();
        let mut q: usize = 0;
        while q < asked_cs.len()
            invariant
                acv == strings_view(asked_cs@),
                env == strings_view(entered@),
                cv == strings_view(correct@),
                q <= asked_cs@.len(),
                strings_view(hungry@) == starved(acv.subrange(0, q as int), cv, env),
            decreases asked_cs@.len() - q,
        {
            let ghost pre = acv.subrange(0, q + 1);
            assert(pre.drop_last() =~= acv.subrange(0, q as int));
            assert(pre.last() == acv[q as int]);
            let n = asked_cs[q].as_str();
            if holds_text(&correct, n) && !holds_text(&entered, n) {
                let ghost before = strings_view(hungry@);
                hungry.push(asked_cs[q].clone());
                assert(strings_view(hungry@) =~= before.push(n@));
            }
            q = q + 1;
        }
        assert(acv.subrange(0, acv.len() as int) =~= acv);
        let mut d = String::new();
        if hungry.len() == 0 {
            push_str(&mut d, "all ");
            push_decimal(&mut d, asked_cs.len() as u64);
            push_str(&mut d, " requesting correct nodes entered");
        } else {
            push_names(&mut d, &hungry);
            push_str(&mut d, " asked for the lock and never got it");
        }
        r.add("mutex-progress", Kind::Liveness, hungry.len() == 0, d);
    }
    // -- mutual exclusion
    let (open, spans) = sections(ev);
    let ghost ov = open_view(open@);
    let mut all = spans;
    let ghost base = spans_view(all@);
    let mut q: usize = 0;
    while q < open.len()
        invariant
            ov == open_view(open@),
            q <= open@.len(),
            spans_view(all@) == base + held_to_end(ov, ev@.crashed, ev@.end).subrange(0, q as int),
        decreases open@.len() - q,
    {
        let until = match ev.crashed_at(open[q].0.as_str()) {
            Some(t) => t,
            None => ev.end,
        };
        let ghost before = spans_view(all@);
        let ghost h = held_to_end(ov, ev@.crashed, ev@.end);
        assert(ov[q as int] == (open@[q as int].0@, open@[q as int].1));
        assert(h[q as int] == (open@[q as int].1, until, open@[q as int].0@));
        all.push((open[q].1, until, open[q].0.clone()));
        assert(spans_view(all@) =~= before.push(h[q as int]));
        assert(h.subrange(0, q + 1) =~= h.subrange(0, q as int).push(h[q as int]));
        assert(spans_view(all@) =~= base + h.subrange(0, q + 1));
        q = q + 1;
    }
    assert(held_to_end(ov, ev@.crashed, ev@.end).subrange(0, ov.len() as int) =~= held_to_end(ov, ev@.crashed, ev@.end));
    let sorted = sorted_spans(all);
    let ghost stv = spans_view(sorted@);
    let n = sorted.len();
    let mut k: usize = 0;
    while n > 0 && k < n - 1 && !(sorted[k + 1].0 < sorted[k].1)
        invariant
            stv == spans_view(sorted@),
            n == sorted@.len(),
            k <= sorted@.len(),
            n > 0 ==> k < n,
            first_clash(stv, 0) == first_clash(stv, k as int),
        decreases sorted@.len() - k,
    {
        k = k + 1;
    }
    let clash = n > 0 && k < n - 1;
    let mut d = String::new();
    if !clash {
        push_decimal(&mut d, sorted.len() as u64);
        push_str(&mut d, " critical sections, none overlapping");
    } else {
        push_str(&mut d, sorted[k].2.as_str());
        push_str(&mut d, " held [");
        push_decimal(&mut d, sorted[k].0);
        push_str(&mut d, ",");
        push_decimal(&mut d, sorted[k].1);
        push_str(&mut d, ") while ");
        push_str(&mut d, sorted[k + 1].2.as_str());
        push_str(&mut d, " entered at ");
        push_decimal(&mut d, sorted[k + 1].0);
    }
    r.add("mutual-exclusion", Kind::Safety, !clash, d);
    assert(final(r)@ =~= old(r)@ + checks);
}

fn push_names(out: &mut String, ns: &Vec<String>)
    ensures
        final(out)@ == old(out)@ + names_text(strings_view(ns@)),
{
    let ghost nv = strings_view(ns@);
    let ghost items = Seq::new(nv.len(), |i: int| debug_quoted(nv[i]));
    let mut body = String::new();
    let mut i: usize = 0;
    while i < ns.len()
        invariant
            nv == strings_view(ns@),
            items == Seq::new(nv.len(), |i: int| debug_quoted(nv[i])),
            i <= ns@.len(),
            body@ == join_items(items.subrange(0, i as int)),
        decreases ns@.len() - i,
    {
        proof {
            lemma_join_push(items.subrange(0, i as int), items[i as int]);
            assert(items.subrange(0, i + 1) =~= items.subrange(0, i as int).push(items[i as int]));
        }
        if i > 0 {
            push_str(&mut body, ", ");
        }
        let q = debug_text(ns[i].as_str());
        push_str(&mut body, q.as_str());
        i = i + 1;
    }
    assert(items.subrange(0, ns@.len() as int) =~= items);
    push_str(out, "[");
    push_str(out, body.as_str());
    push_str(out, "]");
    assert(final(out)@ =~= old(out)@ + names_text(nv));
}

// ---------------------------------------------------------------- choosing

/// The checks lab `lab` states of a run, if there is such a lab.
pub open spec fn spec_run(lab: Seq<char>, ev: EventsV, sc: Scenario) -> Option<Seq<CheckV>> {
    let correct = spec_correct(sc.nodes as nat, ev.crashed);
    let after = spec_effective_gst(sc.gst, sc.faults@) as u64;
    if lab == "lab1"@ {
        Some(spec_lab1(ev, correct))
    } else if lab == "lab2"@ {
        Some(spec_lab2(ev, correct, after))
    } else if lab == "lab3"@ {
        Some(spec_lab3(ev, correct, after))
    } else if lab == "lab4"@ {
        Some(spec_lab4(ev, correct))
    } else {
        None
    }
}

/// Judges a run for a lab. The entries are the lines of its journal that read as JSON, in order.
///
/// Only the labs that judge what happens after the effective GST, lab2 and lab3, need every
/// fault to end at an instant a `u64` holds.
pub fn run(lab: &str, entries: &Vec<Json>, sc: &Scenario) -> (r: Result<Report, String>)
    requires
        lab@ == "lab2"@ || lab@ == "lab3"@ ==> faults_end_in_range(sc.faults@),
    ensures
        match r {
            Ok(rep) => spec_run(lab@, spec_events(values_view(entries@)), *sc) == Some(rep@),
            Err(e) => spec_run(lab@, spec_events(values_view(entries@)), *sc) is None
                && e@ == "unknown lab "@ + lab@ + " (lab1|lab2|lab3|lab4)"@,
        },
{
    let ev = events_of(entries);
    let mut r = Report::default();
    assert(r@ =~= Seq::<CheckV>::empty());
    if same_text(lab, "lab1") {
        lab1(&ev, sc, &mut r);
    } else if same_text(lab, "lab2") {
        lab2(&ev, sc, &mut r);
    } else if same_text(lab, "lab3") {
        lab3(&ev, sc, &mut r);
    } else if same_text(lab, "lab4") {
        lab4(&ev, sc, &mut r);
    } else {
        let mut e = text("unknown lab ");
        push_str(&mut e, lab);
        push_str(&mut e, " (lab1|lab2|lab3|lab4)");
        return Err(e);
    }
    assert(r@ =~= Seq::<CheckV>::empty() + r@.subrange(0, r@.len() as int));
    Ok(r)
}

} // verus!
