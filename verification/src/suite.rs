//! Judging runs: what a journal says happened, the verdicts stated over it, and the choices a
//! suite makes about which runs to make and how to report them.
//!
//! The harness executes one scenario and records what happened. It has no notion of success.
//! Everything on this side of that line lives here: reading a journal back, dating liveness from
//! the effective GST, and turning checks into a verdict.

use vstd::prelude::*;
use crate::json::{Json, JsonV, spec_get, spec_as_str, spec_as_u64, spec_str_field};
use crate::scenario::{Scenario, Fault, Stimulus};
use crate::text::same_text;
use crate::draw::{spec_name, node_name};
use crate::words::{strings_view, spec_parse_u64, parse_u64, spec_trim, trim, spec_split_once, split_once, spec_find_sub, contains, spec_lines, lines_of};
use crate::text::{spec_decimal, push_decimal, push_char};
use crate::text::{text, push_str};
use vstd::utf8::encode_utf8;

verus! {

// ---------------------------------------------------------------- properties

/// Whether a property must hold at every instant or must eventually come true.
#[derive(Debug, Clone, Copy, PartialEq, Eq, Structural)]
pub enum Kind {
    Safety,
    Liveness,
}

/// One property, judged on one run.
#[derive(Debug)]
pub struct Check {
    pub name: &'static str,
    pub kind: Kind,
    pub ok: bool,
    pub detail: String,
}

/// The checks stated over a run, in the order they were added.
#[derive(Debug)]
pub struct Report {
    pub checks: Vec<Check>,
}

/// How one check is reported: whether it held, its kind, its name padded to twenty, its detail.
pub open spec fn spec_check_line(c: Check) -> Seq<char> {
    "  "@ + (if c.ok { "ok  "@ } else { "FAIL"@ }) + " "@
        + (match c.kind {
            Kind::Safety => "safety  "@,
            Kind::Liveness => "liveness"@,
        }) + " "@ + spec_pad(c.name@, 20) + " "@ + c.detail@
}

/// The names of the failed checks, in the order they were added.
pub open spec fn spec_failed(checks: Seq<Check>) -> Seq<&'static str>
    decreases checks.len(),
{
    if checks.len() == 0 {
        Seq::empty()
    } else {
        let rest = spec_failed(checks.drop_last());
        if checks.last().ok {
            rest
        } else {
            rest.push(checks.last().name)
        }
    }
}

impl Default for Report {
    fn default() -> (r: Report)
        ensures
            r.checks@.len() == 0,
    {
        Report { checks: Vec::new() }
    }
}

impl Report {
    /// Records one check after the others.
    pub fn add(&mut self, name: &'static str, kind: Kind, ok: bool, detail: String)
        ensures
            final(self).checks@ == old(self).checks@.push(Check { name, kind, ok, detail }),
    {
        self.checks.push(Check { name, kind, ok, detail });
    }

    /// Whether every check passed.
    pub fn ok(&self) -> (r: bool)
        ensures
            r == (forall|i: int| 0 <= i < self.checks@.len() ==> #[trigger] self.checks@[i].ok),
    {
        let mut i: usize = 0;
        while i < self.checks.len()
            invariant
                i <= self.checks@.len(),
                forall|k: int| 0 <= k < i ==> #[trigger] self.checks@[k].ok,
            decreases self.checks@.len() - i,
        {
            if !self.checks[i].ok {
                return false;
            }
            i = i + 1;
        }
        true
    }

    /// One line per check, in order, as a report is printed.
    pub fn lines(&self) -> (r: Vec<String>)
        ensures
            r@.len() == self.checks@.len(),
            forall|i: int| 0 <= i < r@.len() ==> (#[trigger] r@[i])@ == spec_check_line(self.checks@[i]),
    {
        let mut r: Vec<String> = Vec::new();
        let mut i: usize = 0;
        while i < self.checks.len()
            invariant
                i <= self.checks@.len(),
                r@.len() == i,
                forall|k: int| 0 <= k < i ==> (#[trigger] r@[k])@ == spec_check_line(self.checks@[k]),
            decreases self.checks@.len() - i,
        {
            let c = &self.checks[i];
            let mut line = text("  ");
            push_str(&mut line, if c.ok { "ok  " } else { "FAIL" });
            push_str(&mut line, " ");
            push_str(&mut line, match c.kind {
                Kind::Safety => "safety  ",
                Kind::Liveness => "liveness",
            });
            push_str(&mut line, " ");
            push_padded(&mut line, c.name, 20);
            push_str(&mut line, " ");
            push_str(&mut line, c.detail.as_str());
            r.push(line);
            i = i + 1;
        }
        r
    }

    /// Names of the checks that failed, in declaration order.
    pub fn failed(&self) -> (r: Vec<&'static str>)
        ensures
            r@ == spec_failed(self.checks@),
    {
        let mut r: Vec<&'static str> = Vec::new();
        let mut i: usize = 0;
        while i < self.checks.len()
            invariant
                i <= self.checks@.len(),
                r@ == spec_failed(self.checks@.subrange(0, i as int)),
            decreases self.checks@.len() - i,
        {
            assert(self.checks@.subrange(0, i + 1).drop_last() =~= self.checks@.subrange(0, i as int));
            if !self.checks[i].ok {
                r.push(self.checks[i].name);
            }
            i = i + 1;
        }
        assert(self.checks@.subrange(0, self.checks@.len() as int) =~= self.checks@);
        r
    }
}

// ------------------------------------------------------------- what a run is

/// What a run is, as a property sees it.
pub struct EventsV {
    pub observes: Seq<(u64, Seq<char>, JsonV)>,
    pub stimuli: Seq<(u64, Seq<char>, JsonV)>,
    pub crashed: Map<Seq<char>, u64>,
    pub end: u64,
    pub truncated: bool,
}

pub open spec fn triple_view(e: (u64, String, Json)) -> (u64, Seq<char>, JsonV) {
    (e.0, e.1@, e.2@)
}

pub open spec fn triples_view(s: Seq<(u64, String, Json)>) -> Seq<(u64, Seq<char>, JsonV)> {
    Seq::new(s.len(), |i: int| triple_view(s[i]))
}

/// Who crashed when, as a map: a later entry for the same node replaces an earlier one.
pub open spec fn key_map(s: Seq<(String, u64)>) -> Map<Seq<char>, u64>
    decreases s.len(),
{
    if s.len() == 0 {
        Map::empty()
    } else {
        key_map(s.drop_last()).insert(s.last().0@, s.last().1)
    }
}

/// Everything a property can be stated over: what nodes observed, what the harness asked of them,
/// and who died.
pub struct Events {
    /// `(t, node, body)`: things a node reported to the harness.
    pub observes: Vec<(u64, String, Json)>,
    /// `(t, node, body)`: things the harness asked of a node.
    pub stimuli: Vec<(u64, String, Json)>,
    /// `(node, t)`: the crashes the journal records; a later one for the same node wins.
    pub crashed: Vec<(String, u64)>,
    pub end: u64,
    /// True when the run was cut at the time limit instead of running out of events.
    ///
    /// Every liveness deadline dates from the end of the run, so judging a truncated run reports
    /// "never happened" when the truth is "we stopped looking".
    pub truncated: bool,
}

impl View for Events {
    type V = EventsV;

    open spec fn view(&self) -> EventsV {
        EventsV {
            observes: triples_view(self.observes@),
            stimuli: triples_view(self.stimuli@),
            crashed: key_map(self.crashed@),
            end: self.end,
            truncated: self.truncated,
        }
    }
}

pub open spec fn no_events() -> EventsV {
    EventsV {
        observes: Seq::empty(),
        stimuli: Seq::empty(),
        crashed: Map::empty(),
        end: 0,
        truncated: false,
    }
}

/// `v.detail.key`, when `detail` is there.
pub open spec fn detail_get(v: JsonV, key: Seq<char>) -> Option<JsonV> {
    match spec_get(v, "detail"@) {
        Some(d) => spec_get(d, key),
        None => None,
    }
}

/// What one journal entry adds to what is known of the run.
pub open spec fn spec_absorb(e: EventsV, v: JsonV) -> EventsV {
    let t = match spec_as_u64(spec_get(v, "t"@)) {
        Some(t) => t,
        None => 0u64,
    };
    let end = if e.end >= t { e.end } else { t };
    let body = match spec_get(v, "body"@) {
        Some(b) => b,
        None => JsonV::Null,
    };
    let kind = spec_str_field(v, "kind"@);
    let e2 = EventsV { end, ..e };
    if kind == "observe"@ {
        EventsV { observes: e2.observes.push((t, spec_str_field(v, "src"@), body)), ..e2 }
    } else if kind == "stimulus"@ {
        EventsV { stimuli: e2.stimuli.push((t, spec_str_field(v, "dest"@), body)), ..e2 }
    } else if kind == "end"@ {
        EventsV { truncated: spec_as_str(detail_get(v, "reason"@)) == Some("time-limit"@), ..e2 }
    } else if kind == "fault-crash"@ {
        match spec_as_str(detail_get(v, "node"@)) {
            Some(n) => EventsV { crashed: e2.crashed.insert(n, t), ..e2 },
            None => e2,
        }
    } else {
        e2
    }
}

/// What a journal says of its run, entry after entry.
pub open spec fn spec_events(entries: Seq<JsonV>) -> EventsV
    decreases entries.len(),
{
    if entries.len() == 0 {
        no_events()
    } else {
        spec_absorb(spec_events(entries.drop_last()), entries.last())
    }
}

pub open spec fn values_view(s: Seq<Json>) -> Seq<JsonV> {
    Seq::new(s.len(), |i: int| s[i]@)
}

/// The string at `key` of `v`, if there is one.
fn str_at<'a>(v: &'a Json, key: &str) -> (r: Option<&'a String>)
    ensures
        r matches Some(s) ==> spec_as_str(spec_get(v@, key@)) == Some(s@),
        r is None ==> spec_as_str(spec_get(v@, key@)) is None,
{
    match v.get(key) {
        Some(x) => x.as_str(),
        None => None,
    }
}

/// The string at `detail.key` of `v`, if there is one.
fn detail_str<'a>(v: &'a Json, key: &str) -> (r: Option<&'a String>)
    ensures
        r matches Some(s) ==> spec_as_str(detail_get(v@, key@)) == Some(s@),
        r is None ==> spec_as_str(detail_get(v@, key@)) is None,
{
    match v.get("detail") {
        Some(d) => str_at(d, key),
        None => None,
    }
}

impl Events {
    pub fn new() -> (e: Events)
        ensures
            e@ == no_events(),
    {
        let e = Events {
            observes: Vec::new(),
            stimuli: Vec::new(),
            crashed: Vec::new(),
            end: 0,
            truncated: false,
        };
        assert(e@.observes =~= Seq::empty());
        assert(e@.stimuli =~= Seq::empty());
        e
    }

    /// Takes one journal entry into account.
    pub fn absorb(&mut self, v: &Json)
        ensures
            final(self)@ == spec_absorb(old(self)@, v@),
    {
        let t: u64 = match v.u64_field("t") {
            Some(t) => t,
            None => 0,
        };
        if self.end < t {
            self.end = t;
        }
        let kind = v.str_field("kind");
        if same_text(kind.as_str(), "observe") {
            let body = match v.get("body") {
                Some(b) => b.duplicate(),
                None => Json::Null,
            };
            let ghost before = self.observes@;
            self.observes.push((t, v.str_field("src"), body));
            assert(triples_view(self.observes@) =~= triples_view(before).push(triple_view(self.observes@.last())));
        } else if same_text(kind.as_str(), "stimulus") {
            let body = match v.get("body") {
                Some(b) => b.duplicate(),
                None => Json::Null,
            };
            let ghost before = self.stimuli@;
            self.stimuli.push((t, v.str_field("dest"), body));
            assert(triples_view(self.stimuli@) =~= triples_view(before).push(triple_view(self.stimuli@.last())));
        } else if same_text(kind.as_str(), "end") {
            self.truncated = match detail_str(v, "reason") {
                Some(r) => same_text(r.as_str(), "time-limit"),
                None => false,
            };
        } else if same_text(kind.as_str(), "fault-crash") {
            match detail_str(v, "node") {
                Some(n) => {
                    let ghost before = self.crashed@;
                    self.crashed.push((n.clone(), t));
                    assert(self.crashed@.drop_last() =~= before);
                },
                None => {},
            }
        }
    }

    /// When `node` crashed, if the run crashed it.
    pub fn crashed_at(&self, node: &str) -> (r: Option<u64>)
        ensures
            r matches Some(t) ==> self@.crashed.contains_key(node@) && self@.crashed[node@] == t,
            r is None ==> !self@.crashed.contains_key(node@),
    {
        let mut i: usize = self.crashed.len();
        assert(self.crashed@.subrange(0, i as int) =~= self.crashed@);
        while i > 0
            invariant
                i <= self.crashed@.len(),
                key_map(self.crashed@).contains_key(node@) == key_map(self.crashed@.subrange(0, i as int)).contains_key(node@),
                key_map(self.crashed@).contains_key(node@) ==> key_map(self.crashed@)[node@] == key_map(self.crashed@.subrange(0, i as int))[node@],
            decreases i,
        {
            let ghost pre = self.crashed@.subrange(0, i as int);
            assert(pre.drop_last() =~= self.crashed@.subrange(0, i - 1));
            if same_text(self.crashed[i - 1].0.as_str(), node) {
                return Some(self.crashed[i - 1].1);
            }
            i = i - 1;
        }
        assert(self.crashed@.subrange(0, 0) =~= Seq::<(String, u64)>::empty());
        None
    }
}

/// What a journal says of its run. The entries are the journal's lines that read as JSON, in
/// order; a line that does not is skipped before this point.
pub fn events_of(entries: &Vec<Json>) -> (ev: Events)
    ensures
        ev@ == spec_events(values_view(entries@)),
{
    let mut ev = Events::new();
    let mut i: usize = 0;
    while i < entries.len()
        invariant
            i <= entries@.len(),
            ev@ == spec_events(values_view(entries@.subrange(0, i as int))),
        decreases entries@.len() - i,
    {
        proof {
            let s = values_view(entries@.subrange(0, i + 1));
            assert(s.drop_last() =~= values_view(entries@.subrange(0, i as int)));
            assert(s.last() == entries@[i as int]@);
        }
        ev.absorb(&entries[i]);
        i = i + 1;
    }
    assert(entries@.subrange(0, entries@.len() as int) =~= entries@);
    ev
}

/// The `type` of a body, or the empty string.
pub open spec fn spec_ty(b: JsonV) -> Seq<char> {
    spec_str_field(b, "type"@)
}

/// The `type` of a body, or the empty string.
pub fn ty(b: &Json) -> (r: &str)
    ensures
        r@ == spec_ty(b@),
{
    match str_at(b, "type") {
        Some(s) => s.as_str(),
        None => {
            proof {
                reveal_strlit("");
            }
            ""
        },
    }
}

/// The processes the run never crashed, `n0` first. Properties are stated over these.
pub open spec fn spec_correct(n: nat, crashed: Map<Seq<char>, u64>) -> Seq<Seq<char>>
    decreases n,
{
    if n == 0 {
        Seq::empty()
    } else {
        let rest = spec_correct((n - 1) as nat, crashed);
        if crashed.contains_key(spec_name((n - 1) as nat)) {
            rest
        } else {
            rest.push(spec_name((n - 1) as nat))
        }
    }
}

/// Nodes the run never crashed. Properties are stated over these, not over all nodes.
pub fn correct_nodes(sc: &Scenario, ev: &Events) -> (r: Vec<String>)
    ensures
        strings_view(r@) == spec_correct(sc.nodes as nat, ev@.crashed),
{
    let mut r: Vec<String> = Vec::new();
    let mut i: usize = 0;
    while i < sc.nodes
        invariant
            i <= sc.nodes,
            strings_view(r@) == spec_correct(i as nat, ev@.crashed),
        decreases sc.nodes - i,
    {
        let name = node_name(i);
        match ev.crashed_at(name.as_str()) {
            Some(_) => {},
            None => {
                let ghost before = r@;
                r.push(name);
                assert(strings_view(r@) =~= strings_view(before).push(spec_name(i as nat)));
            },
        }
        i = i + 1;
    }
    r
}

// ------------------------------------------------------------ effective GST

/// The effective GST of a list of faults that starts from `gst`: the latest of `gst` and of the
/// end of every fault.
pub open spec fn spec_effective_gst(gst: u64, faults: Seq<Fault>) -> int
    decreases faults.len(),
{
    if faults.len() == 0 {
        gst as int
    } else {
        let rest = spec_effective_gst(gst, faults.drop_last());
        let e = faults.last().spec_end();
        if rest >= e { rest } else { e }
    }
}

pub open spec fn faults_end_in_range(faults: Seq<Fault>) -> bool {
    forall|i: int| 0 <= i < faults.len() ==> #[trigger] faults[i].spec_end() <= u64::MAX
}

proof fn lemma_effective_gst(gst: u64, faults: Seq<Fault>)
    ensures
        spec_effective_gst(gst, faults) >= gst,
        forall|i: int| 0 <= i < faults.len() ==> spec_effective_gst(gst, faults) >= #[trigger] faults[i].spec_end(),
        spec_effective_gst(gst, faults) == gst
            || exists|i: int| 0 <= i < faults.len() && spec_effective_gst(gst, faults) == #[trigger] faults[i].spec_end(),
        faults_end_in_range(faults) ==> spec_effective_gst(gst, faults) <= u64::MAX,
    decreases faults.len(),
{
    if faults.len() > 0 {
        let rest = faults.drop_last();
        lemma_effective_gst(gst, rest);
        assert forall|i: int| 0 <= i < rest.len() implies #[trigger] rest[i].spec_end() == faults[i].spec_end() by {}
        if spec_effective_gst(gst, rest) != gst {
            let k = choose|i: int| 0 <= i < rest.len() && spec_effective_gst(gst, rest) == #[trigger] rest[i].spec_end();
            assert(faults[k].spec_end() == rest[k].spec_end());
        }
        assert(faults[faults.len() - 1].spec_end() == faults.last().spec_end());
        assert forall|i: int| 0 <= i < faults.len() implies spec_effective_gst(gst, faults) >= #[trigger] faults[i].spec_end() by {
            if i < faults.len() - 1 {
                assert(rest[i] == faults[i]);
            }
        }
        if faults_end_in_range(faults) {
            assert(faults_end_in_range(rest)) by {
                assert forall|i: int| 0 <= i < rest.len() implies #[trigger] rest[i].spec_end() <= u64::MAX by {
                    assert(rest[i] == faults[i]);
                }
            }
        }
    }
}

/// Whether every fault of a scenario ends at an instant a `u64` holds.
pub fn faults_fit(sc: &Scenario) -> (r: bool)
    ensures
        r == faults_end_in_range(sc.faults@),
{
    let mut i: usize = 0;
    while i < sc.faults.len()
        invariant
            i <= sc.faults@.len(),
            forall|k: int| 0 <= k < i ==> #[trigger] sc.faults@[k].spec_end() <= u64::MAX,
        decreases sc.faults@.len() - i,
    {
        let fits = match &sc.faults[i] {
            Fault::Crash { .. } => true,
            Fault::Pause { at, duration, .. } => *duration <= u64::MAX - *at,
            Fault::Partition { at, duration, .. } => *duration <= u64::MAX - *at,
        };
        if !fits {
            assert(sc.faults@[i as int].spec_end() > u64::MAX);
            return false;
        }
        i = i + 1;
    }
    true
}

/// Where liveness deadlines date from, never the scheduled `gst`.
///
/// A pause landing after GST also violates partial synchrony, so the effective GST is the end of
/// the last fault. Dating from `gst` would fail correct implementations.
///
/// It is the scheduled GST or the end of one of the faults, and no fault ends after it.
pub fn effective_gst(sc: &Scenario) -> (t: u64)
    requires
        faults_end_in_range(sc.faults@),
    ensures
        t == spec_effective_gst(sc.gst, sc.faults@),
        t >= sc.gst,
        forall|i: int| 0 <= i < sc.faults@.len() ==> t >= #[trigger] sc.faults@[i].spec_end(),
        t == sc.gst || exists|i: int| 0 <= i < sc.faults@.len() && t == #[trigger] sc.faults@[i].spec_end(),
{
    let mut t: u64 = sc.gst;
    let mut i: usize = 0;
    while i < sc.faults.len()
        invariant
            i <= sc.faults@.len(),
            faults_end_in_range(sc.faults@),
            t == spec_effective_gst(sc.gst, sc.faults@.subrange(0, i as int)),
        decreases sc.faults@.len() - i,
    {
        assert(sc.faults@.subrange(0, i + 1).drop_last() =~= sc.faults@.subrange(0, i as int));
        assert(sc.faults@[i as int].spec_end() <= u64::MAX);
        let e: u64 = match &sc.faults[i] {
            Fault::Crash { at, .. } => *at,
            Fault::Pause { at, duration, .. } => *at + *duration,
            Fault::Partition { at, duration, .. } => *at + *duration,
        };
        if e > t {
            t = e;
        }
        i = i + 1;
    }
    assert(sc.faults@.subrange(0, sc.faults@.len() as int) =~= sc.faults@);
    proof {
        lemma_effective_gst(sc.gst, sc.faults@);
    }
    t
}

// ------------------------------------------------------ events past the limit

pub open spec fn late_stimuli(s: Seq<Stimulus>, limit: u64) -> nat
    decreases s.len(),
{
    if s.len() == 0 {
        0
    } else {
        late_stimuli(s.drop_last(), limit) + if s.last().at >= limit { 1nat } else { 0nat }
    }
}

pub open spec fn late_faults(s: Seq<Fault>, limit: u64) -> nat
    decreases s.len(),
{
    if s.len() == 0 {
        0
    } else {
        late_faults(s.drop_last(), limit) + if s.last().spec_at() >= limit { 1nat } else { 0nat }
    }
}

proof fn lemma_late_stimuli_le(s: Seq<Stimulus>, limit: u64)
    ensures
        late_stimuli(s, limit) <= s.len(),
    decreases s.len(),
{
    if s.len() > 0 {
        lemma_late_stimuli_le(s.drop_last(), limit);
    }
}

proof fn lemma_late_faults_le(s: Seq<Fault>, limit: u64)
    ensures
        late_faults(s, limit) <= s.len(),
    decreases s.len(),
{
    if s.len() > 0 {
        lemma_late_faults_le(s.drop_last(), limit);
    }
}

/// Events a scenario schedules at or past its own time limit, which the run will never reach.
///
/// Not the same thing as a run that ends at the limit: this is a space that asks for what cannot
/// happen, and it would otherwise shrink the workload in silence.
pub fn past_the_limit(sc: &Scenario) -> (n: usize)
    requires
        sc.stimuli@.len() + sc.faults@.len() <= usize::MAX,
    ensures
        n == late_stimuli(sc.stimuli@, sc.time_limit) + late_faults(sc.faults@, sc.time_limit),
{
    let mut a: usize = 0;
    let mut i: usize = 0;
    while i < sc.stimuli.len()
        invariant
            i <= sc.stimuli@.len(),
            a == late_stimuli(sc.stimuli@.subrange(0, i as int), sc.time_limit),
        decreases sc.stimuli@.len() - i,
    {
        assert(sc.stimuli@.subrange(0, i + 1).drop_last() =~= sc.stimuli@.subrange(0, i as int));
        proof {
            lemma_late_stimuli_le(sc.stimuli@.subrange(0, i as int), sc.time_limit);
        }
        if sc.stimuli[i].at >= sc.time_limit {
            a = a + 1;
        }
        i = i + 1;
    }
    assert(sc.stimuli@.subrange(0, sc.stimuli@.len() as int) =~= sc.stimuli@);
    proof {
        lemma_late_stimuli_le(sc.stimuli@, sc.time_limit);
        lemma_late_faults_le(sc.faults@, sc.time_limit);
    }
    let mut b: usize = 0;
    let mut j: usize = 0;
    while j < sc.faults.len()
        invariant
            j <= sc.faults@.len(),
            a == late_stimuli(sc.stimuli@, sc.time_limit),
            a <= sc.stimuli@.len(),
            sc.stimuli@.len() + sc.faults@.len() <= usize::MAX,
            b == late_faults(sc.faults@.subrange(0, j as int), sc.time_limit),
            late_faults(sc.faults@, sc.time_limit) <= sc.faults@.len(),
        decreases sc.faults@.len() - j,
    {
        assert(sc.faults@.subrange(0, j + 1).drop_last() =~= sc.faults@.subrange(0, j as int));
        proof {
            lemma_late_faults_le(sc.faults@.subrange(0, j as int), sc.time_limit);
        }
        if sc.faults[j].at() >= sc.time_limit {
            b = b + 1;
        }
        j = j + 1;
    }
    assert(sc.faults@.subrange(0, sc.faults@.len() as int) =~= sc.faults@);
    a + b
}

// ------------------------------------------------------------------- a suite

/// A parametric scenario: one space holding many runs, each one named by a seed.
///
/// One run proves nothing. The bugs worth catching show up on a minority of seeds.
pub struct Parametric {
    /// The space, relative to the suite directory: the world a run happens in and the tree of
    /// events that befall it.
    pub space: &'static str,
    pub seeds: u64,
}

/// A stored scenario, run once, with the failures a correct implementation should produce.
///
/// A scenario can exist to show what an algorithm's assumptions cost when they do not hold, and a
/// suite that could only say "all green" could not express one.
pub struct Written {
    /// Scenario path, relative to the suite directory.
    pub path: &'static str,
    pub expect_fail: &'static [&'static str],
    pub why: &'static str,
}

/// The file stem of a path (`Path::file_stem`), when the path names a file.
pub uninterp spec fn path_file_stem(path: Seq<char>) -> Option<Seq<char>>;

/// The file stem of `path`, through `Path::file_stem`. Claimed: the result is `path_file_stem` of
/// the path's characters.
#[verifier::external_body]
fn file_stem(path: &str) -> (r: Option<String>)
    ensures
        r matches Some(s) ==> path_file_stem(path@) == Some(s@),
        r is None ==> path_file_stem(path@) is None,
{
    match std::path::Path::new(path).file_stem() {
        Some(os) => match os.to_str() {
            Some(s) => Some(s.to_string()),
            None => None,
        },
        None => None,
    }
}

/// The name a scenario file is selected by, given what its stem came out as.
pub open spec fn spec_stem_or(found: Option<Seq<char>>) -> Seq<char> {
    match found {
        Some(s) => s,
        None => "written"@,
    }
}

/// The name a written scenario is selected by: its file stem, or `written` when it has none.
pub open spec fn spec_stem(path: Seq<char>) -> Seq<char> {
    spec_stem_or(path_file_stem(path))
}

/// The selection name for a file whose stem came out as `found`.
pub fn stem_or_default(found: Option<String>) -> (r: String)
    ensures
        r@ == spec_stem_or(match found { Some(s) => Some(s@), None => None }),
{
    match found {
        Some(s) => s,
        None => text("written"),
    }
}

/// The name a written scenario is selected by: its file stem.
pub fn stem(path: &str) -> (r: String)
    ensures
        r@ == spec_stem(path@),
{
    stem_or_default(file_stem(path))
}

/// A parametric scenario is named by its space: the file name already says which world ran, and
/// a label of its own would be a second name to keep true.
pub fn label(p: &Parametric) -> (r: String)
    ensures
        r@ == spec_stem(p.space@),
{
    stem(p.space)
}

// ----------------------------------------------------------------- options

/// `rel` taken from `base` (`Path::join`).
pub uninterp spec fn path_joined(base: Seq<char>, rel: Seq<char>) -> Seq<char>;

/// `Path::join`. Claimed: the result, as text, is `path_joined` of the two arguments.
#[verifier::external_body]
fn path_join(base: &str, rel: &str) -> (r: String)
    ensures
        r@ == path_joined(base@, rel@),
{
    std::path::Path::new(base).join(rel).to_string_lossy().into_owned()
}

/// How a suite was asked to run.
pub struct Opts {
    pub suite_dir: String,
    pub out: String,
    pub seeds: Option<u64>,
    /// Inclusive seed range. Debugging one failure should not mean re-running the other 199.
    pub range: Option<(u64, u64)>,
    /// Substring selecting which parametric and written scenarios to run.
    pub only: Option<String>,
    pub list: bool,
    pub watchdog: u64,
    pub program: Vec<String>,
}

pub struct OptsV {
    pub suite_dir: Seq<char>,
    pub out: Seq<char>,
    pub seeds: Option<u64>,
    pub range: Option<(u64, u64)>,
    pub only: Option<Seq<char>>,
    pub list: bool,
    pub watchdog: u64,
    pub program: Seq<Seq<char>>,
}

impl View for Opts {
    type V = OptsV;

    open spec fn view(&self) -> OptsV {
        OptsV {
            suite_dir: self.suite_dir@,
            out: self.out@,
            seeds: self.seeds,
            range: self.range,
            only: match self.only {
                Some(s) => Some(s@),
                None => None,
            },
            list: self.list,
            watchdog: self.watchdog,
            program: strings_view(self.program@),
        }
    }
}

/// The options before any argument is read.
pub open spec fn spec_opts_init(suite: Seq<char>, default_suite_dir: Seq<char>) -> OptsV {
    OptsV {
        suite_dir: default_suite_dir,
        out: path_joined("store"@, suite),
        seeds: None,
        range: None,
        only: None,
        list: false,
        watchdog: 5000,
        program: Seq::empty(),
    }
}

/// What `--seed` reads: one seed, or an inclusive range `a..b`.
pub open spec fn spec_seed_range(v: Seq<char>) -> Result<(u64, u64), Seq<char>> {
    let (x, y) = match spec_split_once(v, ".."@) {
        Some(p) => p,
        None => (v, v),
    };
    match (spec_parse_u64(spec_trim(x)), spec_parse_u64(spec_trim(y))) {
        (Some(lo), Some(hi)) => if hi < lo {
            Err("--seed "@ + v + ": the range runs backwards"@)
        } else {
            Ok((lo, hi))
        },
        _ => Err("bad --seed "@ + v),
    }
}

/// The options that the arguments from `i` on make of `o`, or the complaint about them.
pub open spec fn spec_parse_from(argv: Seq<Seq<char>>, i: int, o: OptsV) -> Result<OptsV, Seq<char>>
    decreases argv.len() - i,
{
    if i < 0 || i >= argv.len() {
        Ok(o)
    } else {
        let a = argv[i];
        let more = i + 1 < argv.len();
        let v = argv[i + 1];
        let missing: Result<OptsV, Seq<char>> = Err(a + " needs a value"@);
        if a == "--bin"@ {
            let p = argv.subrange(i + 1, argv.len() as int);
            if p.len() == 0 {
                Err("--bin needs a command"@)
            } else {
                Ok(OptsV { program: p, ..o })
            }
        } else if a == "--suite-dir"@ {
            if more { spec_parse_from(argv, i + 2, OptsV { suite_dir: v, ..o }) } else { missing }
        } else if a == "--out"@ {
            if more { spec_parse_from(argv, i + 2, OptsV { out: v, ..o }) } else { missing }
        } else if a == "--seeds"@ {
            if more {
                match spec_parse_u64(v) {
                    Some(n) => spec_parse_from(argv, i + 2, OptsV { seeds: Some(n), ..o }),
                    None => Err("bad --seeds"@),
                }
            } else {
                missing
            }
        } else if a == "--watchdog"@ {
            if more {
                match spec_parse_u64(v) {
                    Some(n) => spec_parse_from(argv, i + 2, OptsV { watchdog: n, ..o }),
                    None => Err("bad --watchdog"@),
                }
            } else {
                missing
            }
        } else if a == "--seed"@ {
            if more {
                match spec_seed_range(v) {
                    Ok(r) => spec_parse_from(argv, i + 2, OptsV { range: Some(r), ..o }),
                    Err(e) => Err(e),
                }
            } else {
                missing
            }
        } else if a == "--only"@ {
            if more { spec_parse_from(argv, i + 2, OptsV { only: Some(v), ..o }) } else { missing }
        } else if a == "--list"@ {
            spec_parse_from(argv, i + 1, OptsV { list: true, ..o })
        } else {
            Err("unknown option "@ + a)
        }
    }
}

/// What a suite's command line says.
pub open spec fn spec_parse(argv: Seq<Seq<char>>, suite: Seq<char>, default_suite_dir: Seq<char>) -> Result<OptsV, Seq<char>> {
    spec_parse_from(argv, 0, spec_opts_init(suite, default_suite_dir))
}

/// Two strings put together.
fn concat(a: &str, b: &str) -> (r: String)
    ensures
        r@ == a@ + b@,
{
    let mut r = text(a);
    push_str(&mut r, b);
    r
}

/// What `--seed` reads: one seed, or an inclusive range `a..b`.
pub fn seed_range(v: &str) -> (r: Result<(u64, u64), String>)
    ensures
        match r {
            Ok(x) => spec_seed_range(v@) == Ok::<(u64, u64), Seq<char>>(x),
            Err(e) => spec_seed_range(v@) == Err::<(u64, u64), Seq<char>>(e@),
        },
{
    let (x, y) = match split_once(v, "..") {
        Some(p) => p,
        None => (text(v), text(v)),
    };
    let lo = parse_u64(trim(x.as_str()).as_str());
    let hi = parse_u64(trim(y.as_str()).as_str());
    match (lo, hi) {
        (Some(lo), Some(hi)) => if hi < lo {
            let mut e = concat("--seed ", v);
            push_str(&mut e, ": the range runs backwards");
            Err(e)
        } else {
            Ok((lo, hi))
        },
        _ => Err(concat("bad --seed ", v)),
    }
}

/// Reads a suite's command line. `--bin` swallows the rest of it.
pub fn parse(argv: &Vec<String>, suite: &str, default_suite_dir: &str) -> (r: Result<Opts, String>)
    ensures
        match r {
            Ok(o) => spec_parse(strings_view(argv@), suite@, default_suite_dir@) == Ok::<OptsV, Seq<char>>(o@),
            Err(e) => spec_parse(strings_view(argv@), suite@, default_suite_dir@) == Err::<OptsV, Seq<char>>(e@),
        },
{
    let ghost args = strings_view(argv@);
    let mut o = Opts {
        suite_dir: text(default_suite_dir),
        out: path_join("store", suite),
        seeds: None,
        range: None,
        only: None,
        list: false,
        watchdog: 5000,
        program: Vec::new(),
    };
    assert(o@.program =~= Seq::<Seq<char>>::empty());
    let n = argv.len();
    let mut i: usize = 0;
    while i < n
        invariant
            n == argv@.len(),
            args == strings_view(argv@),
            i <= n,
            spec_parse(args, suite@, default_suite_dir@) == spec_parse_from(args, i as int, o@),
        decreases n - i,
    {
        let a = argv[i].as_str();
        assert(args[i as int] == a@);
        let more = i + 1 < n;
        proof {
            if more {
                assert(args[i + 1] == argv@[i + 1]@);
            }
        }
        if same_text(a, "--bin") {
            let mut p: Vec<String> = Vec::new();
            let mut j: usize = i + 1;
            while j < n
                invariant
                    n == argv@.len(),
                    args == strings_view(argv@),
                    i < j <= n,
                    strings_view(p@) == args.subrange(i + 1, j as int),
                decreases n - j,
            {
                let ghost before = p@;
                p.push(argv[j].clone());
                assert(strings_view(p@) =~= strings_view(before).push(argv@[j as int]@));
                assert(args.subrange(i + 1, j + 1) =~= args.subrange(i + 1, j as int).push(args[j as int]));
                j = j + 1;
            }
            if p.len() == 0 {
                return Err(text("--bin needs a command"));
            }
            o.program = p;
            return Ok(o);
        } else if same_text(a, "--suite-dir") {
            if !more {
                return Err(concat(a, " needs a value"));
            }
            o.suite_dir = argv[i + 1].clone();
            i = i + 2;
        } else if same_text(a, "--out") {
            if !more {
                return Err(concat(a, " needs a value"));
            }
            o.out = argv[i + 1].clone();
            i = i + 2;
        } else if same_text(a, "--seeds") {
            if !more {
                return Err(concat(a, " needs a value"));
            }
            match parse_u64(argv[i + 1].as_str()) {
                Some(k) => {
                    o.seeds = Some(k);
                },
                None => {
                    return Err(text("bad --seeds"));
                },
            }
            i = i + 2;
        } else if same_text(a, "--watchdog") {
            if !more {
                return Err(concat(a, " needs a value"));
            }
            match parse_u64(argv[i + 1].as_str()) {
                Some(k) => {
                    o.watchdog = k;
                },
                None => {
                    return Err(text("bad --watchdog"));
                },
            }
            i = i + 2;
        } else if same_text(a, "--seed") {
            if !more {
                return Err(concat(a, " needs a value"));
            }
            match seed_range(argv[i + 1].as_str()) {
                Ok(r) => {
                    o.range = Some(r);
                },
                Err(e) => {
                    return Err(e);
                },
            }
            i = i + 2;
        } else if same_text(a, "--only") {
            if !more {
                return Err(concat(a, " needs a value"));
            }
            o.only = Some(argv[i + 1].clone());
            i = i + 2;
        } else if same_text(a, "--list") {
            o.list = true;
            i = i + 1;
        } else {
            return Err(concat("unknown option ", a));
        }
    }
    Ok(o)
}

/// The text of the usage message after the first time the suite's command is named.
pub const USAGE_HEAD: &'static str = ": run this suite's scenarios and judge the journals they write\n\nUSAGE:\n    ";

/// The rest of the usage message.
pub const USAGE_TAIL: &'static str = " [options] --bin <cmd...>\n\nOPTIONS:\n    --bin <cmd...>     command launching one node (MUST BE LAST: swallows the rest of the line)\n    --suite-dir <path> where this suite's scenarios/ and stimuli/ live\n    --out <dir>        run directory                 [default: store/<suite>]\n    --seeds <n>        override every parametric scenario's seed count\n    --seed <a>[..<b>]  run one seed, or an inclusive range, instead of every seed\n    --only <name>      run only what matches: a parametric scenario's name or a written scenario's\n    --watchdog <ms>    wall-clock hang detector      [default: 5000]\n    --list             show the parametric and scenarios this suite defines, then exit\n";

/// How to call a suite's command, `name`.
pub fn usage(name: &str) -> (r: String)
    ensures
        r@ == name@ + USAGE_HEAD@ + name@ + USAGE_TAIL@,
{
    let mut r = text(name);
    push_str(&mut r, USAGE_HEAD);
    push_str(&mut r, name);
    push_str(&mut r, USAGE_TAIL);
    r
}

// ------------------------------------------------------------ what is shown

/// `s` padded with spaces to `w` characters, as `{:<w}` writes it.
pub open spec fn spec_pad(s: Seq<char>, w: nat) -> Seq<char> {
    if s.len() >= w {
        s
    } else {
        s + Seq::new((w - s.len()) as nat, |i: int| ' ')
    }
}

fn push_padded(out: &mut String, s: &str, w: usize)
    ensures
        final(out)@ == old(out)@ + spec_pad(s@, w as nat),
{
    push_str(out, s);
    let n = s.unicode_len();
    let mut k: usize = n;
    let ghost base = old(out)@ + s@;
    while k < w
        invariant
            n == s@.len(),
            n <= k <= w || (k == n && n >= w),
            out@ == base + Seq::new((k - n) as nat, |i: int| ' '),
        decreases w - k,
    {
        push_char(out, ' ');
        k = k + 1;
        assert(out@ =~= base + Seq::new((k - n) as nat, |i: int| ' '));
    }
    assert(out@ =~= old(out)@ + spec_pad(s@, w as nat));
}

/// How many bytes `s` takes in UTF-8: what `str::len` counts.
pub open spec fn byte_len(s: Seq<char>) -> nat {
    encode_utf8(s).len()
}

/// The number of bytes of `s` in UTF-8.
fn utf8_len(s: &str) -> (n: usize)
    ensures
        n == byte_len(s@),
{
    s.as_bytes().len()
}

/// The longest name among the parametric scenarios, counted in bytes, at least `floor`.
pub open spec fn widest_label(ps: Seq<Parametric>, floor: nat) -> nat
    decreases ps.len(),
{
    if ps.len() == 0 {
        floor
    } else {
        let rest = widest_label(ps.drop_last(), floor);
        let l = byte_len(spec_stem(ps.last().space@));
        if l > rest { l } else { rest }
    }
}

/// The longest name among the written scenarios, counted in bytes, at least `floor`.
pub open spec fn widest_stem(ws: Seq<Written>, floor: nat) -> nat
    decreases ws.len(),
{
    if ws.len() == 0 {
        floor
    } else {
        let rest = widest_stem(ws.drop_last(), floor);
        let l = byte_len(spec_stem(ws.last().path@));
        if l > rest { l } else { rest }
    }
}

/// The width the names of a suite's scenarios are padded to: the longest one in bytes, and at
/// least 8, so a suite with one short name still reads as a column.
pub open spec fn spec_list_width(ps: Seq<Parametric>, ws: Seq<Written>) -> nat {
    widest_stem(ws, widest_label(ps, 8))
}

pub open spec fn param_line(p: Parametric, w: nat) -> Seq<char> {
    "  "@ + spec_pad(spec_stem(p.space@), w) + " "@ + spec_decimal(p.seeds as nat) + " seeds from "@ + p.space@
}

pub open spec fn written_line(x: Written, w: nat) -> Seq<char> {
    "  "@ + spec_pad(spec_stem(x.path@), w) + " "@ + x.why@
}

/// What `--list` shows: each parametric scenario with its seeds and space, each written one with
/// why it exists, the names in one column.
pub open spec fn spec_list_lines(ps: Seq<Parametric>, ws: Seq<Written>) -> Seq<Seq<char>> {
    let w = spec_list_width(ps, ws);
    seq!["parametric:"@] + Seq::new(ps.len(), |i: int| param_line(ps[i], w)) + seq!["written:"@]
        + Seq::new(ws.len(), |i: int| written_line(ws[i], w))
}

/// The lines `--list` prints.
pub fn list_lines(parametric: &[Parametric], written: &[Written]) -> (r: Vec<String>)
    ensures
        strings_view(r@) == spec_list_lines(parametric@, written@),
{
    let ghost ps = parametric@;
    let ghost ws = written@;
    let mut w: usize = 8;
    let mut i: usize = 0;
    while i < parametric.len()
        invariant
            ps == parametric@,
            i <= ps.len(),
            w == widest_label(ps.subrange(0, i as int), 8),
        decreases ps.len() - i,
    {
        assert(ps.subrange(0, i + 1).drop_last() =~= ps.subrange(0, i as int));
        let l = label(&parametric[i]);
        let n = utf8_len(l.as_str());
        if n > w {
            w = n;
        }
        i = i + 1;
    }
    assert(ps.subrange(0, ps.len() as int) =~= ps);
    let mut j: usize = 0;
    while j < written.len()
        invariant
            ws == written@,
            j <= ws.len(),
            w == widest_stem(ws.subrange(0, j as int), widest_label(ps, 8)),
        decreases ws.len() - j,
    {
        assert(ws.subrange(0, j + 1).drop_last() =~= ws.subrange(0, j as int));
        let l = stem(written[j].path);
        let n = utf8_len(l.as_str());
        if n > w {
            w = n;
        }
        j = j + 1;
    }
    assert(ws.subrange(0, ws.len() as int) =~= ws);
    let ghost wv = w as nat;
    assert(wv == spec_list_width(ps, ws));
    let mut r: Vec<String> = Vec::new();
    r.push(text("parametric:"));
    let mut i: usize = 0;
    while i < parametric.len()
        invariant
            ps == parametric@,
            i <= ps.len(),
            wv == w,
            strings_view(r@) == seq!["parametric:"@] + Seq::new(i as nat, |k: int| param_line(ps[k], wv)),
        decreases ps.len() - i,
    {
        let p = &parametric[i];
        let mut line = text("  ");
        let l = label(p);
        push_padded(&mut line, l.as_str(), w);
        push_str(&mut line, " ");
        push_decimal(&mut line, p.seeds);
        push_str(&mut line, " seeds from ");
        push_str(&mut line, p.space);
        let ghost before = r@;
        r.push(line);
        assert(strings_view(r@) =~= seq!["parametric:"@] + Seq::new((i + 1) as nat, |k: int| param_line(ps[k], wv))) by {
            assert(strings_view(r@) =~= strings_view(before).push(r@.last()@));
        }
        i = i + 1;
    }
    let ghost head = strings_view(r@);
    r.push(text("written:"));
    assert(strings_view(r@) =~= head.push("written:"@));
    let mut j: usize = 0;
    while j < written.len()
        invariant
            ws == written@,
            j <= ws.len(),
            wv == w,
            strings_view(r@) == head.push("written:"@) + Seq::new(j as nat, |k: int| written_line(ws[k], wv)),
        decreases ws.len() - j,
    {
        let x = &written[j];
        let mut line = text("  ");
        let l = stem(x.path);
        push_padded(&mut line, l.as_str(), w);
        push_str(&mut line, " ");
        push_str(&mut line, x.why);
        let ghost before = r@;
        r.push(line);
        assert(strings_view(r@) =~= head.push("written:"@) + Seq::new((j + 1) as nat, |k: int| written_line(ws[k], wv))) by {
            assert(strings_view(r@) =~= strings_view(before).push(r@.last()@));
        }
        j = j + 1;
    }
    assert(strings_view(r@) =~= spec_list_lines(ps, ws));
    r
}

/// Whether `pat` selects something: the name of a parametric scenario or of a written one holds it.
pub open spec fn spec_selects(pat: Seq<char>, ps: Seq<Parametric>, ws: Seq<Written>) -> bool {
    (exists|i: int| 0 <= i < ps.len() && spec_find_sub(spec_stem(#[trigger] ps[i].space@), pat, 0) >= 0)
        || (exists|i: int| 0 <= i < ws.len() && spec_find_sub(spec_stem(#[trigger] ws[i].path@), pat, 0) >= 0)
}

/// Whether `--only` lets the scenario named `name` run: always without it, else when its pattern
/// occurs in the name.
pub open spec fn spec_admits(only: Option<Seq<char>>, name: Seq<char>) -> bool {
    match only {
        Some(pat) => spec_find_sub(name, pat, 0) >= 0,
        None => true,
    }
}

pub fn admits(o: &Opts, name: &str) -> (r: bool)
    ensures
        r == spec_admits(o@.only, name@),
{
    match &o.only {
        Some(pat) => contains(name, pat.as_str()),
        None => true,
    }
}

/// Whether a written scenario runs: never when seeds were asked for, since it has none; otherwise
/// when `--only` admits its name.
pub fn runs_written(o: &Opts, w: &Written) -> (r: bool)
    ensures
        r == (o@.range is None && spec_admits(o@.only, spec_stem(w.path@))),
{
    if o.range.is_some() {
        return false;
    }
    let name = stem(w.path);
    admits(o, name.as_str())
}

/// Whether `--only pat` selects anything this suite defines.
pub fn selects_anything(pat: &str, parametric: &[Parametric], written: &[Written]) -> (r: bool)
    ensures
        r == spec_selects(pat@, parametric@, written@),
{
    let mut i: usize = 0;
    while i < parametric.len()
        invariant
            i <= parametric@.len(),
            forall|k: int| 0 <= k < i ==> spec_find_sub(spec_stem(#[trigger] parametric@[k].space@), pat@, 0) < 0,
        decreases parametric@.len() - i,
    {
        let l = label(&parametric[i]);
        if contains(l.as_str(), pat) {
            return true;
        }
        i = i + 1;
    }
    let mut j: usize = 0;
    while j < written.len()
        invariant
            j <= written@.len(),
            forall|k: int| 0 <= k < parametric@.len() ==> spec_find_sub(spec_stem(#[trigger] parametric@[k].space@), pat@, 0) < 0,
            forall|k: int| 0 <= k < j ==> spec_find_sub(spec_stem(#[trigger] written@[k].path@), pat@, 0) < 0,
        decreases written@.len() - j,
    {
        let l = stem(written[j].path);
        if contains(l.as_str(), pat) {
            return true;
        }
        j = j + 1;
    }
    false
}

/// Why the suite will not start on these options, if it will not: a `--only` that selects nothing
/// is a mistake, not an empty run, since doing nothing quietly looks like success.
pub fn selection_error(o: &Opts, parametric: &[Parametric], written: &[Written]) -> (r: Option<String>)
    ensures
        r matches Some(e) ==> o@.only matches Some(p) && !spec_selects(p, parametric@, written@)
            && e@ == "--only "@ + p + " matches nothing. `--list` shows what this suite defines."@,
        r is None ==> (o@.only matches Some(p) ==> spec_selects(p, parametric@, written@)),
{
    match &o.only {
        Some(pat) => {
            if selects_anything(pat.as_str(), parametric, written) {
                None
            } else {
                let mut e = concat("--only ", pat.as_str());
                push_str(&mut e, " matches nothing. `--list` shows what this suite defines.");
                Some(e)
            }
        },
        None => None,
    }
}

/// The seeds a parametric scenario runs: a range asked for on the command line, else its own
/// count from 1, with `--seeds` overriding the count.
pub open spec fn spec_seed_bounds(o: OptsV, own: u64) -> (u64, u64) {
    match o.range {
        Some(r) => r,
        None => (1u64, match o.seeds { Some(n) => n, None => own }),
    }
}

pub fn seed_bounds(o: &Opts, own: u64) -> (r: (u64, u64))
    ensures
        r == spec_seed_bounds(o@, own),
{
    match o.range {
        Some(r) => r,
        None => (1, match o.seeds { Some(n) => n, None => own }),
    }
}

/// How many seeds `lo..=hi` holds.
pub open spec fn spec_seed_count(lo: u64, hi: u64) -> int {
    if lo > hi { 0 } else { hi - lo + 1 }
}

/// The tally of a sweep over seeds.
pub struct Sweep {
    pub pass: u64,
    /// `(seed, why)`, in the order the seeds ran.
    pub fails: Vec<(u64, String)>,
}

impl Sweep {
    pub fn new() -> (s: Sweep)
        ensures
            s.pass == 0,
            s.fails@.len() == 0,
    {
        Sweep { pass: 0, fails: Vec::new() }
    }

    pub fn passed(&mut self)
        requires
            old(self).pass < u64::MAX,
        ensures
            final(self).pass == old(self).pass + 1,
            final(self).fails@ == old(self).fails@,
    {
        self.pass = self.pass + 1;
    }

    pub fn failed(&mut self, seed: u64, why: String)
        ensures
            final(self).pass == old(self).pass,
            final(self).fails@ == old(self).fails@.push((seed, why)),
    {
        self.fails.push((seed, why));
    }

    /// `{name}: {pass}/{n} seeds passed`, and the range when one was asked for.
    pub fn summary(&self, name: &str, lo: u64, hi: u64, ranged: bool) -> (r: String)
        requires
            spec_seed_count(lo, hi) <= u64::MAX,
        ensures
            r@ == name@ + ": "@ + spec_decimal(self.pass as nat) + "/"@ + spec_decimal(spec_seed_count(lo, hi) as nat)
                + " seeds passed"@
                + (if ranged { " (seeds "@ + spec_decimal(lo as nat) + ".."@ + spec_decimal(hi as nat) + ")"@ } else { Seq::empty() }),
    {
        let n: u64 = if lo > hi { 0 } else { hi - lo + 1 };
        let mut r = concat(name, ": ");
        push_decimal(&mut r, self.pass);
        push_str(&mut r, "/");
        push_decimal(&mut r, n);
        push_str(&mut r, " seeds passed");
        let ghost mid = r@;
        if ranged {
            push_str(&mut r, " (seeds ");
            push_decimal(&mut r, lo);
            push_str(&mut r, "..");
            push_decimal(&mut r, hi);
            push_str(&mut r, ")");
            assert(r@ =~= mid + (" (seeds "@ + spec_decimal(lo as nat) + ".."@ + spec_decimal(hi as nat) + ")"@));
        } else {
            assert(r@ =~= mid + Seq::<char>::empty());
        }
        r
    }

    /// How many failures are listed in full; the rest are counted.
    pub fn listed(&self) -> (n: usize)
        ensures
            n == if self.fails@.len() < 5 { self.fails@.len() } else { 5 },
    {
        if self.fails.len() < 5 { self.fails.len() } else { 5 }
    }

    /// `  ... and {k} more`, when more failures than are listed.
    pub fn more(&self) -> (r: Option<String>)
        ensures
            self.fails@.len() > 5 <==> r is Some,
            r matches Some(s) ==> s@ == "  ... and "@ + spec_decimal((self.fails@.len() - 5) as nat) + " more"@,
    {
        if self.fails.len() > 5 {
            let mut s = text("  ... and ");
            push_decimal(&mut s, (self.fails.len() - 5) as u64);
            push_str(&mut s, " more");
            Some(s)
        } else {
            None
        }
    }
}

/// `  seed {seed}: {why}`.
pub fn fail_line(seed: u64, why: &str) -> (r: String)
    ensures
        r@ == "  seed "@ + spec_decimal(seed as nat) + ": "@ + why@,
{
    let mut r = text("  seed ");
    push_decimal(&mut r, seed);
    push_str(&mut r, ": ");
    push_str(&mut r, why);
    r
}

/// Why a drawn seed was not run: it schedules `late` events at or past its time limit.
pub fn late_reason(late: usize) -> (r: String)
    ensures
        r@ == spec_decimal(late as nat) + " event(s) scheduled past the time limit; they cannot happen"@,
{
    let mut r = String::new();
    push_decimal(&mut r, late as u64);
    push_str(&mut r, " event(s) scheduled past the time limit; they cannot happen");
    assert(r@ =~= spec_decimal(late as nat) + " event(s) scheduled past the time limit; they cannot happen"@);
    r
}

/// The selector that runs one seed of one parametric scenario again: a seed names a run only
/// relative to the space it was drawn from.
pub fn seed_selector(seed: u64, name: &str) -> (r: String)
    ensures
        r@ == "--seed "@ + spec_decimal(seed as nat) + " --only "@ + name@,
{
    let mut r = text("--seed ");
    push_decimal(&mut r, seed);
    push_str(&mut r, " --only ");
    push_str(&mut r, name);
    r
}

/// `s` joined by `sep`.
pub open spec fn spec_join(s: Seq<Seq<char>>, sep: Seq<char>) -> Seq<char>
    decreases s.len(),
{
    if s.len() == 0 {
        Seq::empty()
    } else if s.len() == 1 {
        s[0]
    } else {
        spec_join(s.drop_last(), sep) + sep + s.last()
    }
}

/// The strings of `s` joined by `sep`.
pub fn join(s: &Vec<String>, sep: &str) -> (r: String)
    ensures
        r@ == spec_join(strings_view(s@), sep@),
{
    let ghost v = strings_view(s@);
    let mut r = String::new();
    let mut i: usize = 0;
    while i < s.len()
        invariant
            v == strings_view(s@),
            i <= s@.len(),
            r@ == spec_join(v.subrange(0, i as int), sep@),
        decreases s@.len() - i,
    {
        assert(v.subrange(0, i + 1).drop_last() =~= v.subrange(0, i as int));
        if i > 0 {
            push_str(&mut r, sep);
        }
        push_str(&mut r, s[i].as_str());
        proof {
            if i == 0 {
                assert(r@ =~= v.subrange(0, 1)[0]);
            }
        }
        i = i + 1;
    }
    assert(v.subrange(0, s@.len() as int) =~= v);
    r
}

/// The command that runs one case again, ready to paste.
pub fn replay_line(name: &str, selector: &str, program: &Vec<String>) -> (r: String)
    ensures
        r@ == "    replay:  "@ + name@ + " "@ + selector@ + " --bin "@ + spec_join(strings_view(program@), " "@),
{
    let mut r = text("    replay:  ");
    push_str(&mut r, name);
    push_str(&mut r, " ");
    push_str(&mut r, selector);
    push_str(&mut r, " --bin ");
    let p = join(program, " ");
    push_str(&mut r, p.as_str());
    r
}

/// Whether a written scenario failed exactly the checks it was expected to fail, in order.
pub fn as_expected(got: &Vec<&'static str>, expect: &[&'static str]) -> (r: bool)
    ensures
        r == (got@.len() == expect@.len() && forall|i: int| 0 <= i < got@.len() ==> got@[i]@ == expect@[i]@),
{
    if got.len() != expect.len() {
        return false;
    }
    let mut i: usize = 0;
    while i < got.len()
        invariant
            got@.len() == expect@.len(),
            i <= got@.len(),
            forall|k: int| 0 <= k < i ==> got@[k]@ == expect@[k]@,
        decreases got@.len() - i,
    {
        if !same_text(got[i], expect[i]) {
            return false;
        }
        i = i + 1;
    }
    true
}

// ----------------------------------------------------------------- replays

/// The line on which two journals first differ, counting from 1; past the shorter one when one
/// is a prefix of the other.
pub open spec fn spec_first_difference(a: Seq<Seq<char>>, b: Seq<Seq<char>>, from: int) -> int
    decreases a.len() - from,
{
    if from < 0 || from >= a.len() || from >= b.len() {
        from + 1
    } else if a[from] != b[from] {
        from + 1
    } else {
        spec_first_difference(a, b, from + 1)
    }
}

/// The line on which the texts `a` and `b` first differ, counting from 1.
pub fn first_difference(a: &str, b: &str) -> (r: usize)
    requires
        spec_lines(a@).len() < usize::MAX,
    ensures
        r == spec_first_difference(spec_lines(a@), spec_lines(b@), 0),
{
    let la = lines_of(a);
    let lb = lines_of(b);
    let ghost va = spec_lines(a@);
    let ghost vb = spec_lines(b@);
    let mut i: usize = 0;
    while i < la.len() && i < lb.len() && same_text(la[i].as_str(), lb[i].as_str())
        invariant
            strings_view(la@) == va,
            strings_view(lb@) == vb,
            i <= la@.len(),
            i <= lb@.len(),
            spec_first_difference(va, vb, 0) == spec_first_difference(va, vb, i as int),
        decreases la@.len() - i,
    {
        assert(va[i as int] == la@[i as int]@);
        assert(vb[i as int] == lb@[i as int]@);
        i = i + 1;
    }
    proof {
        if i < la@.len() && i < lb@.len() {
            assert(va[i as int] == la@[i as int]@);
            assert(vb[i as int] == lb@[i as int]@);
        }
    }
    i + 1
}

/// The case a determinism check replays.
#[derive(Debug, Clone, Copy, PartialEq, Eq, Structural)]
pub enum ReplayCase {
    /// The `index`-th parametric scenario, drawn at `seed`.
    Drawn { index: usize, seed: u64 },
    /// The `index`-th written scenario.
    Written { index: usize },
}

/// The first parametric scenario drawn at seed 1; with none, the first written one; with
/// neither, nothing to replay.
pub open spec fn spec_replay_case(parametric: nat, written: nat) -> Option<ReplayCase> {
    if parametric > 0 {
        Some(ReplayCase::Drawn { index: 0, seed: 1 })
    } else if written > 0 {
        Some(ReplayCase::Written { index: 0 })
    } else {
        None
    }
}

/// Which case to replay. A drawn scenario rather than a written one: a written scenario is
/// usually written because it is degenerate, and replaying one where every node dies at once
/// compares two empty journals, which pass without exercising anything.
pub fn replay_case(parametric: &[Parametric], written: &[Written]) -> (r: Option<ReplayCase>)
    ensures
        r == spec_replay_case(parametric@.len(), written@.len()),
{
    if parametric.len() > 0 {
        Some(ReplayCase::Drawn { index: 0, seed: 1 })
    } else if written.len() > 0 {
        Some(ReplayCase::Written { index: 0 })
    } else {
        None
    }
}

/// What a replay of one case says: the same journal twice, or the line where the two differ.
///
/// A node that reads the system clock, spawns a thread or draws unseeded randomness gives a
/// different run every time, and every verdict on it would describe a run nobody can reproduce.
pub open spec fn spec_replay_verdict(what: Seq<char>, a: Seq<char>, b: Seq<char>, path_a: Seq<char>, path_b: Seq<char>) -> Result<Seq<char>, Seq<char>> {
    if a == b {
        Ok(what)
    } else {
        Err("NOT DETERMINISTIC: replaying "@ + what + " does not give the same journal twice.\n  First difference on line "@
            + spec_decimal(spec_first_difference(spec_lines(a), spec_lines(b), 0) as nat)
            + ". A system clock, a thread, or unseeded randomness.\n  compare "@ + path_a + "\n      and "@ + path_b)
    }
}

pub fn replay_verdict(what: &str, a: &str, b: &str, path_a: &str, path_b: &str) -> (r: Result<String, String>)
    requires
        spec_lines(a@).len() < usize::MAX,
    ensures
        match r {
            Ok(s) => spec_replay_verdict(what@, a@, b@, path_a@, path_b@) == Ok::<Seq<char>, Seq<char>>(s@),
            Err(e) => spec_replay_verdict(what@, a@, b@, path_a@, path_b@) == Err::<Seq<char>, Seq<char>>(e@),
        },
{
    if same_text(a, b) {
        return Ok(text(what));
    }
    let line = first_difference(a, b);
    let mut e = concat("NOT DETERMINISTIC: replaying ", what);
    push_str(&mut e, " does not give the same journal twice.\n  First difference on line ");
    push_decimal(&mut e, line as u64);
    push_str(&mut e, ". A system clock, a thread, or unseeded randomness.\n  compare ");
    push_str(&mut e, path_a);
    push_str(&mut e, "\n      and ");
    push_str(&mut e, path_b);
    Err(e)
}

} // verus!
