//! Drawing a scenario from a seed and a space.
//!
//! The draw order is the depth-first walk of the event tree, and within an event: the subject, its
//! placement, the body's `$rand`s, and last the children. It is fixed here and never by the order
//! of keys in a file.
//!
//! A root event is placed at a fraction of the time limit, and a fraction is a floating-point
//! number, which this crate does not compute with. So the draw comes in two halves: [`draw_plan`]
//! makes every decision and every integer draw, and records for each placement the quantised
//! point it drew; the caller turns those placements into instants; [`resolve`] dates every
//! event, sorts the faults and the stimuli, and names the processes.

use vstd::prelude::*;
use crate::json::{Json, JsonV, same_json};
use crate::rng::{Rng, spec_advance, spec_mix};
use crate::scenario::{Bound, Effect, Event, Fault, FracSpan, Scenario, Space, Span, Stimulus, Subject, MAX_F, span_u64_ok, d_pre, d_post, spec_draw_u64, spec_draw_bool, spec_draw_bound, spec_draw_frac};
use crate::render::{render, template_ok, template_fits, spec_render, lemma_render_same_json};
use crate::text::{push_decimal, push_char, spec_decimal, spec_digit};

verus! {

/// When a drawn event happens: the placement of the root it descends from, plus the delays on
/// the path down to it.
#[derive(Debug, Clone, Copy)]
pub struct Time {
    pub root: usize,
    pub offset: u64,
}

/// A root's placement: the fraction it was placed by, absent when it named none, and the point
/// of that fraction the draw picked, absent when the fraction was fixed.
#[derive(Debug, Clone, Copy)]
pub struct Placement {
    pub frac: Option<FracSpan>,
    pub point: Option<u64>,
}

#[derive(Debug)]
pub enum PlannedFault {
    Crash { at: Time, node: usize },
    Pause { at: Time, node: usize, duration: u64 },
    Partition { at: Time, duration: u64, side: Vec<usize> },
}

#[derive(Debug)]
pub struct PlannedStimulus {
    pub at: Time,
    pub node: usize,
    pub body: Json,
}

/// Everything a draw decided, with the placements of its roots still to be turned into instants.
#[derive(Debug)]
pub struct Plan {
    pub f: u64,
    pub nodes: usize,
    pub time_limit: u64,
    pub gst: Placement,
    pub delay_pre: Vec<Vec<u64>>,
    pub delay_post: Vec<Vec<u64>>,
    pub jitter_pct: u64,
    pub emit_gap: u64,
    pub fifo: bool,
    /// One placement per root instance, in the order they were drawn.
    pub roots: Vec<Placement>,
    /// In the order they were drawn.
    pub faults: Vec<PlannedFault>,
    pub stimuli: Vec<PlannedStimulus>,
}

// ----------------------------------------------------------- what is drawable

pub open spec fn bound_span_ok(s: Span<Bound>) -> bool {
    match s {
        Span::Range(lo, hi) => match (lo, hi) {
            (Bound::Fixed(l), Bound::Fixed(h)) => h <= l || h < u64::MAX,
            (Bound::F, Bound::Fixed(h)) => h < u64::MAX,
            (_, Bound::F) => true,
        },
        Span::Pinned(_) => true,
    }
}

pub open spec fn subject_ok(s: Subject) -> bool {
    match s {
        Subject::All => true,
        Subject::Distinct(k) => bound_span_ok(k),
        Subject::Any(k) => bound_span_ok(k),
    }
}

pub open spec fn effect_ok(e: Effect) -> bool {
    match e {
        Effect::Stimulus(body) => template_ok(body@),
        Effect::Crash => true,
        Effect::Pause { duration } => span_u64_ok(duration),
        Effect::Partition { duration } => span_u64_ok(duration),
    }
}

/// Every span of an event and of its subtree can be drawn without overflowing.
pub open spec fn event_ok(e: Event) -> bool
    decreases e,
{
    &&& (e.nodes matches Some(s) ==> subject_ok(s))
    &&& (e.count matches Some(c) ==> bound_span_ok(c))
    &&& (e.delay matches Some(d) ==> span_u64_ok(d))
    &&& effect_ok(e.effect)
    &&& forall|k: int| 0 <= k < e.children@.len() ==> event_ok(#[trigger] e.children@[k])
}

/// Every span of a space can be drawn without overflowing its inclusive upper end. A space that
/// asks for `u64::MAX` as an upper end cannot be drawn at all.
pub open spec fn space_ok(sp: &Space) -> bool {
    &&& span_u64_ok(sp.f)
    &&& span_u64_ok(sp.time_limit)
    &&& span_u64_ok(sp.link_delay_pre)
    &&& span_u64_ok(sp.link_delay_post)
    &&& span_u64_ok(sp.jitter_pct)
    &&& span_u64_ok(sp.emit_gap)
    &&& forall|k: int| 0 <= k < sp.events@.len() ==> event_ok(#[trigger] sp.events@[k])
}

fn span_u64_fits(s: Span<u64>) -> (r: bool)
    ensures
        r == span_u64_ok(s),
{
    match s {
        Span::Range(lo, hi) => hi <= lo || hi < u64::MAX,
        Span::Pinned(_) => true,
    }
}

fn bound_span_fits(s: Span<Bound>) -> (r: bool)
    ensures
        r == bound_span_ok(s),
{
    match s {
        Span::Range(Bound::Fixed(l), Bound::Fixed(h)) => h <= l || h < u64::MAX,
        Span::Range(Bound::F, Bound::Fixed(h)) => h < u64::MAX,
        _ => true,
    }
}

fn event_fits(e: &Event) -> (r: bool)
    ensures
        r == event_ok(*e),
    decreases e,
{
    let own = match e.nodes {
        Some(Subject::Distinct(k)) => bound_span_fits(k),
        Some(Subject::Any(k)) => bound_span_fits(k),
        _ => true,
    } && match e.count {
        Some(c) => bound_span_fits(c),
        None => true,
    } && match e.delay {
        Some(d) => span_u64_fits(d),
        None => true,
    } && match &e.effect {
        Effect::Stimulus(body) => template_fits(body),
        Effect::Crash => true,
        Effect::Pause { duration } => span_u64_fits(*duration),
        Effect::Partition { duration } => span_u64_fits(*duration),
    };
    if !own {
        return false;
    }
    let mut k: usize = 0;
    while k < e.children.len()
        invariant
            k <= e.children@.len(),
            forall|j: int| 0 <= j < k ==> event_ok(#[trigger] e.children@[j]),
        decreases e.children@.len() - k,
    {
        proof {
            assert(decreases_to!(*e => e.children@[k as int]));
        }
        if !event_fits(&e.children[k]) {
            return false;
        }
        k = k + 1;
    }
    true
}

/// Whether a space can be drawn: no span wider than a point asks for `u64::MAX` as its inclusive
/// upper end.
pub fn space_drawable(sp: &Space) -> (r: bool)
    ensures
        r == space_ok(sp),
{
    if !(span_u64_fits(sp.f) && span_u64_fits(sp.time_limit) && span_u64_fits(sp.link_delay_pre)
        && span_u64_fits(sp.link_delay_post) && span_u64_fits(sp.jitter_pct) && span_u64_fits(sp.emit_gap)) {
        return false;
    }
    let mut k: usize = 0;
    while k < sp.events.len()
        invariant
            k <= sp.events@.len(),
            forall|j: int| 0 <= j < k ==> event_ok(#[trigger] sp.events@[j]),
        decreases sp.events@.len() - k,
    {
        if !event_fits(&sp.events[k]) {
            return false;
        }
        k = k + 1;
    }
    true
}

// ------------------------------------------------------------ what it yields

/// A square matrix of link delays: zero on the diagonal, at least one everywhere else.
pub open spec fn links_ok(m: Seq<Vec<u64>>, n: nat) -> bool {
    &&& m.len() == n
    &&& forall|i: int| 0 <= i < n ==> (#[trigger] m[i])@.len() == n
    &&& forall|i: int, j: int| 0 <= i < n && 0 <= j < n ==> (#[trigger] m[i]@[j] == 0) == (i == j)
}

pub open spec fn distinct_below(s: Seq<usize>, n: nat) -> bool {
    &&& forall|k: int| 0 <= k < s.len() ==> (#[trigger] s[k]) < n
    &&& forall|a: int, b: int| 0 <= a < b < s.len() ==> s[a] != s[b]
}

pub open spec fn time_ok(t: Time, roots: nat) -> bool {
    t.root < roots
}

pub open spec fn planned_fault_ok(pf: PlannedFault, n: nat, roots: nat) -> bool {
    match pf {
        PlannedFault::Crash { at, node } => time_ok(at, roots) && node < n,
        PlannedFault::Pause { at, node, duration } => time_ok(at, roots) && node < n && duration >= 1,
        PlannedFault::Partition { at, duration, side } => {
            &&& time_ok(at, roots)
            &&& duration >= 1
            &&& distinct_below(side@, n)
            &&& 0 < side@.len() < n
        },
    }
}

/// No process crashes twice.
pub open spec fn crashes_distinct(fs: Seq<PlannedFault>) -> bool {
    forall|a: int, b: int|
        0 <= a < b < fs.len() && (#[trigger] fs[a]) is Crash && (#[trigger] fs[b]) is Crash
            ==> fs[a]->Crash_node != fs[b]->Crash_node
}

pub open spec fn planned_faults_ok(fs: Seq<PlannedFault>, n: nat, roots: nat) -> bool {
    &&& forall|k: int| 0 <= k < fs.len() ==> planned_fault_ok(#[trigger] fs[k], n, roots)
    &&& crashes_distinct(fs)
}

pub open spec fn planned_stimuli_ok(ss: Seq<PlannedStimulus>, n: nat, roots: nat) -> bool {
    forall|k: int| 0 <= k < ss.len() ==> time_ok((#[trigger] ss[k]).at, roots) && ss[k].node < n
}

impl Plan {
    /// What every drawn plan satisfies.
    pub open spec fn wf(&self) -> bool {
        &&& self.f <= MAX_F
        &&& self.nodes == 3 * self.f + 1
        &&& self.time_limit >= 2
        &&& links_ok(self.delay_pre@, self.nodes as nat)
        &&& links_ok(self.delay_post@, self.nodes as nat)
        &&& planned_faults_ok(self.faults@, self.nodes as nat, self.roots@.len())
        &&& planned_stimuli_ok(self.stimuli@, self.nodes as nat, self.roots@.len())
    }
}

// ------------------------------------------------------------ what it draws

/// A planned fault as a value.
pub enum FaultPlan {
    Crash { at: Time, node: usize },
    Pause { at: Time, node: usize, duration: u64 },
    Partition { at: Time, duration: u64, side: Seq<usize> },
}

/// A planned stimulus as a value.
pub struct StimulusPlan {
    pub at: Time,
    pub node: usize,
    pub body: JsonV,
}

impl View for PlannedFault {
    type V = FaultPlan;

    open spec fn view(&self) -> FaultPlan {
        match *self {
            PlannedFault::Crash { at, node } => FaultPlan::Crash { at, node },
            PlannedFault::Pause { at, node, duration } => FaultPlan::Pause { at, node, duration },
            PlannedFault::Partition { at, duration, side } => FaultPlan::Partition { at, duration, side: side@ },
        }
    }
}

impl View for PlannedStimulus {
    type V = StimulusPlan;

    open spec fn view(&self) -> StimulusPlan {
        StimulusPlan { at: self.at, node: self.node, body: self.body@ }
    }
}

/// A plan as a value.
pub struct PlanV {
    pub f: u64,
    pub nodes: usize,
    pub time_limit: u64,
    pub gst: Placement,
    pub delay_pre: Seq<Seq<u64>>,
    pub delay_post: Seq<Seq<u64>>,
    pub jitter_pct: u64,
    pub emit_gap: u64,
    pub fifo: bool,
    pub roots: Seq<Placement>,
    pub faults: Seq<FaultPlan>,
    pub stimuli: Seq<StimulusPlan>,
}

pub open spec fn rows_view(m: Seq<Vec<u64>>) -> Seq<Seq<u64>> {
    m.map_values(|row: Vec<u64>| row@)
}

pub open spec fn faults_view(fs: Seq<PlannedFault>) -> Seq<FaultPlan> {
    fs.map_values(|pf: PlannedFault| pf@)
}

pub open spec fn stimuli_view(ss: Seq<PlannedStimulus>) -> Seq<StimulusPlan> {
    ss.map_values(|ps: PlannedStimulus| ps@)
}

impl View for Plan {
    type V = PlanV;

    open spec fn view(&self) -> PlanV {
        PlanV {
            f: self.f,
            nodes: self.nodes,
            time_limit: self.time_limit,
            gst: self.gst,
            delay_pre: rows_view(self.delay_pre@),
            delay_post: rows_view(self.delay_post@),
            jitter_pct: self.jitter_pct,
            emit_gap: self.emit_gap,
            fifo: self.fifo,
            roots: self.roots@,
            faults: faults_view(self.faults@),
            stimuli: stimuli_view(self.stimuli@),
        }
    }
}

/// Where a walk of the event tree stands: the generator's state and what was drawn so far.
pub struct Drawing {
    pub state: u64,
    pub roots: Seq<Placement>,
    pub faults: Seq<FaultPlan>,
    pub stimuli: Seq<StimulusPlan>,
}

pub open spec fn moved(d: Drawing, state: u64) -> Drawing {
    Drawing { state, roots: d.roots, faults: d.faults, stimuli: d.stimuli }
}

/// `count` processes drawn with replacement from a group of `n`.
pub open spec fn spec_any(count: nat, n: u64, state: u64) -> (Seq<usize>, u64)
    decreases count,
{
    if count == 0 {
        (seq![], state)
    } else {
        let (prefix, s) = spec_any((count - 1) as nat, n, state);
        let next = spec_advance(s);
        (prefix.push((spec_mix(next) % n) as usize), next)
    }
}

/// The processes below `i` that are not taken, in order.
pub open spec fn spec_free(i: nat, taken: Seq<usize>) -> Seq<usize>
    decreases i,
{
    if i == 0 {
        seq![]
    } else {
        let prefix = spec_free((i - 1) as nat, taken);
        if taken.contains((i - 1) as usize) { prefix } else { prefix.push((i - 1) as usize) }
    }
}

/// The first `count` rounds of a Fisher-Yates shuffle of `pool`: round `i` swaps place `i` with a
/// place drawn from `i` to the end.
pub open spec fn spec_shuffle(pool: Seq<usize>, count: nat, state: u64) -> (Seq<usize>, u64)
    decreases count,
{
    if count == 0 {
        (pool, state)
    } else {
        let (p, s) = spec_shuffle(pool, (count - 1) as nat, state);
        let i = count - 1;
        let next = spec_advance(s);
        let j = i + spec_mix(next) % ((pool.len() - i) as u64);
        (p.update(i, p[j]).update(j, p[i]), next)
    }
}

/// The processes a subject names, and the state after.
pub open spec fn spec_pick(sub: Subject, f: u64, n: usize, taken: Seq<usize>, state: u64) -> (Seq<usize>, u64) {
    match sub {
        Subject::All => (Seq::new(n as nat, |k: int| k as usize), state),
        Subject::Any(k) => {
            let (want, s1) = spec_draw_bound(k, f, state);
            spec_any(want as nat, n as u64, s1)
        },
        Subject::Distinct(k) => {
            let (want, s1) = spec_draw_bound(k, f, state);
            let pool = spec_free(n as nat, taken);
            let kept: nat = if want < pool.len() { want as nat } else { pool.len() };
            let (p, s2) = spec_shuffle(pool, kept, s1);
            (p.take(kept as int), s2)
        },
    }
}

/// The processes below `n` whose bit is set in `mask`, in order.
pub open spec fn spec_bits(mask: u64, n: nat) -> Seq<usize>
    decreases n,
{
    if n == 0 {
        seq![]
    } else {
        let prefix = spec_bits(mask, (n - 1) as nat);
        if (mask as nat / spec_pow2((n - 1) as nat)) % 2 == 1 { prefix.push((n - 1) as usize) } else { prefix }
    }
}

/// Process `w` already has a crash planned.
pub open spec fn crashed(fs: Seq<FaultPlan>, w: usize) -> bool {
    exists|k: int| 0 <= k < fs.len() && (#[trigger] fs[k]) is Crash && fs[k]->Crash_node == w
}

/// What one instance of an effect adds, and the state after.
pub open spec fn spec_emit(eff: Effect, at: Time, who: Option<usize>, i: u64, n: usize, d: Drawing) -> Drawing {
    match eff {
        Effect::Stimulus(t) => {
            let (body, s1) = spec_render(t@, i as nat, d.state);
            match who {
                Some(w) => Drawing {
                    state: s1,
                    roots: d.roots,
                    faults: d.faults,
                    stimuli: d.stimuli.push(StimulusPlan { at, node: w, body }),
                },
                None => moved(d, s1),
            }
        },
        Effect::Crash => match who {
            Some(w) => if crashed(d.faults, w) {
                d
            } else {
                Drawing { state: d.state, roots: d.roots, faults: d.faults.push(FaultPlan::Crash { at, node: w }), stimuli: d.stimuli }
            },
            None => d,
        },
        Effect::Pause { duration } => {
            let (x, s1) = spec_draw_u64(duration, d.state);
            let dur: u64 = if x > 1 { x } else { 1 };
            match who {
                Some(w) => Drawing {
                    state: s1,
                    roots: d.roots,
                    faults: d.faults.push(FaultPlan::Pause { at, node: w, duration: dur }),
                    stimuli: d.stimuli,
                },
                None => moved(d, s1),
            }
        },
        Effect::Partition { duration } => {
            let (x, s1) = spec_draw_u64(duration, d.state);
            let dur: u64 = if x > 1 { x } else { 1 };
            if n >= 2 {
                let next = spec_advance(s1);
                let mask = (1 + spec_mix(next) % ((spec_pow2(n as nat) - 2) as u64)) as u64;
                Drawing {
                    state: next,
                    roots: d.roots,
                    faults: d.faults.push(FaultPlan::Partition { at, duration: dur, side: spec_bits(mask, n as nat) }),
                    stimuli: d.stimuli,
                }
            } else {
                moved(d, s1)
            }
        },
    }
}

/// The order of keys in a stimulus body changes nothing: two bodies that are the same JSON, keys
/// listed in other orders at any depth, draw the same numbers and plan the same stimulus.
pub proof fn lemma_body_key_order_changes_nothing(t1: Json, t2: Json, at: Time, who: Option<usize>, i: u64, n: usize, d: Drawing)
    requires
        same_json(t1@, t2@),
    ensures
        spec_emit(Effect::Stimulus(t2), at, who, i, n, d) == spec_emit(Effect::Stimulus(t1), at, who, i, n, d),
{
    lemma_render_same_json(t1@, t2@, i as nat, d.state);
}

/// Two effects alike: stimuli whose bodies are the same JSON, or the same effect.
pub open spec fn effects_alike(a: Effect, b: Effect) -> bool {
    match (a, b) {
        (Effect::Stimulus(t1), Effect::Stimulus(t2)) => same_json(t1@, t2@),
        _ => a == b,
    }
}

/// Two event trees alike: the same in everything but the order of keys in stimulus bodies.
pub open spec fn events_alike(a: Event, b: Event) -> bool
    decreases a,
{
    &&& a.nodes == b.nodes
    &&& a.count == b.count
    &&& a.at_frac == b.at_frac
    &&& a.delay == b.delay
    &&& effects_alike(a.effect, b.effect)
    &&& a.children@.len() == b.children@.len()
    &&& forall|k: int| 0 <= k < a.children@.len() ==> events_alike(#[trigger] a.children@[k], b.children@[k])
}

/// Two lists of events alike, one by one.
pub open spec fn event_lists_alike(a: Seq<Event>, b: Seq<Event>) -> bool {
    a.len() == b.len() && forall|k: int| 0 <= k < a.len() ==> events_alike(#[trigger] a[k], b[k])
}

proof fn lemma_emit_alike(e1: Effect, e2: Effect, at: Time, who: Option<usize>, i: u64, n: usize, d: Drawing)
    requires
        effects_alike(e1, e2),
    ensures
        spec_emit(e1, at, who, i, n, d) == spec_emit(e2, at, who, i, n, d),
{
    if let Effect::Stimulus(t1) = e1 {
        if let Effect::Stimulus(t2) = e2 {
            lemma_render_same_json(t1@, t2@, i as nat, d.state);
        }
    }
}

proof fn lemma_visit_alike(e1: Event, e2: Event, parent: Option<(Time, Option<usize>)>, taken: Seq<usize>, f: u64, n: usize, d: Drawing)
    requires
        events_alike(e1, e2),
    ensures
        spec_visit(e1, parent, taken, f, n, d) == spec_visit(e2, parent, taken, f, n, d),
    decreases e1, 3nat, 0nat,
{
    let (subjects, total, d1) = spec_subjects(e1, parent, taken, f, n, d);
    assert(spec_subjects(e2, parent, taken, f, n, d) == (subjects, total, d1));
    lemma_instances_alike(e1, e2, parent, taken, f, n, subjects, total, d1);
}

proof fn lemma_instances_alike(e1: Event, e2: Event, parent: Option<(Time, Option<usize>)>, taken: Seq<usize>, f: u64, n: usize, subjects: Seq<Option<usize>>, count: nat, d: Drawing)
    requires
        events_alike(e1, e2),
    ensures
        spec_instances(e1, parent, taken, f, n, subjects, count, d) == spec_instances(e2, parent, taken, f, n, subjects, count, d),
    decreases e1, 2nat, count,
{
    if count > 0 {
        lemma_instances_alike(e1, e2, parent, taken, f, n, subjects, (count - 1) as nat, d);
        let before = spec_instances(e1, parent, taken, f, n, subjects, (count - 1) as nat, d);
        lemma_instance_alike(e1, e2, parent, taken, f, n, subjects, (count - 1) as nat, before);
    }
}

proof fn lemma_instance_alike(e1: Event, e2: Event, parent: Option<(Time, Option<usize>)>, taken: Seq<usize>, f: u64, n: usize, subjects: Seq<Option<usize>>, i: nat, d: Drawing)
    requires
        events_alike(e1, e2),
    ensures
        spec_instance(e1, parent, taken, f, n, subjects, i, d) == spec_instance(e2, parent, taken, f, n, subjects, i, d),
    decreases e1, 1nat, 0nat,
{
    let who = if subjects.len() > 0 { subjects[i as int] } else { None };
    let (at, d1) = match parent {
        None => {
            let (point, s1) = match e1.at_frac {
                Some(s) => spec_draw_frac(s, d.state),
                None => (None, d.state),
            };
            (
                Time { root: d.roots.len() as usize, offset: 0 },
                Drawing { state: s1, roots: d.roots.push(Placement { frac: e1.at_frac, point }), faults: d.faults, stimuli: d.stimuli },
            )
        },
        Some((pt, _)) => {
            let (delay, s1) = match e1.delay {
                Some(s) => spec_draw_u64(s, d.state),
                None => (0u64, d.state),
            };
            (Time { root: pt.root, offset: pt.offset.saturating_add(delay) }, moved(d, s1))
        },
    };
    lemma_emit_alike(e1.effect, e2.effect, at, who, i as u64, n, d1);
    let d2 = spec_emit(e1.effect, at, who, i as u64, n, d1);
    if e1.children@.len() > 0 {
        let deeper = match who {
            Some(w) => taken.push(w),
            None => taken,
        };
        lemma_children_alike(e1, e2, at, who, deeper, f, n, e1.children@.len(), d2);
    }
}

proof fn lemma_children_alike(e1: Event, e2: Event, at: Time, who: Option<usize>, deeper: Seq<usize>, f: u64, n: usize, c: nat, d: Drawing)
    requires
        events_alike(e1, e2),
    ensures
        spec_children(e1, at, who, deeper, f, n, c, d) == spec_children(e2, at, who, deeper, f, n, c, d),
    decreases e1, 0nat, c,
{
    if c > 0 && c <= e1.children@.len() {
        lemma_children_alike(e1, e2, at, who, deeper, f, n, (c - 1) as nat, d);
        let before = spec_children(e1, at, who, deeper, f, n, (c - 1) as nat, d);
        assert(events_alike(e1.children@[c - 1], e2.children@[c - 1]));
        lemma_visit_alike(e1.children@[c - 1], e2.children@[c - 1], Some((at, who)), deeper, f, n, before);
    }
}

proof fn lemma_roots_alike(a: Seq<Event>, b: Seq<Event>, f: u64, n: usize, count: nat, d: Drawing)
    requires
        event_lists_alike(a, b),
    ensures
        spec_roots(a, f, n, count, d) == spec_roots(b, f, n, count, d),
    decreases count,
{
    if count > 0 && count <= a.len() {
        lemma_roots_alike(a, b, f, n, (count - 1) as nat, d);
        assert(events_alike(a[count - 1], b[count - 1]));
        lemma_visit_alike(a[count - 1], b[count - 1], None, seq![], f, n, spec_roots(a, f, n, (count - 1) as nat, d));
    }
}

/// The order of keys in stimulus bodies changes nothing in a draw: two spaces the same in
/// everything but that, at any depth of any body, draw the same plan from every seed.
pub proof fn lemma_key_order_changes_no_draw(seed: u64, a: Space, b: Space)
    requires
        a.f == b.f,
        a.time_limit == b.time_limit,
        a.gst_frac == b.gst_frac,
        a.link_delay_pre == b.link_delay_pre,
        a.link_delay_post == b.link_delay_post,
        a.jitter_pct == b.jitter_pct,
        a.emit_gap == b.emit_gap,
        a.fifo == b.fifo,
        event_lists_alike(a.events@, b.events@),
    ensures
        spec_draw_plan(seed, a) == spec_draw_plan(seed, b),
{
    let (f0, s1) = spec_draw_u64(a.f, seed);
    let f: u64 = if f0 < MAX_F { f0 } else { MAX_F };
    let n = (3 * f + 1) as usize;
    let (limit, s2) = spec_draw_u64(a.time_limit, s1);
    let (gst_point, s3) = spec_draw_frac(a.gst_frac, s2);
    let (pre, post, s4) = spec_link_rows(a.link_delay_pre, a.link_delay_post, n as nat, n as nat, s3);
    let (jitter_pct, s5) = spec_draw_u64(a.jitter_pct, s4);
    let (emit_gap, s6) = spec_draw_u64(a.emit_gap, s5);
    let (fifo, s7) = spec_draw_bool(a.fifo, s6);
    lemma_roots_alike(a.events@, b.events@, f, n, a.events@.len(),
        Drawing { state: s7, roots: seq![], faults: seq![], stimuli: seq![] });
}

/// The instances an event stands for: the processes it binds, how many there are, and the
/// walk after drawing them.
pub open spec fn spec_subjects(ev: Event, parent: Option<(Time, Option<usize>)>, taken: Seq<usize>, f: u64, n: usize, d: Drawing) -> (Seq<Option<usize>>, nat, Drawing) {
    match (ev.nodes, ev.count) {
        (Some(sub), _) => {
            let (who, s1) = spec_pick(sub, f, n, taken, d.state);
            (who.map_values(|x: usize| Some(x)), who.len(), moved(d, s1))
        },
        (None, Some(c)) => {
            let (copies, s1) = spec_draw_bound(c, f, d.state);
            (seq![], copies as nat, moved(d, s1))
        },
        (None, None) => {
            let inherited = match parent {
                Some((_, w)) => w,
                None => None,
            };
            (seq![inherited], 1, d)
        },
    }
}

/// One event and its subtree.
pub open spec fn spec_visit(ev: Event, parent: Option<(Time, Option<usize>)>, taken: Seq<usize>, f: u64, n: usize, d: Drawing) -> Drawing
    decreases ev, 3nat, 0nat,
{
    let (subjects, total, d1) = spec_subjects(ev, parent, taken, f, n, d);
    spec_instances(ev, parent, taken, f, n, subjects, total, d1)
}

/// The first `count` instances of an event, each with its subtree.
pub open spec fn spec_instances(ev: Event, parent: Option<(Time, Option<usize>)>, taken: Seq<usize>, f: u64, n: usize, subjects: Seq<Option<usize>>, count: nat, d: Drawing) -> Drawing
    decreases ev, 2nat, count,
{
    if count == 0 {
        d
    } else {
        let before = spec_instances(ev, parent, taken, f, n, subjects, (count - 1) as nat, d);
        spec_instance(ev, parent, taken, f, n, subjects, (count - 1) as nat, before)
    }
}

/// Instance `i` of an event: where it lands, what it does, then its children.
pub open spec fn spec_instance(ev: Event, parent: Option<(Time, Option<usize>)>, taken: Seq<usize>, f: u64, n: usize, subjects: Seq<Option<usize>>, i: nat, d: Drawing) -> Drawing
    decreases ev, 1nat, 0nat,
{
    let who = if subjects.len() > 0 { subjects[i as int] } else { None };
    let (at, d1) = match parent {
        None => {
            let (point, s1) = match ev.at_frac {
                Some(s) => spec_draw_frac(s, d.state),
                None => (None, d.state),
            };
            (
                Time { root: d.roots.len() as usize, offset: 0 },
                Drawing { state: s1, roots: d.roots.push(Placement { frac: ev.at_frac, point }), faults: d.faults, stimuli: d.stimuli },
            )
        },
        Some((pt, _)) => {
            let (delay, s1) = match ev.delay {
                Some(s) => spec_draw_u64(s, d.state),
                None => (0u64, d.state),
            };
            (Time { root: pt.root, offset: pt.offset.saturating_add(delay) }, moved(d, s1))
        },
    };
    let d2 = spec_emit(ev.effect, at, who, i as u64, n, d1);
    if ev.children@.len() > 0 {
        let deeper = match who {
            Some(w) => taken.push(w),
            None => taken,
        };
        spec_children(ev, at, who, deeper, f, n, ev.children@.len(), d2)
    } else {
        d2
    }
}

/// The first `c` children of an event instance placed at `at` and bound to `who`.
pub open spec fn spec_children(ev: Event, at: Time, who: Option<usize>, deeper: Seq<usize>, f: u64, n: usize, c: nat, d: Drawing) -> Drawing
    decreases ev, 0nat, c,
{
    if c == 0 || c > ev.children@.len() {
        d
    } else {
        let before = spec_children(ev, at, who, deeper, f, n, (c - 1) as nat, d);
        spec_visit(ev.children@[c - 1], Some((at, who)), deeper, f, n, before)
    }
}

/// The first `count` root events.
pub open spec fn spec_roots(events: Seq<Event>, f: u64, n: usize, count: nat, d: Drawing) -> Drawing
    decreases count,
{
    if count == 0 || count > events.len() {
        d
    } else {
        spec_visit(events[count - 1], None, seq![], f, n, spec_roots(events, f, n, (count - 1) as nat, d))
    }
}

/// The first `cols` link delays of row `i`, before GST and after, and the state after.
pub open spec fn spec_link_row(pre: Span<u64>, post: Span<u64>, i: nat, cols: nat, state: u64) -> (Seq<u64>, Seq<u64>, u64)
    decreases cols,
{
    if cols == 0 {
        (seq![], seq![], state)
    } else {
        let (a, b, s) = spec_link_row(pre, post, i, (cols - 1) as nat, state);
        if i == cols - 1 {
            (a.push(0), b.push(0), s)
        } else {
            let (x, s1) = spec_draw_u64(pre, s);
            let (y, s2) = spec_draw_u64(post, s1);
            (a.push(if x > 1 { x } else { 1 }), b.push(if y > 1 { y } else { 1 }), s2)
        }
    }
}

/// The first `rows` rows of both link matrices of a group of `n`, and the state after.
pub open spec fn spec_link_rows(pre: Span<u64>, post: Span<u64>, n: nat, rows: nat, state: u64) -> (Seq<Seq<u64>>, Seq<Seq<u64>>, u64)
    decreases rows,
{
    if rows == 0 {
        (seq![], seq![], state)
    } else {
        let (a, b, s) = spec_link_rows(pre, post, n, (rows - 1) as nat, state);
        let (ra, rb, s1) = spec_link_row(pre, post, (rows - 1) as nat, n, s);
        (a.push(ra), b.push(rb), s1)
    }
}

/// Everything a seed draws from a space, in the order it is drawn: the fault budget, the time
/// limit, the GST's point, the link delays row by row, the jitter, the gap between sends, FIFO,
/// and then the event tree, depth first.
pub open spec fn spec_draw_plan(seed: u64, space: Space) -> PlanV {
    let (f0, s1) = spec_draw_u64(space.f, seed);
    let f: u64 = if f0 < MAX_F { f0 } else { MAX_F };
    let n = (3 * f + 1) as usize;
    let (limit, s2) = spec_draw_u64(space.time_limit, s1);
    let (gst_point, s3) = spec_draw_frac(space.gst_frac, s2);
    let (pre, post, s4) = spec_link_rows(space.link_delay_pre, space.link_delay_post, n as nat, n as nat, s3);
    let (jitter_pct, s5) = spec_draw_u64(space.jitter_pct, s4);
    let (emit_gap, s6) = spec_draw_u64(space.emit_gap, s5);
    let (fifo, s7) = spec_draw_bool(space.fifo, s6);
    let d = spec_roots(space.events@, f, n, space.events@.len(), Drawing { state: s7, roots: seq![], faults: seq![], stimuli: seq![] });
    PlanV {
        f,
        nodes: n,
        time_limit: if limit > 2 { limit } else { 2 },
        gst: Placement { frac: Some(space.gst_frac), point: gst_point },
        delay_pre: pre,
        delay_post: post,
        jitter_pct,
        emit_gap,
        fifo,
        roots: d.roots,
        faults: d.faults,
        stimuli: d.stimuli,
    }
}

// ----------------------------------------------------------------- the walk

/// What the walk accumulates.
struct Out {
    roots: Vec<Placement>,
    faults: Vec<PlannedFault>,
    stimuli: Vec<PlannedStimulus>,
}

impl Out {
    /// The walk, with the generator in `state`.
    spec fn drawing(&self, state: u64) -> Drawing {
        Drawing { state, roots: self.roots@, faults: faults_view(self.faults@), stimuli: stimuli_view(self.stimuli@) }
    }

    spec fn ok(&self, n: nat) -> bool {
        &&& planned_faults_ok(self.faults@, n, self.roots@.len())
        &&& planned_stimuli_ok(self.stimuli@, n, self.roots@.len())
    }
}

/// The walk's fixed context: the fault budget and the group size.
struct Ctx {
    f: u64,
    n: usize,
}

proof fn lemma_roots_grow(out_faults: Seq<PlannedFault>, out_stimuli: Seq<PlannedStimulus>, n: nat, r1: nat, r2: nat)
    requires
        r1 <= r2,
        planned_faults_ok(out_faults, n, r1),
        planned_stimuli_ok(out_stimuli, n, r1),
    ensures
        planned_faults_ok(out_faults, n, r2),
        planned_stimuli_ok(out_stimuli, n, r2),
{
    assert forall|k: int| 0 <= k < out_faults.len() implies planned_fault_ok(#[trigger] out_faults[k], n, r2) by {
        assert(planned_fault_ok(out_faults[k], n, r1));
    }
}

proof fn lemma_faults_push(fs: Seq<PlannedFault>, x: PlannedFault)
    ensures
        faults_view(fs.push(x)) == faults_view(fs).push(x@),
{
    assert(faults_view(fs.push(x)) =~= faults_view(fs).push(x@));
}

proof fn lemma_stimuli_push(ss: Seq<PlannedStimulus>, x: PlannedStimulus)
    ensures
        stimuli_view(ss.push(x)) == stimuli_view(ss).push(x@),
{
    assert(stimuli_view(ss.push(x)) =~= stimuli_view(ss).push(x@));
}

proof fn lemma_rows_push(m: Seq<Vec<u64>>, row: Vec<u64>)
    ensures
        rows_view(m.push(row)) == rows_view(m).push(row@),
{
    assert(rows_view(m.push(row)) =~= rows_view(m).push(row@));
}

/// The processes an event acts on.
///
/// `distinct` uses a partial Fisher-Yates shuffle rather than rejection sampling: rejection
/// consumes a number of draws that depends on collisions, hence on `n`, and the stream would shift
/// unpredictably. This consumes exactly k.
fn pick(r: &mut Rng, ctx: &Ctx, sub: &Subject, taken: &Vec<usize>) -> (who: Vec<usize>)
    requires
        subject_ok(*sub),
        ctx.n >= 1,
        ctx.f <= MAX_F,
    ensures
        forall|k: int| 0 <= k < who@.len() ==> (#[trigger] who@[k]) < ctx.n,
        sub matches Subject::All ==> who@.len() == ctx.n && forall|k: int| 0 <= k < ctx.n ==> #[trigger] who@[k] == k,
        sub is Distinct ==> distinct_below(who@, ctx.n as nat)
            && forall|k: int| 0 <= k < who@.len() ==> !taken@.contains(#[trigger] who@[k]),
        (who@, final(r)@) == spec_pick(*sub, ctx.f, ctx.n, taken@, old(r)@),
{
    match sub {
        Subject::All => {
            let mut v: Vec<usize> = Vec::new();
            let mut i: usize = 0;
            while i < ctx.n
                invariant
                    i <= ctx.n,
                    v@.len() == i,
                    forall|k: int| 0 <= k < i ==> #[trigger] v@[k] == k,
                decreases ctx.n - i,
            {
                v.push(i);
                i = i + 1;
            }
            assert(v@ =~= Seq::new(ctx.n as nat, |k: int| k as usize));
            v
        },
        Subject::Any(k) => {
            let want = k.draw(r, ctx.f);
            let ghost s1 = r@;
            let mut v: Vec<usize> = Vec::new();
            let mut i: u64 = 0;
            while i < want
                invariant
                    ctx.n >= 1,
                    i <= want,
                    forall|j: int| 0 <= j < v@.len() ==> (#[trigger] v@[j]) < ctx.n,
                    (v@, r@) == spec_any(i as nat, ctx.n as u64, s1),
                decreases want - i,
            {
                let x = r.range(0, ctx.n as u64);
                v.push(x as usize);
                i = i + 1;
            }
            v
        },
        Subject::Distinct(k) => {
            let want = k.draw(r, ctx.f);
            let ghost s1 = r@;
            let mut pool: Vec<usize> = Vec::new();
            let mut i: usize = 0;
            while i < ctx.n
                invariant
                    i <= ctx.n,
                    r@ == s1,
                    pool@ == spec_free(i as nat, taken@),
                    distinct_below(pool@, ctx.n as nat),
                    forall|j: int| 0 <= j < pool@.len() ==> (#[trigger] pool@[j]) < i,
                    forall|j: int| 0 <= j < pool@.len() ==> !taken@.contains(#[trigger] pool@[j]),
                decreases ctx.n - i,
            {
                if !contains(taken, i) {
                    pool.push(i);
                }
                i = i + 1;
            }
            let len = pool.len();
            let k = if want < len as u64 { want as usize } else { len };
            let ghost pool0 = pool@;
            let mut i: usize = 0;
            while i < k
                invariant
                    k <= len,
                    i <= k,
                    pool0.len() == len,
                    (pool@, r@) == spec_shuffle(pool0, i as nat, s1),
                    pool@.len() == len,
                    distinct_below(pool@, ctx.n as nat),
                    forall|j: int| 0 <= j < pool@.len() ==> !taken@.contains(#[trigger] pool@[j]),
                decreases k - i,
            {
                let j = i + r.range(0, (len - i) as u64) as usize;
                let a = pool[i];
                let b = pool[j];
                let ghost before = pool@;
                pool.set(i, b);
                pool.set(j, a);
                proof {
                    assert forall|x: int, y: int| 0 <= x < y < pool@.len() implies pool@[x] != pool@[y] by {
                        let sx = if x == i { j as int } else if x == j { i as int } else { x };
                        let sy = if y == i { j as int } else if y == j { i as int } else { y };
                        assert(pool@[x] == before[sx]);
                        assert(pool@[y] == before[sy]);
                    }
                    assert forall|x: int| 0 <= x < pool@.len() implies !taken@.contains(#[trigger] pool@[x]) && pool@[x] < ctx.n by {
                        let sx = if x == i { j as int } else if x == j { i as int } else { x };
                        assert(pool@[x] == before[sx]);
                    }
                }
                i = i + 1;
            }
            pool.truncate(k);
            assert(pool@ =~= spec_shuffle(pool0, k as nat, s1).0.take(k as int));
            pool
        },
    }
}

fn contains(v: &Vec<usize>, x: usize) -> (r: bool)
    ensures
        r == v@.contains(x),
{
    let mut i: usize = 0;
    while i < v.len()
        invariant
            i <= v@.len(),
            forall|k: int| 0 <= k < i ==> v@[k] != x,
        decreases v@.len() - i,
    {
        if v[i] == x {
            return true;
        }
        i = i + 1;
    }
    false
}

/// `2^k`.
pub open spec fn spec_pow2(k: nat) -> nat
    decreases k,
{
    if k == 0 { 1 } else { 2 * spec_pow2((k - 1) as nat) }
}

fn pow2(k: usize) -> (p: u64)
    requires
        k < 64,
    ensures
        p == spec_pow2(k as nat),
{
    let mut p: u64 = 1;
    let mut i: usize = 0;
    proof {
        lemma_pow2_mono(0, 63);
    }
    while i < k
        invariant
            i <= k < 64,
            p == spec_pow2(i as nat),
            spec_pow2(i as nat) <= spec_pow2(63),
        decreases k - i,
    {
        proof {
            lemma_pow2_mono((i + 1) as nat, 63);
            lemma_pow2_63();
        }
        p = p * 2;
        i = i + 1;
    }
    p
}

proof fn lemma_pow2_mono(a: nat, b: nat)
    requires
        a <= b,
    ensures
        spec_pow2(a) <= spec_pow2(b),
    decreases b,
{
    if a < b {
        lemma_pow2_mono(a, (b - 1) as nat);
    }
}

proof fn lemma_pow2_63()
    ensures
        spec_pow2(63) == 0x8000_0000_0000_0000,
{
    reveal_with_fuel(spec_pow2, 64);
}

/// The low `k` bits of `m`, least significant first.
proof fn lemma_low_bits(m: nat, k: nat)
    requires
        m < spec_pow2(k),
    ensures
        m == 0 ==> forall|i: nat| i < k ==> (#[trigger] (m / spec_pow2(i))) % 2 == 0,
        (m != 0) ==> exists|i: nat| i < k && (#[trigger] (m / spec_pow2(i))) % 2 == 1,
        (m + 1 != spec_pow2(k)) ==> exists|i: nat| i < k && (#[trigger] (m / spec_pow2(i))) % 2 == 0,
    decreases k,
{
    if k == 0 {
    } else {
        let h = m / 2;
        assert(spec_pow2(k) == 2 * spec_pow2((k - 1) as nat));
        lemma_low_bits(h, (k - 1) as nat);
        assert forall|i: nat| i + 1 <= k implies (#[trigger] (m / spec_pow2(i + 1))) == h / spec_pow2(i) by {
            lemma_div_twice(m, i);
        }
        if m != 0 {
            if m % 2 == 1 {
                assert(spec_pow2(0) == 1);
                assert(m / spec_pow2(0) == m);
            } else {
                assert(h != 0);
                let i = choose|i: nat| i < k - 1 && (#[trigger] (h / spec_pow2(i))) % 2 == 1;
                assert(m / spec_pow2(i + 1) == h / spec_pow2(i));
            }
        }
        if m + 1 != spec_pow2(k) {
            if m % 2 == 0 {
                assert(spec_pow2(0) == 1);
                assert(m / spec_pow2(0) == m);
            } else {
                assert(h + 1 != spec_pow2((k - 1) as nat));
                let i = choose|i: nat| i < k - 1 && (#[trigger] (h / spec_pow2(i))) % 2 == 0;
                assert(m / spec_pow2(i + 1) == h / spec_pow2(i));
            }
        }
        if m == 0 {
            assert forall|i: nat| i < k implies (#[trigger] (m / spec_pow2(i))) % 2 == 0 by {
                lemma_pow2_pos(i);
            }
        }
    }
}

proof fn lemma_pow2_pos(i: nat)
    ensures
        spec_pow2(i) >= 1,
    decreases i,
{
    if i > 0 {
        lemma_pow2_pos((i - 1) as nat);
    }
}

proof fn lemma_div_twice(m: nat, i: nat)
    ensures
        m / spec_pow2(i + 1) == (m / 2) / spec_pow2(i),
{
    lemma_pow2_pos(i);
    assert(spec_pow2(i + 1) == 2 * spec_pow2(i));
    vstd::arithmetic::div_mod::lemma_div_denominator(m as int, 2, spec_pow2(i) as int);
}

proof fn lemma_div_step(m: nat, i: nat)
    ensures
        m / spec_pow2(i + 1) == (m / spec_pow2(i)) / 2,
{
    lemma_pow2_pos(i);
    assert(spec_pow2(i + 1) == spec_pow2(i) * 2);
    vstd::arithmetic::div_mod::lemma_div_denominator(m as int, spec_pow2(i) as int, 2);
}

/// The processes whose bit is set in `mask`, in order.
fn side_of(mask: u64, n: usize) -> (side: Vec<usize>)
    requires
        2 <= n < 64,
        1 <= mask < spec_pow2(n as nat) - 1,
    ensures
        distinct_below(side@, n as nat),
        0 < side@.len() < n,
        side@ == spec_bits(mask, n as nat),
{
    let ghost full = mask as nat;
    let mut side: Vec<usize> = Vec::new();
    let mut m = mask;
    let mut i: usize = 0;
    let mut skipped: usize = 0;
    proof {
        lemma_low_bits(full, n as nat);
        assert(spec_pow2(0) == 1);
    }
    while i < n
        invariant
            i <= n,
            2 <= n,
            full == mask,
            m as nat == full / spec_pow2(i as nat),
            side@ == spec_bits(mask, i as nat),
            forall|k: int| 0 <= k < side@.len() ==> (#[trigger] side@[k]) < i,
            forall|a: int, b: int| 0 <= a < b < side@.len() ==> side@[a] < side@[b],
            side@.len() + skipped == i,
            (exists|j: nat| j < i && (#[trigger] (full / spec_pow2(j))) % 2 == 1) ==> side@.len() > 0,
            (exists|j: nat| j < i && (#[trigger] (full / spec_pow2(j))) % 2 == 0) ==> skipped > 0,
        decreases n - i,
    {
        proof {
            lemma_div_step(full, i as nat);
        }
        if m % 2 == 1 {
            side.push(i);
        } else {
            skipped = skipped + 1;
        }
        m = m / 2;
        i = i + 1;
    }
    proof {
        assert(full + 1 != spec_pow2(n as nat));
        assert(full != 0);
    }
    side
}

/// Instantiate one event and its subtree.
///
/// `parent` carries the instant to place against and the process to inherit; `taken` carries the
/// processes already bound on the path, which is what makes `distinct` mean "someone other than
/// mine" under a parent and "distinct from each other" at the root.
fn visit(r: &mut Rng, ctx: &Ctx, out: &mut Out, ev: &Event, parent: Option<(Time, Option<usize>)>, taken: &Vec<usize>)
    requires
        event_ok(*ev),
        old(out).ok(ctx.n as nat),
        1 <= ctx.n <= 3 * MAX_F + 1,
        ctx.f <= MAX_F,
        forall|k: int| 0 <= k < taken@.len() ==> (#[trigger] taken@[k]) < ctx.n,
        parent matches Some((t, w)) ==> time_ok(t, old(out).roots@.len()) && (w matches Some(x) ==> x < ctx.n),
    ensures
        final(out).ok(ctx.n as nat),
        final(out).roots@.len() >= old(out).roots@.len(),
        final(out).drawing(final(r)@) == spec_visit(*ev, parent, taken@, ctx.f, ctx.n, old(out).drawing(old(r)@)),
    decreases ev,
{
    let ghost d0 = out.drawing(r@);
    // Who.
    let mut subjects: Vec<Option<usize>> = Vec::new();
    let mut copies: u64 = 0;
    match (&ev.nodes, &ev.count) {
        (Some(sub), _) => {
            let who = pick(r, ctx, sub, taken);
            let mut i: usize = 0;
            while i < who.len()
                invariant
                    i <= who@.len(),
                    subjects@.len() == i,
                    forall|k: int| 0 <= k < who@.len() ==> (#[trigger] who@[k]) < ctx.n,
                    forall|k: int| 0 <= k < i ==> (#[trigger] subjects@[k]) == Some(who@[k]),
                decreases who@.len() - i,
            {
                subjects.push(Some(who[i]));
                i = i + 1;
            }
            assert(subjects@ =~= who@.map_values(|x: usize| Some(x)));
        },
        (None, Some(c)) => {
            copies = c.draw(r, ctx.f);
        },
        (None, None) => {
            let inherited = match parent {
                Some((_, w)) => w,
                None => None,
            };
            subjects.push(inherited);
        },
    }
    let total: u64 = if subjects.len() > 0 { subjects.len() as u64 } else { copies };
    let ghost d1 = out.drawing(r@);
    assert((subjects@, total as nat, d1) == spec_subjects(*ev, parent, taken@, ctx.f, ctx.n, d0));
    let mut i: u64 = 0;
    while i < total
        invariant
            out.drawing(r@) == spec_instances(*ev, parent, taken@, ctx.f, ctx.n, subjects@, i as nat, d1),
            i <= total,
            event_ok(*ev),
            out.ok(ctx.n as nat),
            out.roots@.len() >= old(out).roots@.len(),
            1 <= ctx.n <= 3 * MAX_F + 1,
            ctx.f <= MAX_F,
            forall|k: int| 0 <= k < taken@.len() ==> (#[trigger] taken@[k]) < ctx.n,
            parent matches Some((t, w)) ==> time_ok(t, old(out).roots@.len()) && (w matches Some(x) ==> x < ctx.n),
            forall|k: int| 0 <= k < subjects@.len() ==> ((#[trigger] subjects@[k]) matches Some(x) ==> x < ctx.n),
            subjects@.len() > 0 ==> total == subjects@.len(),
        decreases total - i,
    {
        let ghost d_prev = out.drawing(r@);
        let who: Option<usize> = if subjects.len() > 0 { subjects[i as usize] } else { None };
        // When.
        let at = match parent {
            None => {
                let (frac, point) = match ev.at_frac {
                    Some(s) => (Some(s), s.draw(r)),
                    None => (None, None),
                };
                let root = out.roots.len();
                out.roots.push(Placement { frac, point });
                proof {
                    lemma_roots_grow(out.faults@, out.stimuli@, ctx.n as nat, root as nat, out.roots@.len());
                }
                Time { root, offset: 0 }
            },
            Some((pt, _)) => {
                let d = match ev.delay {
                    Some(s) => s.draw(r),
                    None => 0,
                };
                Time { root: pt.root, offset: pt.offset.saturating_add(d) }
            },
        };
        // What.
        emit(r, ctx, out, &ev.effect, at, who, i);
        let ghost d2 = out.drawing(r@);
        // Then.
        if ev.children.len() > 0 {
            let mut deeper: Vec<usize> = Vec::new();
            let mut k: usize = 0;
            while k < taken.len()
                invariant
                    k <= taken@.len(),
                    deeper@ == taken@.take(k as int),
                    forall|j: int| 0 <= j < taken@.len() ==> (#[trigger] taken@[j]) < ctx.n,
                    forall|j: int| 0 <= j < deeper@.len() ==> (#[trigger] deeper@[j]) < ctx.n,
                decreases taken@.len() - k,
            {
                deeper.push(taken[k]);
                k = k + 1;
                assert(deeper@ =~= taken@.take(k as int));
            }
            assert(taken@.take(taken@.len() as int) =~= taken@);
            if let Some(w) = who {
                deeper.push(w);
            }
            let mut c: usize = 0;
            while c < ev.children.len()
                invariant
                    out.drawing(r@) == spec_children(*ev, at, who, deeper@, ctx.f, ctx.n, c as nat, d2),
                    c <= ev.children@.len(),
                    event_ok(*ev),
                    out.ok(ctx.n as nat),
                    out.roots@.len() >= old(out).roots@.len(),
                    time_ok(at, out.roots@.len()),
                    1 <= ctx.n <= 3 * MAX_F + 1,
                    ctx.f <= MAX_F,
                    forall|j: int| 0 <= j < deeper@.len() ==> (#[trigger] deeper@[j]) < ctx.n,
                    who matches Some(x) ==> x < ctx.n,
                decreases ev.children@.len() - c,
            {
                proof {
                    assert(decreases_to!(*ev => ev.children@[c as int]));
                    assert(event_ok(ev.children@[c as int]));
                }
                visit(r, ctx, out, &ev.children[c], Some((at, who)), &deeper);
                c = c + 1;
            }
        }
        assert(out.drawing(r@) == spec_instance(*ev, parent, taken@, ctx.f, ctx.n, subjects@, i as nat, d_prev));
        i = i + 1;
    }
}

/// Every value an effect needs is drawn before anything is skipped, so an event bound to no
/// process does not shift the rest of the stream.
fn emit(r: &mut Rng, ctx: &Ctx, out: &mut Out, eff: &Effect, at: Time, who: Option<usize>, i: u64)
    requires
        effect_ok(*eff),
        old(out).ok(ctx.n as nat),
        time_ok(at, old(out).roots@.len()),
        1 <= ctx.n <= 3 * MAX_F + 1,
        who matches Some(x) ==> x < ctx.n,
    ensures
        final(out).ok(ctx.n as nat),
        final(out).roots@ == old(out).roots@,
        final(out).drawing(final(r)@) == spec_emit(*eff, at, who, i, ctx.n, old(out).drawing(old(r)@)),
{
    match eff {
        Effect::Stimulus(template) => {
            let body = render(template, i, r);
            if let Some(w) = who {
                let ps = PlannedStimulus { at, node: w, body };
                proof {
                    lemma_stimuli_push(out.stimuli@, ps);
                }
                out.stimuli.push(ps);
                assert(out.stimuli@.last().node < ctx.n);
            }
        },
        Effect::Crash => {
            if let Some(w) = who {
                let mut already = false;
                let mut k: usize = 0;
                while k < out.faults.len()
                    invariant
                        k <= out.faults@.len(),
                        !already ==> forall|j: int| 0 <= j < k ==> !((#[trigger] out.faults@[j]) is Crash && out.faults@[j]->Crash_node == w),
                        already ==> exists|j: int| 0 <= j < k && (#[trigger] out.faults@[j]) is Crash && out.faults@[j]->Crash_node == w,
                    decreases out.faults@.len() - k,
                {
                    match &out.faults[k] {
                        PlannedFault::Crash { node, .. } => {
                            if *node == w {
                                already = true;
                            }
                        },
                        _ => {},
                    }
                    k = k + 1;
                }
                proof {
                    let fv = faults_view(out.faults@);
                    if already {
                        let j = choose|j: int| 0 <= j < k && (#[trigger] out.faults@[j]) is Crash && out.faults@[j]->Crash_node == w;
                        assert(fv[j] == out.faults@[j]@);
                        assert(crashed(fv, w));
                    } else {
                        assert forall|j: int| 0 <= j < fv.len() implies !((#[trigger] fv[j]) is Crash && fv[j]->Crash_node == w) by {
                            assert(fv[j] == out.faults@[j]@);
                        }
                    }
                }
                if !already {
                    let ghost before = out.faults@;
                    proof {
                        lemma_faults_push(out.faults@, PlannedFault::Crash { at, node: w });
                    }
                    out.faults.push(PlannedFault::Crash { at, node: w });
                    proof {
                        let fs = out.faults@;
                        assert forall|a: int, b: int|
                            0 <= a < b < fs.len() && (#[trigger] fs[a]) is Crash && (#[trigger] fs[b]) is Crash
                            implies fs[a]->Crash_node != fs[b]->Crash_node by {
                            if b == fs.len() - 1 {
                                assert(fs[a] == before[a]);
                            } else {
                                assert(fs[a] == before[a] && fs[b] == before[b]);
                            }
                        }
                        assert forall|k: int| 0 <= k < fs.len() implies planned_fault_ok(#[trigger] fs[k], ctx.n as nat, out.roots@.len()) by {
                            if k < before.len() {
                                assert(fs[k] == before[k]);
                            }
                        }
                    }
                }
            }
        },
        Effect::Pause { duration } => {
            let drawn = duration.draw(r);
            let d = if drawn > 1 { drawn } else { 1 };
            if let Some(w) = who {
                let ghost before = out.faults@;
                proof {
                    lemma_faults_push(out.faults@, PlannedFault::Pause { at, node: w, duration: d });
                }
                out.faults.push(PlannedFault::Pause { at, node: w, duration: d });
                proof {
                    lemma_push_non_crash(before, out.faults@, ctx.n as nat, out.roots@.len());
                }
            }
        },
        Effect::Partition { duration } => {
            let drawn = duration.draw(r);
            let d = if drawn > 1 { drawn } else { 1 };
            // Two sides need two processes: a proper non-empty subset of a group of one has no
            // answer. Taking a prefix instead of a drawn subset would put n0 on the small side of
            // every partition ever drawn.
            if ctx.n >= 2 {
                proof {
                    lemma_pow2_mono(ctx.n as nat, 63);
                    lemma_pow2_63();
                    lemma_pow2_mono(2, ctx.n as nat);
                    reveal_with_fuel(spec_pow2, 3);
                }
                let mask = r.range(1, pow2(ctx.n) - 1);
                let side = side_of(mask, ctx.n);
                let ghost before = out.faults@;
                let pf = PlannedFault::Partition { at, duration: d, side };
                proof {
                    lemma_faults_push(out.faults@, pf);
                }
                out.faults.push(pf);
                proof {
                    lemma_push_non_crash(before, out.faults@, ctx.n as nat, out.roots@.len());
                }
            }
        },
    }
}

proof fn lemma_push_non_crash(before: Seq<PlannedFault>, after: Seq<PlannedFault>, n: nat, roots: nat)
    requires
        planned_faults_ok(before, n, roots),
        after.len() == before.len() + 1,
        forall|k: int| 0 <= k < before.len() ==> after[k] == before[k],
        !(after.last() is Crash),
        planned_fault_ok(after.last(), n, roots),
    ensures
        planned_faults_ok(after, n, roots),
{
    assert forall|a: int, b: int|
        0 <= a < b < after.len() && (#[trigger] after[a]) is Crash && (#[trigger] after[b]) is Crash
        implies after[a]->Crash_node != after[b]->Crash_node by {
        assert(after[a] == before[a] && after[b] == before[b]);
    }
    assert forall|k: int| 0 <= k < after.len() implies planned_fault_ok(#[trigger] after[k], n, roots) by {
        if k < before.len() {
            assert(after[k] == before[k]);
        }
    }
}

/// Draw every decision of a scenario from a seed and a space.
pub fn draw_plan(seed: u64, space: &Space) -> (p: Plan)
    requires
        space_ok(space),
    ensures
        p.wf(),
        p@ == spec_draw_plan(seed, *space),
{
    let mut r = Rng::new(seed);

    // Capped so the subset mask a partition draws stays inside a u64. Far above any real group.
    let drawn_f = space.f.draw(&mut r);
    let f = if drawn_f < MAX_F { drawn_f } else { MAX_F };
    let n = (3 * f + 1) as usize;

    let drawn_limit = space.time_limit.draw(&mut r);
    let time_limit = if drawn_limit > 2 { drawn_limit } else { 2 };
    let gst_point = space.gst_frac.draw(&mut r);
    let gst = Placement { frac: Some(space.gst_frac), point: gst_point };
    let ghost s3 = r@;

    let mut delay_pre: Vec<Vec<u64>> = Vec::new();
    let mut delay_post: Vec<Vec<u64>> = Vec::new();
    let mut i: usize = 0;
    while i < n
        invariant
            i <= n,
            (rows_view(delay_pre@), rows_view(delay_post@), r@)
                == spec_link_rows(space.link_delay_pre, space.link_delay_post, n as nat, i as nat, s3),
            span_u64_ok(space.link_delay_pre),
            span_u64_ok(space.link_delay_post),
            delay_pre@.len() == i,
            delay_post@.len() == i,
            forall|a: int| 0 <= a < i ==> (#[trigger] delay_pre@[a])@.len() == n,
            forall|a: int| 0 <= a < i ==> (#[trigger] delay_post@[a])@.len() == n,
            forall|a: int, b: int| 0 <= a < i && 0 <= b < n ==> (#[trigger] delay_pre@[a]@[b] == 0) == (a == b),
            forall|a: int, b: int| 0 <= a < i && 0 <= b < n ==> (#[trigger] delay_post@[a]@[b] == 0) == (a == b),
        decreases n - i,
    {
        let mut pre_row: Vec<u64> = Vec::new();
        let mut post_row: Vec<u64> = Vec::new();
        let ghost s_row = r@;
        let mut j: usize = 0;
        while j < n
            invariant
                j <= n,
                (pre_row@, post_row@, r@) == spec_link_row(space.link_delay_pre, space.link_delay_post, i as nat, j as nat, s_row),
                span_u64_ok(space.link_delay_pre),
                span_u64_ok(space.link_delay_post),
                pre_row@.len() == j,
                post_row@.len() == j,
                forall|b: int| 0 <= b < j ==> (#[trigger] pre_row@[b] == 0) == (i == b),
                forall|b: int| 0 <= b < j ==> (#[trigger] post_row@[b] == 0) == (i == b),
            decreases n - j,
        {
            if i == j {
                pre_row.push(0);
                post_row.push(0);
            } else {
                let a = space.link_delay_pre.draw(&mut r);
                let b = space.link_delay_post.draw(&mut r);
                pre_row.push(if a > 1 { a } else { 1 });
                post_row.push(if b > 1 { b } else { 1 });
            }
            j = j + 1;
        }
        proof {
            lemma_rows_push(delay_pre@, pre_row);
            lemma_rows_push(delay_post@, post_row);
        }
        delay_pre.push(pre_row);
        delay_post.push(post_row);
        i = i + 1;
    }

    let jitter_pct = space.jitter_pct.draw(&mut r);
    let emit_gap = space.emit_gap.draw(&mut r);
    let fifo = space.fifo.draw(&mut r);

    let ctx = Ctx { f, n };
    let mut out = Out { roots: Vec::new(), faults: Vec::new(), stimuli: Vec::new() };
    let ghost d0 = Drawing { state: r@, roots: seq![], faults: seq![], stimuli: seq![] };
    assert(out.roots@ =~= seq![]);
    assert(faults_view(out.faults@) =~= seq![]);
    assert(stimuli_view(out.stimuli@) =~= seq![]);
    assert(out.drawing(r@) == d0);
    let no_one: Vec<usize> = Vec::new();
    let mut e: usize = 0;
    while e < space.events.len()
        invariant
            out.drawing(r@) == spec_roots(space.events@, f, n, e as nat, d0),
            e <= space.events@.len(),
            space_ok(space),
            out.ok(n as nat),
            1 <= n <= 3 * MAX_F + 1,
            ctx.n == n,
            ctx.f == f,
            f <= MAX_F,
            no_one@.len() == 0,
        decreases space.events@.len() - e,
    {
        assert(no_one@ =~= seq![]);
        visit(&mut r, &ctx, &mut out, &space.events[e], None, &no_one);
        e = e + 1;
    }

    Plan {
        f,
        nodes: n,
        time_limit,
        gst,
        delay_pre,
        delay_post,
        jitter_pct,
        emit_gap,
        fifo,
        roots: out.roots,
        faults: out.faults,
        stimuli: out.stimuli,
    }
}


// ---------------------------------------------------------------- its laws

/// A range of width zero is its one value: it yields the same and consumes no randomness, like
/// the scalar it stands for.
pub proof fn lemma_width_zero_is_pinned(v: u64, state: u64)
    ensures
        spec_draw_u64(Span::Range(v, v), state) == spec_draw_u64(Span::Pinned(v), state),
        spec_draw_u64(Span::Pinned(v), state) == (v, state),
{
}

/// A scalar fault budget and a range of width zero around it are the same run.
pub proof fn lemma_scalar_and_width_zero_same_run(seed: u64, a: Space, b: Space, v: u64)
    requires
        a.f == Span::Pinned(v),
        b.f == Span::Range(v, v),
        a.time_limit == b.time_limit,
        a.gst_frac == b.gst_frac,
        a.link_delay_pre == b.link_delay_pre,
        a.link_delay_post == b.link_delay_post,
        a.jitter_pct == b.jitter_pct,
        a.emit_gap == b.emit_gap,
        a.fifo == b.fifo,
        a.events@ == b.events@,
    ensures
        spec_draw_plan(seed, a) == spec_draw_plan(seed, b),
{
    lemma_width_zero_is_pinned(v, seed);
}

/// Link delays drawn from two pinned spans are the pinned values, whatever the generator's
/// state, and consume none of it.
proof fn lemma_pinned_links(x: u64, y: u64, n: nat, rows: nat, s: u64, t: u64)
    ensures
        spec_link_rows(Span::Pinned(x), Span::Pinned(y), n, rows, s).2 == s,
        spec_link_rows(Span::Pinned(x), Span::Pinned(y), n, rows, s).0 == spec_link_rows(Span::Pinned(x), Span::Pinned(y), n, rows, t).0,
        spec_link_rows(Span::Pinned(x), Span::Pinned(y), n, rows, s).1 == spec_link_rows(Span::Pinned(x), Span::Pinned(y), n, rows, t).1,
    decreases rows,
{
    if rows > 0 {
        lemma_pinned_links(x, y, n, (rows - 1) as nat, s, t);
        lemma_pinned_links(x, y, n, (rows - 1) as nat, t, s);
        lemma_pinned_row(x, y, (rows - 1) as nat, n, s, t);
    }
}

proof fn lemma_pinned_row(x: u64, y: u64, i: nat, cols: nat, s: u64, t: u64)
    ensures
        spec_link_row(Span::Pinned(x), Span::Pinned(y), i, cols, s).2 == s,
        spec_link_row(Span::Pinned(x), Span::Pinned(y), i, cols, s).0 == spec_link_row(Span::Pinned(x), Span::Pinned(y), i, cols, t).0,
        spec_link_row(Span::Pinned(x), Span::Pinned(y), i, cols, s).1 == spec_link_row(Span::Pinned(x), Span::Pinned(y), i, cols, t).1,
    decreases cols,
{
    if cols > 0 {
        lemma_pinned_row(x, y, i, (cols - 1) as nat, s, t);
        lemma_pinned_row(x, y, i, (cols - 1) as nat, t, s);
    }
}

/// Changing a pinned field changes that field and nothing else: pinned fields consume no
/// randomness, so every draw after them lands where it did.
pub proof fn lemma_pinned_fields_change_only_themselves(seed: u64, a: Space, b: Space)
    requires
        a.f == b.f,
        a.gst_frac == b.gst_frac,
        a.events@ == b.events@,
        a.time_limit is Pinned && b.time_limit is Pinned,
        a.link_delay_pre is Pinned && b.link_delay_pre is Pinned,
        a.link_delay_post is Pinned && b.link_delay_post is Pinned,
        a.jitter_pct is Pinned && b.jitter_pct is Pinned,
        a.emit_gap is Pinned && b.emit_gap is Pinned,
        a.fifo is Pinned && b.fifo is Pinned,
    ensures
        ({
            let (pa, pb) = (spec_draw_plan(seed, a), spec_draw_plan(seed, b));
            &&& pa.f == pb.f
            &&& pa.nodes == pb.nodes
            &&& pa.gst == pb.gst
            &&& pa.roots == pb.roots
            &&& pa.faults == pb.faults
            &&& pa.stimuli == pb.stimuli
            &&& (a.link_delay_pre == b.link_delay_pre && a.link_delay_post == b.link_delay_post)
                ==> pa.delay_pre == pb.delay_pre && pa.delay_post == pb.delay_post
            &&& pa.jitter_pct == a.jitter_pct->Pinned_0 && pb.jitter_pct == b.jitter_pct->Pinned_0
            &&& pa.emit_gap == a.emit_gap->Pinned_0 && pb.emit_gap == b.emit_gap->Pinned_0
            &&& pa.fifo == a.fifo->Pinned_0 && pb.fifo == b.fifo->Pinned_0
        }),
{
    let (f0, s1) = spec_draw_u64(a.f, seed);
    let f: u64 = if f0 < MAX_F { f0 } else { MAX_F };
    let n = (3 * f + 1) as usize;
    let (gp, s3) = spec_draw_frac(a.gst_frac, s1);
    lemma_pinned_links(a.link_delay_pre->Pinned_0, a.link_delay_post->Pinned_0, n as nat, n as nat, s3, s3);
    lemma_pinned_links(b.link_delay_pre->Pinned_0, b.link_delay_post->Pinned_0, n as nat, n as nat, s3, s3);
}

/// Changing pinned jitter, stagger gap or FIFO, and nothing else, changes those and nothing
/// else, whatever the other spans are: each of the three is either the same span in both spaces
/// or pinned in both, and every other draw lands where it did.
pub proof fn lemma_pinned_timing_changes_only_itself(seed: u64, a: Space, b: Space)
    requires
        a.f == b.f,
        a.time_limit == b.time_limit,
        a.gst_frac == b.gst_frac,
        a.link_delay_pre == b.link_delay_pre,
        a.link_delay_post == b.link_delay_post,
        a.events@ == b.events@,
        a.jitter_pct == b.jitter_pct || (a.jitter_pct is Pinned && b.jitter_pct is Pinned),
        a.emit_gap == b.emit_gap || (a.emit_gap is Pinned && b.emit_gap is Pinned),
        a.fifo == b.fifo || (a.fifo is Pinned && b.fifo is Pinned),
    ensures
        ({
            let (pa, pb) = (spec_draw_plan(seed, a), spec_draw_plan(seed, b));
            &&& pa.f == pb.f
            &&& pa.nodes == pb.nodes
            &&& pa.time_limit == pb.time_limit
            &&& pa.gst == pb.gst
            &&& pa.delay_pre == pb.delay_pre
            &&& pa.delay_post == pb.delay_post
            &&& pa.roots == pb.roots
            &&& pa.faults == pb.faults
            &&& pa.stimuli == pb.stimuli
            &&& a.jitter_pct == b.jitter_pct ==> pa.jitter_pct == pb.jitter_pct
            &&& a.emit_gap == b.emit_gap ==> pa.emit_gap == pb.emit_gap
            &&& a.fifo == b.fifo ==> pa.fifo == pb.fifo
            &&& a.jitter_pct is Pinned ==> pa.jitter_pct == a.jitter_pct->Pinned_0
            &&& b.jitter_pct is Pinned ==> pb.jitter_pct == b.jitter_pct->Pinned_0
            &&& a.emit_gap is Pinned ==> pa.emit_gap == a.emit_gap->Pinned_0
            &&& b.emit_gap is Pinned ==> pb.emit_gap == b.emit_gap->Pinned_0
            &&& a.fifo is Pinned ==> pa.fifo == a.fifo->Pinned_0
            &&& b.fifo is Pinned ==> pb.fifo == b.fifo->Pinned_0
        }),
{
}

/// A space without events draws no root, no fault and no stimulus.
pub proof fn lemma_no_events_nothing_drawn(seed: u64, space: Space)
    requires
        space.events@.len() == 0,
    ensures
        spec_draw_plan(seed, space).roots.len() == 0,
        spec_draw_plan(seed, space).faults.len() == 0,
        spec_draw_plan(seed, space).stimuli.len() == 0,
{
}

/// A child is placed at its parent's instant plus its delay, never before it; a delay of zero is
/// the same logical instant.
pub proof fn lemma_child_never_precedes_parent(parent: Time, delay: u64, roots: Seq<u64>)
    requires
        parent.root < roots.len(),
    ensures
        spec_when(Time { root: parent.root, offset: parent.offset.saturating_add(delay) }, roots) >= spec_when(parent, roots),
        delay == 0 ==> spec_when(Time { root: parent.root, offset: parent.offset.saturating_add(delay) }, roots) == spec_when(parent, roots),
{
}

/// A group of one process is never partitioned: a proper non-empty subset of it has no answer.
pub proof fn lemma_one_process_never_split(p: Plan)
    requires
        p.wf(),
        p.nodes == 1,
    ensures
        forall|k: int| 0 <= k < p.faults@.len() ==> !((#[trigger] p.faults@[k]) is Partition),
{
    assert forall|k: int| 0 <= k < p.faults@.len() implies !((#[trigger] p.faults@[k]) is Partition) by {
        assert(planned_fault_ok(p.faults@[k], 1, p.roots@.len()));
    }
}

// ---------------------------------------------------------------- resolving

/// The name of process `i`.
pub open spec fn spec_name(i: nat) -> Seq<char> {
    seq!['n'] + spec_decimal(i)
}

/// The name of process `i`: `n0`, `n1`, ...
pub fn node_name(i: usize) -> (s: String)
    ensures
        s@ == spec_name(i as nat),
{
    let mut s = String::new();
    push_char(&mut s, 'n');
    push_decimal(&mut s, i as u64);
    assert(s@ =~= spec_name(i as nat));
    s
}

pub proof fn lemma_decimal_len(n: nat)
    ensures
        spec_decimal(n).len() >= 1,
        n >= 10 ==> spec_decimal(n).len() >= 2,
    decreases n,
{
    if n >= 10 {
        lemma_decimal_len(n / 10);
    }
}

pub proof fn lemma_decimal_injective(a: nat, b: nat)
    requires
        spec_decimal(a) == spec_decimal(b),
    ensures
        a == b,
    decreases a,
{
    let da = spec_decimal(a);
    let db = spec_decimal(b);
    lemma_decimal_len(a);
    lemma_decimal_len(b);
    lemma_decimal_len(a / 10);
    lemma_decimal_len(b / 10);
    if a < 10 && b < 10 {
        assert(da[0] == spec_digit(a as int));
        assert(db[0] == spec_digit(b as int));
    } else if a >= 10 && b >= 10 {
        assert(da.last() == spec_digit((a % 10) as int));
        assert(db.last() == spec_digit((b % 10) as int));
        assert(da.drop_last() =~= spec_decimal(a / 10));
        assert(db.drop_last() =~= spec_decimal(b / 10));
        lemma_decimal_injective(a / 10, b / 10);
    } else {
        assert(da.len() != db.len());
    }
}

pub proof fn lemma_name_injective(a: nat, b: nat)
    requires
        spec_name(a) == spec_name(b),
    ensures
        a == b,
{
    assert(spec_name(a).drop_first() =~= spec_decimal(a));
    assert(spec_name(b).drop_first() =~= spec_decimal(b));
    lemma_decimal_injective(a, b);
}

/// Whether `name` names one of the first `n` processes.
pub open spec fn is_node(name: Seq<char>, n: nat) -> bool {
    exists|i: nat| i < n && name == #[trigger] spec_name(i)
}

pub open spec fn fault_ok(f: Fault, n: nat) -> bool {
    match f {
        Fault::Crash { node, .. } => is_node(node@, n),
        Fault::Pause { node, duration, .. } => is_node(node@, n) && duration >= 1,
        Fault::Partition { duration, side, .. } => {
            &&& duration >= 1
            &&& 0 < side@.len() < n
            &&& forall|k: int| 0 <= k < side@.len() ==> is_node((#[trigger] side@[k])@, n)
            &&& forall|a: int, b: int| 0 <= a < b < side@.len() ==> side@[a]@ != side@[b]@
        },
    }
}

/// What every drawn scenario satisfies, and what the simulator and any checker are entitled to
/// assume of one.
pub open spec fn drawn_ok(sc: &Scenario) -> bool {
    &&& sc.f <= MAX_F
    &&& sc.nodes == 3 * sc.f + 1
    &&& sc.time_limit >= 2
    &&& sc.gst <= sc.time_limit
    &&& links_ok(sc.delay_pre@, sc.nodes as nat)
    &&& links_ok(sc.delay_post@, sc.nodes as nat)
    &&& forall|k: int| 0 <= k < sc.faults@.len() ==> fault_ok(#[trigger] sc.faults@[k], sc.nodes as nat)
    // No process crashes twice.
    &&& forall|a: int, b: int|
        0 <= a < b < sc.faults@.len() && (#[trigger] sc.faults@[a]) is Crash && (#[trigger] sc.faults@[b]) is Crash
            ==> sc.faults@[a]->Crash_node@ != sc.faults@[b]->Crash_node@
    &&& forall|a: int, b: int| 0 <= a < b < sc.faults@.len() ==> (#[trigger] sc.faults@[a]).spec_at() <= (#[trigger] sc.faults@[b]).spec_at()
    &&& forall|k: int| 0 <= k < sc.stimuli@.len() ==> is_node((#[trigger] sc.stimuli@[k]).node@, sc.nodes as nat)
    &&& forall|a: int, b: int| 0 <= a < b < sc.stimuli@.len() ==> (#[trigger] sc.stimuli@[a]).at <= (#[trigger] sc.stimuli@[b]).at
}

/// The instant of a planned event, given the instants of the roots.
pub open spec fn spec_when(t: Time, roots: Seq<u64>) -> u64 {
    let s = roots[t.root as int] + t.offset;
    if s > u64::MAX { u64::MAX } else { s as u64 }
}

fn when(t: Time, roots: &Vec<u64>) -> (at: u64)
    requires
        t.root < roots@.len(),
    ensures
        at == spec_when(t, roots@),
{
    roots[t.root].saturating_add(t.offset)
}

/// `order` lists every index of `times` once, by time, stably: equal instants keep the order of
/// their indices.
pub open spec fn stable_order(order: Seq<usize>, times: Seq<u64>) -> bool {
    &&& order.len() == times.len()
    &&& forall|j: int| 0 <= j < order.len() ==> (#[trigger] order[j]) < times.len()
    &&& forall|a: int, b: int| 0 <= a < b < order.len() ==> order[a] != order[b]
    &&& forall|i: usize| i < times.len() ==> #[trigger] order.contains(i)
    &&& forall|a: int, b: int| #![trigger order[a], order[b]] 0 <= a < b < order.len() ==>
        times[order[a] as int] < times[order[b] as int]
        || (times[order[a] as int] == times[order[b] as int] && order[a] < order[b])
}

/// There is one stable order: two orders of the same instants, each listing every index once,
/// by time and then by index, are the same order.
pub proof fn lemma_stable_order_unique(o1: Seq<usize>, o2: Seq<usize>, times: Seq<u64>)
    requires
        stable_order(o1, times),
        stable_order(o2, times),
    ensures
        o1 == o2,
{
    assert forall|j: int| 0 <= j < o1.len() implies o1[j] == o2[j] by {
        lemma_stable_prefix(o1, o2, times, j);
    }
    assert(o1 =~= o2);
}

proof fn lemma_stable_prefix(o1: Seq<usize>, o2: Seq<usize>, times: Seq<u64>, j: int)
    requires
        stable_order(o1, times),
        stable_order(o2, times),
        0 <= j < o1.len(),
    ensures
        forall|i: int| 0 <= i <= j ==> o1[i] == o2[i],
    decreases j,
{
    if j > 0 {
        lemma_stable_prefix(o1, o2, times, j - 1);
    }
    let a = o1[j];
    let b = o2[j];
    if a != b {
        assert(o2.contains(a));
        let p = choose|p: int| 0 <= p < o2.len() && o2[p] == a;
        assert(o1.contains(b));
        let q = choose|q: int| 0 <= q < o1.len() && o1[q] == b;
        if p < j {
            assert(o1[p] == o2[p]);
            assert(o1[p] != o1[j]);
        }
        if q < j {
            assert(o1[q] == o2[q]);
            assert(o2[q] != o2[j]);
        }
        assert(p > j && q > j);
        assert(o2[j] == b && o2[p] == a);
        assert(o1[j] == a && o1[q] == b);
    }
}

/// The indices of `times`, ordered by time, stably: equal instants keep the order they were
/// drawn in.
fn time_order(times: &Vec<u64>) -> (order: Vec<usize>)
    ensures
        stable_order(order@, times@),
        order@.len() == times@.len(),
        forall|j: int| 0 <= j < order@.len() ==> (#[trigger] order@[j]) < times@.len(),
        forall|a: int, b: int| 0 <= a < b < order@.len() ==> order@[a] != order@[b],
        forall|a: int, b: int| 0 <= a < b < order@.len() ==>
            times@[order@[a] as int] < times@[order@[b] as int]
            || (times@[order@[a] as int] == times@[order@[b] as int] && order@[a] < order@[b]),
{
    let mut order: Vec<usize> = Vec::new();
    let mut idx: usize = 0;
    while idx < times.len()
        invariant
            idx <= times@.len(),
            order@.len() == idx,
            forall|j: int| 0 <= j < order@.len() ==> (#[trigger] order@[j]) < idx,
            forall|a: int, b: int| 0 <= a < b < order@.len() ==> order@[a] != order@[b],
            forall|a: int, b: int| 0 <= a < b < order@.len() ==>
                times@[order@[a] as int] < times@[order@[b] as int]
                || (times@[order@[a] as int] == times@[order@[b] as int] && order@[a] < order@[b]),
            forall|i: usize| i < idx ==> #[trigger] order@.contains(i),
        decreases times@.len() - idx,
    {
        let mut pos = order.len();
        while pos > 0 && times[order[pos - 1]] > times[idx]
            invariant
                pos <= order@.len(),
                idx < times@.len(),
                forall|j: int| 0 <= j < order@.len() ==> (#[trigger] order@[j]) < idx,
                forall|j: int| pos <= j < order@.len() ==> times@[order@[j] as int] > times@[idx as int],
            decreases pos,
        {
            pos = pos - 1;
        }
        let ghost before = order@;
        order.insert(pos, idx);
        proof {
            assert(order@ == before.insert(pos as int, idx));
            assert forall|i: usize| i < idx + 1 implies #[trigger] order@.contains(i) by {
                if i == idx {
                    assert(order@[pos as int] == idx);
                } else {
                    assert(before.contains(i));
                    let q = choose|q: int| 0 <= q < before.len() && before[q] == i;
                    if q < pos {
                        assert(order@[q] == before[q]);
                    } else {
                        assert(order@[q + 1] == before[q]);
                    }
                }
            }
            assert forall|j: int| 0 <= j < order@.len() implies (#[trigger] order@[j]) < idx + 1 by {
                if j < pos { assert(order@[j] == before[j]); }
                else if j > pos { assert(order@[j] == before[j - 1]); }
            }
            assert forall|a: int, b: int| 0 <= a < b < order@.len() implies order@[a] != order@[b] by {
                if a < pos { assert(order@[a] == before[a]); }
                if a > pos { assert(order@[a] == before[a - 1]); }
                if b < pos { assert(order@[b] == before[b]); }
                if b > pos { assert(order@[b] == before[b - 1]); }
            }
            assert forall|a: int, b: int| 0 <= a < b < order@.len() implies
                times@[order@[a] as int] < times@[order@[b] as int]
                || (times@[order@[a] as int] == times@[order@[b] as int] && order@[a] < order@[b]) by {
                if a == pos {
                    assert(order@[b] == before[b - 1]);
                } else if b == pos {
                    assert(order@[a] == before[a]);
                    assert(before[a] < idx);
                    if pos > 0 && a < pos - 1 {
                        assert(order@[pos - 1] == before[pos - 1]);
                    }
                } else {
                    let sa = if a < pos { a } else { a - 1 };
                    let sb = if b < pos { b } else { b - 1 };
                    assert(order@[a] == before[sa]);
                    assert(order@[b] == before[sb]);
                }
            }
        }
        idx = idx + 1;
    }
    order
}

/// The instant a planned fault happens at.
pub open spec fn fault_when(pf: FaultPlan, roots: Seq<u64>) -> u64 {
    match pf {
        FaultPlan::Crash { at, .. } => spec_when(at, roots),
        FaultPlan::Pause { at, .. } => spec_when(at, roots),
        FaultPlan::Partition { at, .. } => spec_when(at, roots),
    }
}

/// `f` is the planned fault `pf`, dated and with its processes named.
pub open spec fn fault_made(f: Fault, pf: FaultPlan, roots: Seq<u64>) -> bool {
    match (f, pf) {
        (Fault::Crash { at, node }, FaultPlan::Crash { at: t, node: i }) =>
            at == spec_when(t, roots) && node@ == spec_name(i as nat),
        (Fault::Pause { at, node, duration }, FaultPlan::Pause { at: t, node: i, duration: d }) =>
            at == spec_when(t, roots) && node@ == spec_name(i as nat) && duration == d,
        (Fault::Partition { at, duration, side }, FaultPlan::Partition { at: t, duration: d, side: s }) => {
            &&& at == spec_when(t, roots)
            &&& duration == d
            &&& side@.len() == s.len()
            &&& forall|k: int| 0 <= k < s.len() ==> (#[trigger] side@[k])@ == spec_name(s[k] as nat)
        },
        _ => false,
    }
}

fn make_fault(pf: &PlannedFault, roots: &Vec<u64>, n: usize) -> (f: Fault)
    requires
        planned_fault_ok(*pf, n as nat, roots@.len()),
    ensures
        fault_made(f, pf@, roots@),
        fault_ok(f, n as nat),
{
    match pf {
        PlannedFault::Crash { at, node } => {
            let name = node_name(*node);
            proof { assert(spec_name(*node as nat) == name@); }
            Fault::Crash { at: when(*at, roots), node: name }
        },
        PlannedFault::Pause { at, node, duration } => {
            let name = node_name(*node);
            proof { assert(spec_name(*node as nat) == name@); }
            Fault::Pause { at: when(*at, roots), node: name, duration: *duration }
        },
        PlannedFault::Partition { at, duration, side } => {
            let mut names: Vec<String> = Vec::new();
            let mut k: usize = 0;
            while k < side.len()
                invariant
                    k <= side@.len(),
                    names@.len() == k,
                    distinct_below(side@, n as nat),
                    forall|j: int| 0 <= j < k ==> (#[trigger] names@[j])@ == spec_name(side@[j] as nat),
                decreases side@.len() - k,
            {
                names.push(node_name(side[k]));
                k = k + 1;
            }
            let f = Fault::Partition { at: when(*at, roots), duration: *duration, side: names };
            proof {
                assert forall|j: int| 0 <= j < names@.len() implies is_node((#[trigger] names@[j])@, n as nat) by {
                    assert(names@[j]@ == spec_name(side@[j] as nat));
                }
                assert forall|a: int, b: int| 0 <= a < b < names@.len() implies names@[a]@ != names@[b]@ by {
                    if names@[a]@ == names@[b]@ {
                        lemma_name_injective(side@[a] as nat, side@[b] as nat);
                    }
                }
            }
            f
        },
    }
}

/// `faults` are the planned faults taken in `order`, each dated and named, and `order` lists the
/// planned faults by instant, equal instants in the order they were drawn: a stable sort, which
/// leaves exactly one such order.
pub open spec fn faults_from(order: Seq<usize>, faults: Seq<Fault>, planned: Seq<FaultPlan>, roots: Seq<u64>) -> bool {
    &&& faults.len() == planned.len()
    &&& stable_order(order, fault_times(planned, roots))
    &&& forall|j: int| 0 <= j < order.len() ==> fault_made(faults[j], planned[#[trigger] order[j] as int], roots)
}

/// The instant of each planned fault.
pub open spec fn fault_times(planned: Seq<FaultPlan>, roots: Seq<u64>) -> Seq<u64> {
    Seq::new(planned.len(), |i: int| fault_when(planned[i], roots))
}

/// The instant of each planned stimulus.
pub open spec fn stimulus_times(planned: Seq<StimulusPlan>, roots: Seq<u64>) -> Seq<u64> {
    Seq::new(planned.len(), |i: int| spec_when(planned[i].at, roots))
}

/// `stimuli` are the planned stimuli taken in `order`, each dated and named, bodies untouched, and
/// `order` lists them by instant, equal instants in the order they were drawn.
pub open spec fn stimuli_from(order: Seq<usize>, stimuli: Seq<Stimulus>, planned: Seq<StimulusPlan>, roots: Seq<u64>) -> bool {
    &&& stimuli.len() == planned.len()
    &&& stable_order(order, stimulus_times(planned, roots))
    &&& forall|j: int| 0 <= j < order.len() ==>
        stimuli[j].at == spec_when(planned[#[trigger] order[j] as int].at, roots)
        && stimuli[j].node@ == spec_name(planned[order[j] as int].node as nat)
        && stimuli[j].body@ == planned[order[j] as int].body
}

/// `sc` is what resolving a plan `p` gives, its GST landing at `gst_at` and its roots at `roots`.
pub open spec fn resolved(sc: Scenario, p: PlanV, gst_at: u64, roots: Seq<u64>) -> bool {
    &&& sc.drawn is None
    &&& sc.nodes == p.nodes
    &&& sc.f == p.f
    &&& sc.time_limit == p.time_limit
    &&& sc.gst == (if gst_at < p.time_limit { gst_at } else { p.time_limit })
    &&& sc.fifo == p.fifo
    &&& sc.jitter_pct == p.jitter_pct
    &&& sc.emit_gap == p.emit_gap
    &&& rows_view(sc.delay_pre@) == p.delay_pre
    &&& rows_view(sc.delay_post@) == p.delay_post
    &&& sc.delay_pre_default == crate::scenario::DEFAULT_DELAY_PRE
    &&& sc.delay_post_default == crate::scenario::DEFAULT_DELAY_POST
    &&& exists|order: Seq<usize>| #[trigger] faults_from(order, sc.faults@, p.faults, roots)
    &&& exists|order: Seq<usize>| #[trigger] stimuli_from(order, sc.stimuli@, p.stimuli, roots)
}

/// Two faults alike in everything they say.
pub open spec fn same_fault(x: Fault, y: Fault) -> bool {
    match (x, y) {
        (Fault::Crash { at, node }, Fault::Crash { at: t, node: m }) => at == t && node@ == m@,
        (Fault::Pause { at, node, duration }, Fault::Pause { at: t, node: m, duration: d }) =>
            at == t && node@ == m@ && duration == d,
        (Fault::Partition { at, duration, side }, Fault::Partition { at: t, duration: d, side: s }) => {
            &&& at == t
            &&& duration == d
            &&& side@.len() == s@.len()
            &&& forall|k: int| 0 <= k < side@.len() ==> (#[trigger] side@[k])@ == s@[k]@
        },
        _ => false,
    }
}

/// Two lists of faults alike, one by one.
pub open spec fn same_faults(xs: Seq<Fault>, ys: Seq<Fault>) -> bool {
    xs.len() == ys.len() && forall|k: int| 0 <= k < xs.len() ==> same_fault(#[trigger] xs[k], ys[k])
}

/// Two lists of stimuli alike, one by one: instant, process and body.
pub open spec fn same_stimuli(xs: Seq<Stimulus>, ys: Seq<Stimulus>) -> bool {
    &&& xs.len() == ys.len()
    &&& forall|k: int| 0 <= k < xs.len() ==>
        (#[trigger] xs[k]).at == ys[k].at && xs[k].node@ == ys[k].node@ && xs[k].body@ == ys[k].body@
}

/// Two scenarios alike in everything a run replays.
pub open spec fn alike(a: Scenario, b: Scenario) -> bool {
    &&& a.drawn is None <==> b.drawn is None
    &&& a.nodes == b.nodes
    &&& a.f == b.f
    &&& a.gst == b.gst
    &&& a.time_limit == b.time_limit
    &&& a.fifo == b.fifo
    &&& a.jitter_pct == b.jitter_pct
    &&& a.emit_gap == b.emit_gap
    &&& rows_view(a.delay_pre@) == rows_view(b.delay_pre@)
    &&& rows_view(a.delay_post@) == rows_view(b.delay_post@)
    &&& a.delay_pre_default == b.delay_pre_default
    &&& a.delay_post_default == b.delay_post_default
    &&& same_faults(a.faults@, b.faults@)
    &&& same_stimuli(a.stimuli@, b.stimuli@)
}

/// Faults made from the same planned faults at the same instants are alike: the order is the one
/// stable order, and each fault says what its planned fault says.
pub proof fn lemma_faults_determined(xs: Seq<Fault>, ys: Seq<Fault>, planned: Seq<FaultPlan>, roots: Seq<u64>)
    requires
        exists|order: Seq<usize>| #[trigger] faults_from(order, xs, planned, roots),
        exists|order: Seq<usize>| #[trigger] faults_from(order, ys, planned, roots),
    ensures
        same_faults(xs, ys),
{
    let o1 = choose|order: Seq<usize>| #[trigger] faults_from(order, xs, planned, roots);
    let o2 = choose|order: Seq<usize>| #[trigger] faults_from(order, ys, planned, roots);
    lemma_stable_order_unique(o1, o2, fault_times(planned, roots));
    assert forall|k: int| 0 <= k < xs.len() implies same_fault(#[trigger] xs[k], ys[k]) by {
        assert(fault_made(xs[k], planned[o1[k] as int], roots));
        assert(fault_made(ys[k], planned[o1[k] as int], roots));
    }
}

/// Stimuli made from the same planned stimuli at the same instants are alike.
pub proof fn lemma_stimuli_determined(xs: Seq<Stimulus>, ys: Seq<Stimulus>, planned: Seq<StimulusPlan>, roots: Seq<u64>)
    requires
        exists|order: Seq<usize>| #[trigger] stimuli_from(order, xs, planned, roots),
        exists|order: Seq<usize>| #[trigger] stimuli_from(order, ys, planned, roots),
    ensures
        same_stimuli(xs, ys),
{
    let o1 = choose|order: Seq<usize>| #[trigger] stimuli_from(order, xs, planned, roots);
    let o2 = choose|order: Seq<usize>| #[trigger] stimuli_from(order, ys, planned, roots);
    lemma_stable_order_unique(o1, o2, stimulus_times(planned, roots));
    assert forall|k: int| 0 <= k < xs.len() implies
        (#[trigger] xs[k]).at == ys[k].at && xs[k].node@ == ys[k].node@ && xs[k].body@ == ys[k].body@ by {
        assert(o1[k] == o2[k]);
    }
}

/// Resolving is a function of the plan and of where its placements landed: two scenarios
/// resolved from one plan with the same instants are alike.
pub proof fn lemma_resolve_is_a_function(a: Scenario, b: Scenario, p: PlanV, gst_at: u64, roots: Seq<u64>)
    requires
        resolved(a, p, gst_at, roots),
        resolved(b, p, gst_at, roots),
    ensures
        alike(a, b),
{
    lemma_faults_determined(a.faults@, b.faults@, p.faults, roots);
    lemma_stimuli_determined(a.stimuli@, b.stimuli@, p.stimuli, roots);
}

/// The draw is a function of the seed and the space alone: every plan drawn from them is the
/// same plan (so its placements land at the same instants), and every scenario resolved from it
/// with those instants is alike.
pub proof fn lemma_the_draw_is_a_function(seed: u64, space: Space, p1: PlanV, p2: PlanV, gst_at: u64, roots: Seq<u64>, a: Scenario, b: Scenario)
    requires
        p1 == spec_draw_plan(seed, space),
        p2 == spec_draw_plan(seed, space),
        resolved(a, p1, gst_at, roots),
        resolved(b, p2, gst_at, roots),
    ensures
        p1 == p2,
        alike(a, b),
{
    lemma_resolve_is_a_function(a, b, p1, gst_at, roots);
}

/// Changing pinned jitter, stagger gap or FIFO, and nothing else, changes those and nothing else
/// down to the scenario: the GST, the group, the link delays, the faults and the stimuli come out
/// alike, and a pinned field is its pinned value.
pub proof fn lemma_pinned_fields_change_only_themselves_in_the_scenario(
    seed: u64, sa: Space, sb: Space, gst_at: u64, roots: Seq<u64>, a: Scenario, b: Scenario,
)
    requires
        sa.f == sb.f,
        sa.time_limit == sb.time_limit,
        sa.gst_frac == sb.gst_frac,
        sa.link_delay_pre == sb.link_delay_pre,
        sa.link_delay_post == sb.link_delay_post,
        sa.events@ == sb.events@,
        sa.jitter_pct == sb.jitter_pct || (sa.jitter_pct is Pinned && sb.jitter_pct is Pinned),
        sa.emit_gap == sb.emit_gap || (sa.emit_gap is Pinned && sb.emit_gap is Pinned),
        sa.fifo == sb.fifo || (sa.fifo is Pinned && sb.fifo is Pinned),
        resolved(a, spec_draw_plan(seed, sa), gst_at, roots),
        resolved(b, spec_draw_plan(seed, sb), gst_at, roots),
    ensures
        a.nodes == b.nodes && a.f == b.f,
        a.gst == b.gst,
        a.time_limit == b.time_limit,
        rows_view(a.delay_pre@) == rows_view(b.delay_pre@),
        rows_view(a.delay_post@) == rows_view(b.delay_post@),
        same_faults(a.faults@, b.faults@),
        same_stimuli(a.stimuli@, b.stimuli@),
        sa.jitter_pct == sb.jitter_pct ==> a.jitter_pct == b.jitter_pct,
        sa.emit_gap == sb.emit_gap ==> a.emit_gap == b.emit_gap,
        sa.fifo == sb.fifo ==> a.fifo == b.fifo,
        sa.jitter_pct is Pinned ==> a.jitter_pct == sa.jitter_pct->Pinned_0,
        sb.jitter_pct is Pinned ==> b.jitter_pct == sb.jitter_pct->Pinned_0,
        sa.emit_gap is Pinned ==> a.emit_gap == sa.emit_gap->Pinned_0,
        sb.emit_gap is Pinned ==> b.emit_gap == sb.emit_gap->Pinned_0,
        sa.fifo is Pinned ==> a.fifo == sa.fifo->Pinned_0,
        sb.fifo is Pinned ==> b.fifo == sb.fifo->Pinned_0,
{
    lemma_pinned_timing_changes_only_itself(seed, sa, sb);
    let (pa, pb) = (spec_draw_plan(seed, sa), spec_draw_plan(seed, sb));
    lemma_faults_determined(a.faults@, b.faults@, pa.faults, roots);
    lemma_stimuli_determined(a.stimuli@, b.stimuli@, pa.stimuli, roots);
}

/// The order of keys in stimulus bodies changes nothing down to the scenario: two spaces the same
/// in everything but that give, from every seed, scenarios alike in everything a run replays.
pub proof fn lemma_key_order_changes_no_scenario(
    seed: u64, sa: Space, sb: Space, gst_at: u64, roots: Seq<u64>, a: Scenario, b: Scenario,
)
    requires
        sa.f == sb.f,
        sa.time_limit == sb.time_limit,
        sa.gst_frac == sb.gst_frac,
        sa.link_delay_pre == sb.link_delay_pre,
        sa.link_delay_post == sb.link_delay_post,
        sa.jitter_pct == sb.jitter_pct,
        sa.emit_gap == sb.emit_gap,
        sa.fifo == sb.fifo,
        event_lists_alike(sa.events@, sb.events@),
        resolved(a, spec_draw_plan(seed, sa), gst_at, roots),
        resolved(b, spec_draw_plan(seed, sb), gst_at, roots),
    ensures
        alike(a, b),
{
    lemma_key_order_changes_no_draw(seed, sa, sb);
    lemma_resolve_is_a_function(a, b, spec_draw_plan(seed, sa), gst_at, roots);
}

/// Date every planned event, sort the faults and the stimuli by instant, and name the
/// processes.
///
/// `gst_at` is where the GST's placement landed, and `root_ats[k]` where the `k`-th root's did:
/// the fraction of the time limit each stands for, computed by the caller.
pub fn resolve(plan: Plan, gst_at: u64, root_ats: &Vec<u64>) -> (sc: Scenario)
    requires
        plan.wf(),
        root_ats@.len() == plan.roots@.len(),
    ensures
        drawn_ok(&sc),
        resolved(sc, plan@, gst_at, root_ats@),
        sc.drawn is None,
        sc.nodes == plan.nodes,
        sc.f == plan.f,
        sc.time_limit == plan.time_limit,
        sc.gst == if gst_at < plan.time_limit { gst_at } else { plan.time_limit },
        sc.fifo == plan.fifo,
        sc.jitter_pct == plan.jitter_pct,
        sc.emit_gap == plan.emit_gap,
        sc.delay_pre == plan.delay_pre,
        sc.delay_post == plan.delay_post,
        sc.delay_pre_default == crate::scenario::DEFAULT_DELAY_PRE,
        sc.delay_post_default == crate::scenario::DEFAULT_DELAY_POST,
        sc.faults@.len() == plan.faults@.len(),
        exists|order: Seq<usize>| #[trigger] faults_from(order, sc.faults@, faults_view(plan.faults@), root_ats@),
        sc.stimuli@.len() == plan.stimuli@.len(),
        exists|order: Seq<usize>| #[trigger] stimuli_from(order, sc.stimuli@, stimuli_view(plan.stimuli@), root_ats@),
{
    let n = plan.nodes;
    let ghost roots = root_ats@;

    // Faults.
    let mut times: Vec<u64> = Vec::new();
    let mut k: usize = 0;
    while k < plan.faults.len()
        invariant
            plan.wf(),
            n == plan.nodes,
            root_ats@.len() == plan.roots@.len(),
            k <= plan.faults@.len(),
            times@.len() == k,
            forall|j: int| 0 <= j < k ==> #[trigger] times@[j] == fault_when(plan.faults@[j]@, root_ats@),
        decreases plan.faults@.len() - k,
    {
        assert(planned_fault_ok(plan.faults@[k as int], n as nat, plan.roots@.len()));
        let t = match &plan.faults[k] {
            PlannedFault::Crash { at, .. } => when(*at, root_ats),
            PlannedFault::Pause { at, .. } => when(*at, root_ats),
            PlannedFault::Partition { at, .. } => when(*at, root_ats),
        };
        times.push(t);
        k = k + 1;
    }
    let order = time_order(&times);
    let mut faults: Vec<Fault> = Vec::new();
    let mut j: usize = 0;
    while j < order.len()
        invariant
            plan.wf(),
            n == plan.nodes,
            root_ats@.len() == plan.roots@.len(),
            times@.len() == plan.faults@.len(),
            forall|x: int| 0 <= x < times@.len() ==> #[trigger] times@[x] == fault_when(plan.faults@[x]@, root_ats@),
            order@.len() == times@.len(),
            forall|x: int| 0 <= x < order@.len() ==> (#[trigger] order@[x]) < times@.len(),
            j <= order@.len(),
            faults@.len() == j,
            forall|x: int| 0 <= x < j ==> fault_made(#[trigger] faults@[x], plan.faults@[order@[x] as int]@, root_ats@),
            forall|x: int| 0 <= x < j ==> fault_ok(#[trigger] faults@[x], n as nat),
        decreases order@.len() - j,
    {
        let idx = order[j];
        assert(planned_fault_ok(plan.faults@[idx as int], n as nat, plan.roots@.len()));
        let f = make_fault(&plan.faults[idx], root_ats, n);
        faults.push(f);
        j = j + 1;
    }
    proof {
        // Sorted: a fault's instant is its planned instant.
        assert forall|a: int| 0 <= a < faults@.len() implies (#[trigger] faults@[a]).spec_at() == times@[order@[a] as int] by {
            assert(fault_made(faults@[a], plan.faults@[order@[a] as int]@, root_ats@));
        }
        // No process crashes twice: two crashes come from two planned crashes.
        assert forall|a: int, b: int|
            0 <= a < b < faults@.len() && (#[trigger] faults@[a]) is Crash && (#[trigger] faults@[b]) is Crash
            implies faults@[a]->Crash_node@ != faults@[b]->Crash_node@ by {
            let pa = plan.faults@[order@[a] as int];
            let pb = plan.faults@[order@[b] as int];
            assert(fault_made(faults@[a], pa@, root_ats@));
            assert(fault_made(faults@[b], pb@, root_ats@));
            assert(pa is Crash && pb is Crash);
            if faults@[a]->Crash_node@ == faults@[b]->Crash_node@ {
                lemma_name_injective(pa->Crash_node as nat, pb->Crash_node as nat);
                if order@[a] < order@[b] {
                    assert(crashes_distinct(plan.faults@));
                    assert(plan.faults@[order@[a] as int] is Crash);
                } else {
                    assert(plan.faults@[order@[b] as int] is Crash);
                }
            }
        }
        let fv = faults_view(plan.faults@);
        assert(times@ =~= fault_times(fv, root_ats@));
        assert(faults_from(order@, faults@, fv, root_ats@));
    }

    // Stimuli.
    let mut stimes: Vec<u64> = Vec::new();
    let mut k: usize = 0;
    while k < plan.stimuli.len()
        invariant
            plan.wf(),
            root_ats@.len() == plan.roots@.len(),
            k <= plan.stimuli@.len(),
            stimes@.len() == k,
            forall|j: int| 0 <= j < k ==> #[trigger] stimes@[j] == spec_when(plan.stimuli@[j].at, root_ats@),
        decreases plan.stimuli@.len() - k,
    {
        let t = when(plan.stimuli[k].at, root_ats);
        stimes.push(t);
        k = k + 1;
    }
    let sorder = time_order(&stimes);
    let mut stimuli: Vec<Stimulus> = Vec::new();
    let mut j: usize = 0;
    while j < sorder.len()
        invariant
            plan.wf(),
            n == plan.nodes,
            root_ats@.len() == plan.roots@.len(),
            stimes@.len() == plan.stimuli@.len(),
            forall|x: int| 0 <= x < stimes@.len() ==> #[trigger] stimes@[x] == spec_when(plan.stimuli@[x].at, root_ats@),
            sorder@.len() == stimes@.len(),
            forall|x: int| 0 <= x < sorder@.len() ==> (#[trigger] sorder@[x]) < stimes@.len(),
            j <= sorder@.len(),
            stimuli@.len() == j,
            forall|x: int| 0 <= x < j ==> (#[trigger] stimuli@[x]).at == stimes@[sorder@[x] as int]
                && stimuli@[x].node@ == spec_name(plan.stimuli@[sorder@[x] as int].node as nat)
                && stimuli@[x].body@ == plan.stimuli@[sorder@[x] as int].body@,
        decreases sorder@.len() - j,
    {
        let idx = sorder[j];
        let ps = &plan.stimuli[idx];
        let name = node_name(ps.node);
        let body = ps.body.duplicate();
        stimuli.push(Stimulus { at: stimes[idx], node: name, body });
        j = j + 1;
    }
    proof {
        assert forall|x: int| 0 <= x < stimuli@.len() implies is_node((#[trigger] stimuli@[x]).node@, n as nat) by {
            let i = plan.stimuli@[sorder@[x] as int].node as nat;
            assert(stimuli@[x].node@ == spec_name(i));
        }
        let sv = stimuli_view(plan.stimuli@);
        assert(stimes@ =~= stimulus_times(sv, root_ats@));
        assert(stimuli_from(sorder@, stimuli@, sv, root_ats@));
    }

    let time_limit = plan.time_limit;
    let ghost pv = plan@;
    let ghost (fo, so) = (order@, sorder@);
    let sc = Scenario {
        drawn: None,
        nodes: n,
        f: plan.f as usize,
        gst: if gst_at < time_limit { gst_at } else { time_limit },
        time_limit,
        fifo: plan.fifo,
        delay_pre_default: d_pre(),
        delay_post_default: d_post(),
        delay_pre: plan.delay_pre,
        delay_post: plan.delay_post,
        jitter_pct: plan.jitter_pct,
        emit_gap: plan.emit_gap,
        faults,
        stimuli,
    };
    proof {
        assert(faults_from(fo, sc.faults@, pv.faults, root_ats@));
        assert(stimuli_from(so, sc.stimuli@, pv.stimuli, root_ats@));
    }
    sc
}

} // verus!
