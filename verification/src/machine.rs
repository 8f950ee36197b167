//! The simulator as a state machine over values: what one decision does to the state, what a
//! node's outputs do to it, and what the caller is told.
//!
//! [`crate::sim::Sim`] is held to this model: each of its operations ends in the state the model
//! gives, and returns what the model says.

use vstd::prelude::*;
use crate::json::{JsonV, spec_as_u64, spec_get, spec_str_field, spec_find, spec_canonical, distinct_keys, lemma_canonical_field};
use crate::journal::{spec_record_line, spec_note_line};
use crate::proto::{EnvelopeV, harness_name};
use crate::rng::{spec_advance, spec_mix};
use crate::scenario::{Fault, Scenario};
use crate::draw::spec_name;
use crate::node::{NodeError, spec_message};
use crate::sim::{spec_arrival, spec_died_message, spec_died_reason, TIEBREAK_SALT};
use crate::json::{reorders, lemma_reordered_multiset};
use vstd::seq_lib::{to_multiset_remove, to_multiset_contains};

verus! {

/// A queued event as a value.
pub enum EvV {
    Deliver { from: usize, env: EnvelopeV },
    Timer { node: usize, timer_id: u64 },
    Fault(usize),
    Stimulus(usize),
}

/// An event waiting in the queue, as a value.
pub struct QueuedV {
    pub time: u64,
    pub tiebreak: u64,
    pub seq: u64,
    pub ev: EvV,
}

/// `a` is taken before `b`: earlier first, then by tiebreak, then by scheduling order.
pub open spec fn taken_before(a: QueuedV, b: QueuedV) -> bool {
    a.time < b.time
        || (a.time == b.time && a.tiebreak < b.tiebreak)
        || (a.time == b.time && a.tiebreak == b.tiebreak && a.seq <= b.seq)
}

/// The simulator's state.
pub struct SimV {
    /// The tiebreak generator's state.
    pub rng: u64,
    pub alive: Seq<bool>,
    /// What waits in the queue.
    pub queue: vstd::multiset::Multiset<QueuedV>,
    pub journal: Seq<JsonV>,
    pub now: u64,
    /// How many events were ever scheduled.
    pub seq: u64,
    pub paused_until: Seq<u64>,
    pub partition_until: u64,
    pub partition_side: Seq<bool>,
    /// Messages sent on each link `from * n + to`.
    pub link_count: Seq<u64>,
    /// The last delivery instant scheduled on each link.
    pub last_sched: Seq<u64>,
    /// The next process to initialise.
    pub init_next: nat,
    /// How many steps each process has taken.
    pub steps: Seq<u64>,
    /// The process whose outputs are awaited.
    pub awaiting: Option<usize>,
    /// Whether the run is over, whether well, and why.
    pub outcome: Option<(bool, Seq<char>)>,
}

/// How a run ended, as a value.
pub struct OutcomeV {
    pub ok: bool,
    pub reason: Seq<char>,
    pub end_time: u64,
    pub events: u64,
}

/// What the caller is told to do, as a value.
pub enum ActionV {
    Step { node: usize, event: EnvelopeV },
    Kill { node: usize },
    Continue,
    Done(OutcomeV),
}

// ------------------------------------------------------------------ pieces

/// The process named `name` in a group of `n`, if any.
pub open spec fn spec_index(name: Seq<char>, n: nat) -> Option<usize> {
    if exists|i: nat| i < n && spec_name(i) == name {
        Some((choose|i: nat| i < n && spec_name(i) == name) as usize)
    } else {
        None
    }
}

/// The earliest event waiting.
pub open spec fn spec_earliest(q: vstd::multiset::Multiset<QueuedV>) -> QueuedV {
    choose|x: QueuedV| q.contains(x) && forall|y: QueuedV| q.contains(y) ==> taken_before(x, y)
}

/// `a + b`, held at the largest `u64`.
pub open spec fn spec_sat_add(a: u64, b: u64) -> u64 {
    if a + b > u64::MAX { u64::MAX } else { (a + b) as u64 }
}

/// A line recording an envelope at `t`.
pub open spec fn spec_record(v: SimV, t: u64, kind: Seq<char>, env: EnvelopeV) -> SimV {
    SimV { journal: v.journal.push(spec_record_line(v.journal.len() as u64, t, kind, env.src, env.dest, env.body)), ..v }
}

/// A line noting what the harness did, now.
pub open spec fn spec_note(v: SimV, kind: Seq<char>, detail: JsonV) -> SimV {
    SimV { journal: v.journal.push(spec_note_line(v.journal.len() as u64, v.now, kind, detail)), ..v }
}

/// Queue `ev` at `time`, with the next tiebreak the generator gives.
pub open spec fn spec_schedule(v: SimV, time: u64, ev: EvV) -> SimV {
    let next = spec_advance(v.rng);
    SimV {
        rng: next,
        queue: v.queue.insert(QueuedV { time, tiebreak: spec_mix(next), seq: v.seq, ev }),
        seq: (v.seq + 1) as u64,
        ..v
    }
}

/// An object of one entry.
pub open spec fn obj1_v(k: Seq<char>, x: JsonV) -> JsonV {
    JsonV::Object(seq![(k, x)])
}

/// An object of two entries, in that order.
pub open spec fn obj2_v(k1: Seq<char>, x1: JsonV, k2: Seq<char>, x2: JsonV) -> JsonV {
    JsonV::Object(seq![(k1, x1), (k2, x2)])
}

/// End the run, well or not: the last line says why, and how many events were ever scheduled.
pub open spec fn spec_finish(v: SimV, ok: bool, reason: Seq<char>) -> SimV {
    let w = spec_note(v, "end"@, obj2_v("reason"@, JsonV::Str(reason), "scheduled"@, JsonV::Uint(v.seq)));
    SimV { outcome: Some((ok, reason)), ..w }
}

/// The run ended well, for `reason`.
pub open spec fn spec_done(v: SimV, reason: Seq<char>) -> ActionV {
    ActionV::Done(OutcomeV { ok: true, reason, end_time: v.now, events: v.seq })
}

/// The body of the `init` process `i` gets first.
pub open spec fn spec_init_body(sc: Scenario, i: nat) -> JsonV {
    JsonV::Object(seq![
        ("type"@, JsonV::Str("init"@)),
        ("node_id"@, JsonV::Str(spec_name(i))),
        ("node_ids"@, JsonV::Array(Seq::new(sc.nodes as nat, |k: int| JsonV::Str(spec_name(k as nat))))),
        ("n"@, JsonV::Uint(sc.nodes as u64)),
        ("f"@, JsonV::Uint(sc.f as u64)),
        ("provided"@, JsonV::Array(seq![])),
    ])
}

// ------------------------------------------------------------------ a decision

/// Initialise the next process: journal its `init`, and step it unless it is already dead.
pub open spec fn spec_init_step(sc: Scenario, v: SimV) -> (SimV, ActionV) {
    let i = v.init_next;
    let env = EnvelopeV { src: harness_name(), dest: spec_name(i), body: spec_init_body(sc, i) };
    let w = spec_record(SimV { init_next: i + 1, ..v }, 0, "init"@, env);
    if !v.alive[i as int] {
        (w, ActionV::Continue)
    } else {
        (SimV { awaiting: Some(i as usize), ..w }, ActionV::Step { node: i as usize, event: env })
    }
}

/// Apply the `i`-th fault of the scenario now; a crash names the process to kill.
pub open spec fn spec_apply_fault(sc: Scenario, i: int, v: SimV) -> (SimV, Option<usize>) {
    let n = sc.nodes as nat;
    match sc.faults@[i] {
        Fault::Crash { node, .. } => match spec_index(node@, n) {
            Some(idx) => {
                let w = spec_note(v, "fault-crash"@, obj1_v("node"@, JsonV::Str(spec_name(idx as nat))));
                (SimV { alive: v.alive.update(idx as int, false), ..w }, Some(idx))
            },
            None => (v, None),
        },
        Fault::Pause { node, duration, .. } => match spec_index(node@, n) {
            Some(idx) => {
                let until = spec_sat_add(v.now, duration);
                let w = SimV { paused_until: v.paused_until.update(idx as int, until), ..v };
                (spec_note(w, "fault-pause"@, obj2_v("node"@, JsonV::Str(spec_name(idx as nat)), "until"@, JsonV::Uint(until))), None)
            },
            None => (v, None),
        },
        Fault::Partition { duration, side, .. } => {
            let until = spec_sat_add(v.now, duration);
            let sides = Seq::new(n, |k: int| exists|j: int| 0 <= j < side@.len() && (#[trigger] side@[j])@ == spec_name(k as nat));
            let names = JsonV::Array(Seq::new(side@.len(), |j: int| JsonV::Str(side@[j]@)));
            let w = SimV { partition_side: sides, partition_until: until, ..v };
            (spec_note(w, "fault-partition"@, obj2_v("side"@, names, "until"@, JsonV::Uint(until))), None)
        },
    }
}

/// A stimulus whose instant came: held while its process is paused, lost on a dead one.
pub open spec fn spec_on_stimulus(sc: Scenario, i: int, v: SimV) -> (SimV, ActionV) {
    match spec_index(sc.stimuli@[i].node@, sc.nodes as nat) {
        None => (v, ActionV::Continue),
        Some(idx) => if v.now < v.paused_until[idx as int] {
            (spec_schedule(v, v.paused_until[idx as int], EvV::Stimulus(i as usize)), ActionV::Continue)
        } else if !v.alive[idx as int] {
            (v, ActionV::Continue)
        } else {
            let env = EnvelopeV { src: harness_name(), dest: spec_name(idx as nat), body: sc.stimuli@[i].body@ };
            let w = spec_record(v, v.now, "stimulus"@, env);
            (SimV { awaiting: Some(idx), ..w }, ActionV::Step { node: idx, event: env })
        },
    }
}

/// A message whose instant came: dropped if its sender died, held across a partition or while
/// its receiver is paused, dropped if its receiver is dead, else delivered.
pub open spec fn spec_on_deliver(sc: Scenario, from: usize, env: EnvelopeV, v: SimV) -> (SimV, ActionV) {
    match spec_index(env.dest, sc.nodes as nat) {
        None => (v, ActionV::Continue),
        Some(to) => if !v.alive[from as int] {
            (spec_note(v, "drop-from-crashed"@, obj2_v("src"@, JsonV::Str(env.src), "dest"@, JsonV::Str(env.dest))), ActionV::Continue)
        } else if v.now < v.partition_until && v.partition_side[from as int] != v.partition_side[to as int] {
            (spec_schedule(v, v.partition_until, EvV::Deliver { from, env }), ActionV::Continue)
        } else if v.now < v.paused_until[to as int] {
            (spec_schedule(v, v.paused_until[to as int], EvV::Deliver { from, env }), ActionV::Continue)
        } else if !v.alive[to as int] {
            (spec_note(v, "drop-to-crashed"@, obj1_v("dest"@, JsonV::Str(env.dest))), ActionV::Continue)
        } else {
            let w = spec_record(v, v.now, "recv"@, env);
            (SimV { awaiting: Some(to), ..w }, ActionV::Step { node: to, event: env })
        },
    }
}

/// A timer whose instant came: held while its process is paused, lost on a dead one.
pub open spec fn spec_on_timer(node: usize, timer_id: u64, v: SimV) -> (SimV, ActionV) {
    if v.now < v.paused_until[node as int] {
        (spec_schedule(v, v.paused_until[node as int], EvV::Timer { node, timer_id }), ActionV::Continue)
    } else if !v.alive[node as int] {
        (v, ActionV::Continue)
    } else {
        let body = obj2_v("type"@, JsonV::Str("timer"@), "timer_id"@, JsonV::Uint(timer_id));
        let env = EnvelopeV { src: harness_name(), dest: spec_name(node as nat), body };
        let w = spec_record(v, v.now, "timer"@, env);
        (SimV { awaiting: Some(node), ..w }, ActionV::Step { node, event: env })
    }
}

/// The event taken from the queue, at its instant.
pub open spec fn spec_take(sc: Scenario, ev: EvV, v: SimV) -> (SimV, ActionV) {
    match ev {
        EvV::Fault(i) => {
            let (w, killed) = spec_apply_fault(sc, i as int, v);
            (w, match killed {
                Some(k) => ActionV::Kill { node: k },
                None => ActionV::Continue,
            })
        },
        EvV::Stimulus(i) => spec_on_stimulus(sc, i as int, v),
        EvV::Deliver { from, env } => spec_on_deliver(sc, from, env, v),
        EvV::Timer { node, timer_id } => spec_on_timer(node, timer_id, v),
    }
}

/// One decision: over, initialise the next process, end when nothing waits or the earliest event
/// is past the time limit, or take the earliest event.
pub open spec fn spec_next(sc: Scenario, v: SimV) -> (SimV, ActionV) {
    match v.outcome {
        Some((ok, reason)) => (v, ActionV::Done(OutcomeV { ok, reason, end_time: v.now, events: v.seq })),
        None => if v.init_next < sc.nodes {
            spec_init_step(sc, v)
        } else if v.queue.len() == 0 {
            let w = spec_finish(v, true, "quiescent"@);
            (w, spec_done(w, "quiescent"@))
        } else {
            let s = spec_earliest(v.queue);
            let w = SimV { queue: v.queue.remove(s), ..v };
            if s.time > sc.time_limit {
                let w1 = spec_note(w, "time-limit"@, obj1_v("limit"@, JsonV::Uint(sc.time_limit)));
                let w2 = spec_finish(w1, true, "time-limit"@);
                (w2, spec_done(w2, "time-limit"@))
            } else {
                spec_take(sc, s.ev, SimV { now: s.time, ..w })
            }
        },
    }
}

// ------------------------------------------------------------------ a node's outputs

/// A message addressed to the harness: a timer to arm, the `done` barrier, or an observation
/// recorded verbatim.
pub open spec fn spec_harness_message(idx: usize, env: EnvelopeV, v: SimV) -> SimV {
    let kind = spec_str_field(env.body, seq!['t', 'y', 'p', 'e']);
    if kind == "set_timer"@ {
        let after = match spec_as_u64(spec_get(env.body, "after"@)) {
            Some(a) => a,
            None => 0,
        };
        let timer_id = match spec_as_u64(spec_get(env.body, "timer_id"@)) {
            Some(t) => t,
            None => 0,
        };
        let w = spec_record(v, v.now, "set_timer"@, env);
        spec_schedule(w, spec_sat_add(v.now, after), EvV::Timer { node: idx, timer_id })
    } else if kind == "done"@ {
        v
    } else {
        spec_record(v, v.now, "observe"@, env)
    }
}

/// One envelope process `idx` emitted: to the harness, to another process, or to nobody.
///
/// A message to another process is the `rank`-th send of step `step` of process `idx`: it is
/// journalled now, leaves after the stagger of its rank, and is due after its link's delay from
/// then. The next send takes the next rank.
pub open spec fn spec_output(sc: Scenario, idx: usize, step: u64, rank: u64, env: EnvelopeV, v: SimV) -> (SimV, u64) {
    let n = sc.nodes as nat;
    if env.dest == harness_name() {
        (spec_harness_message(idx, env, v), rank)
    } else {
        match spec_index(env.dest, n) {
            None => (spec_note(v, "unknown-destination"@, obj1_v("dest"@, JsonV::Str(env.dest))), rank),
            Some(to) => {
                let w = spec_record(v, v.now, "send"@, env);
                let link = idx * n + to;
                let count = (v.link_count[link] + 1) as u64;
                let leave = spec_sat_add(v.now, sc.spec_emit_at(idx as u64, step, rank) as u64);
                let delay = sc.spec_delay(idx as u64, to as u64, count, leave);
                let at = spec_arrival(leave, delay, sc.fifo, v.last_sched[link]);
                let w1 = if sc.fifo { SimV { last_sched: v.last_sched.update(link, at), ..w } } else { w };
                let w2 = spec_schedule(w1, at, EvV::Deliver { from: idx, env });
                (SimV { link_count: v.link_count.update(link, count), ..w2 }, (rank + 1) as u64)
            },
        }
    }
}

/// Every envelope of step `step` of process `idx`, in order, the first of them taking send rank
/// `rank`.
pub open spec fn spec_outputs(sc: Scenario, idx: usize, step: u64, rank: u64, outs: Seq<EnvelopeV>, v: SimV) -> SimV
    decreases outs.len(),
{
    if outs.len() == 0 {
        v
    } else {
        let (w, next) = spec_output(sc, idx, step, rank, outs[0], v);
        spec_outputs(sc, idx, step, next, outs.drop_first(), w)
    }
}

/// The step of process `idx` is over: it is counted, its outputs are handled, their sends ranked
/// from zero, and nothing is awaited.
pub open spec fn spec_stepped(sc: Scenario, idx: usize, outs: Seq<EnvelopeV>, v: SimV) -> SimV {
    let step = spec_sat_add(v.steps[idx as int], 1);
    let counted = SimV { steps: v.steps.update(idx as int, step), ..v };
    SimV { awaiting: None, ..spec_outputs(sc, idx, step, 0, outs, counted) }
}

/// The stepping process failed: the run ends badly, and its last line says why. A process that
/// exited on its own is noted as dead first; the message handed back also says where its standard
/// error is, which the journal does not.
pub open spec fn spec_failed(node: usize, err: NodeError, run_dir: Seq<char>, v: SimV) -> (SimV, Seq<char>) {
    match err {
        NodeError::Eof(id) => {
            let msg = spec_died_message(id@, v.now, run_dir);
            let w = spec_note(v, "node-died"@, obj1_v("node"@, JsonV::Str(id@)));
            let w1 = SimV { alive: v.alive.update(node as int, false), awaiting: None, ..w };
            (spec_finish(w1, false, spec_died_reason(id@, v.now)), msg)
        },
        _ => {
            let msg = spec_message(err);
            (spec_finish(SimV { awaiting: None, ..v }, false, msg), msg)
        },
    }
}

// ------------------------------------------------------------------ its laws

/// `done` is the barrier that lets logical time advance, never an event: handing it over
/// changes nothing and journals nothing.
pub proof fn lemma_done_is_a_barrier(sc: Scenario, idx: usize, step: u64, rank: u64, env: EnvelopeV, v: SimV)
    requires
        env.dest == harness_name(),
        spec_str_field(env.body, seq!['t', 'y', 'p', 'e']) == "done"@,
    ensures
        spec_output(sc, idx, step, rank, env, v) == (v, rank),
{
    reveal_strlit("done");
    reveal_strlit("set_timer");
    assert("done"@.len() != "set_timer"@.len());
}

/// Held, not dropped: a message crossing a partition between two live processes waits for the
/// partition to heal, journals nothing, and is delivered then.
pub proof fn lemma_partition_holds_not_drops(sc: Scenario, from: usize, to: usize, env: EnvelopeV, v: SimV)
    requires
        spec_index(env.dest, sc.nodes as nat) == Some(to),
        v.alive[from as int],
        v.now < v.partition_until,
        v.partition_side[from as int] != v.partition_side[to as int],
    ensures
        spec_on_deliver(sc, from, env, v) == (spec_schedule(v, v.partition_until, EvV::Deliver { from, env }), ActionV::Continue),
        spec_on_deliver(sc, from, env, v).0.journal == v.journal,
{
}

/// A still-in-flight message dies with its sender: one `drop-from-crashed` line, and nothing
/// else changes.
pub proof fn lemma_dead_sender_drops(sc: Scenario, from: usize, env: EnvelopeV, v: SimV)
    requires
        spec_index(env.dest, sc.nodes as nat) is Some,
        !v.alive[from as int],
    ensures
        spec_on_deliver(sc, from, env, v).1 == ActionV::Continue,
        spec_on_deliver(sc, from, env, v).0 == spec_note(v, "drop-from-crashed"@,
            obj2_v("src"@, JsonV::Str(env.src), "dest"@, JsonV::Str(env.dest))),
{
}

/// A timer that comes due while its process is paused is held, not lost: taking it queues the
/// same timer, for the same process, again at the instant the pause ends, journals nothing and
/// steps nobody.
pub proof fn lemma_paused_timer_is_held(sc: Scenario, node: usize, timer_id: u64, v: SimV)
    requires
        v.now < v.paused_until[node as int],
    ensures
        spec_take(sc, EvV::Timer { node, timer_id }, v).1 == ActionV::Continue,
        spec_take(sc, EvV::Timer { node, timer_id }, v).0.journal == v.journal,
        exists|q: QueuedV| #![trigger v.queue.insert(q)]
            q.time == v.paused_until[node as int] && q.ev == (EvV::Timer { node, timer_id })
            && spec_take(sc, EvV::Timer { node, timer_id }, v).0.queue == v.queue.insert(q),
{
    let q = QueuedV { time: v.paused_until[node as int], tiebreak: spec_mix(spec_advance(v.rng)), seq: v.seq, ev: EvV::Timer { node, timer_id } };
    assert(spec_take(sc, EvV::Timer { node, timer_id }, v).0.queue == v.queue.insert(q));
}

/// A timer that comes due on a live process that is not paused steps that process with it, and
/// the journal gains the line that says so.
pub proof fn lemma_due_timer_steps(sc: Scenario, node: usize, timer_id: u64, v: SimV)
    requires
        v.now >= v.paused_until[node as int],
        v.alive[node as int],
    ensures
        spec_take(sc, EvV::Timer { node, timer_id }, v).1 == (ActionV::Step {
            node,
            event: EnvelopeV {
                src: harness_name(),
                dest: spec_name(node as nat),
                body: obj2_v("type"@, JsonV::Str("timer"@), "timer_id"@, JsonV::Uint(timer_id)),
            },
        }),
        spec_take(sc, EvV::Timer { node, timer_id }, v).0.journal.len() == v.journal.len() + 1,
        spec_take(sc, EvV::Timer { node, timer_id }, v).0.queue == v.queue,
{
}

/// A run that is over stays over: asking again changes nothing, so `end` stays the last line.
pub proof fn lemma_over_stays_over(sc: Scenario, v: SimV)
    requires
        v.outcome is Some,
    ensures
        spec_next(sc, v).0 == v,
        spec_next(sc, v).1 is Done,
{
}

/// Ending a run writes `end` last, with the reason and the number of events ever scheduled.
pub proof fn lemma_end_is_last(v: SimV, ok: bool, reason: Seq<char>)
    ensures
        spec_finish(v, ok, reason).journal.last() == spec_note_line(v.journal.len() as u64, v.now, "end"@,
            obj2_v("reason"@, JsonV::Str(reason), "scheduled"@, JsonV::Uint(v.seq))),
        spec_finish(v, ok, reason).journal.drop_last() == v.journal,
        spec_finish(v, ok, reason).outcome == Some((ok, reason)),
{
    assert(spec_finish(v, ok, reason).journal.drop_last() =~= v.journal);
}

// ------------------------------------------------------------------ a whole run

/// What a process answers to the events it was handed so far, the last one included: what it
/// emitted before its `done`, or how it failed.
pub enum Reply {
    Outputs(Seq<EnvelopeV>),
    Failed(NodeError),
}

/// One round of a run: a decision, and when it steps a process, that process's answer. `seen`
/// holds every event each process was handed so far.
pub open spec fn spec_round(
    sc: Scenario,
    program: spec_fn(usize, Seq<EnvelopeV>) -> Reply,
    run_dir: Seq<char>,
    v: SimV,
    seen: Seq<Seq<EnvelopeV>>,
) -> (SimV, Seq<Seq<EnvelopeV>>) {
    let (w, a) = spec_next(sc, v);
    match a {
        ActionV::Step { node, event } => {
            let now_seen = seen.update(node as int, seen[node as int].push(event));
            match program(node, now_seen[node as int]) {
                Reply::Outputs(outs) => (spec_stepped(sc, node, outs, w), now_seen),
                Reply::Failed(err) => (spec_failed(node, err, run_dir, w).0, now_seen),
            }
        },
        _ => (w, seen),
    }
}

/// The first `k` rounds of a run of `sc` against `program`, written in `run_dir`.
pub open spec fn spec_run(
    sc: Scenario,
    program: spec_fn(usize, Seq<EnvelopeV>) -> Reply,
    run_dir: Seq<char>,
    k: nat,
) -> (SimV, Seq<Seq<EnvelopeV>>)
    decreases k,
{
    if k == 0 {
        (spec_start(sc), Seq::new(sc.nodes as nat, |i: int| Seq::<EnvelopeV>::empty()))
    } else {
        let (v, seen) = spec_run(sc, program, run_dir, (k - 1) as nat);
        spec_round(sc, program, run_dir, v, seen)
    }
}

/// Where a run is written changes nothing a failure leaves behind: only the message handed back
/// names the run directory.
pub proof fn lemma_failure_ignores_run_dir(node: usize, err: NodeError, a: Seq<char>, b: Seq<char>, v: SimV)
    ensures
        spec_failed(node, err, a, v).0 == spec_failed(node, err, b, v).0,
{
}

/// A run replays exactly: the same scenario against the same program goes through the same
/// states, its journal included, whatever directory it is written in.
pub proof fn lemma_a_run_replays(
    sc: Scenario,
    program: spec_fn(usize, Seq<EnvelopeV>) -> Reply,
    a: Seq<char>,
    b: Seq<char>,
    k: nat,
)
    ensures
        spec_run(sc, program, a, k) == spec_run(sc, program, b, k),
        spec_run(sc, program, a, k).0.journal == spec_run(sc, program, b, k).0.journal,
    decreases k,
{
    if k > 0 {
        lemma_a_run_replays(sc, program, a, b, (k - 1) as nat);
        let (v, seen) = spec_run(sc, program, a, (k - 1) as nat);
        let (w, act) = spec_next(sc, v);
        if let ActionV::Step { node, event } = act {
            let now_seen = seen.update(node as int, seen[node as int].push(event));
            if let Reply::Failed(err) = program(node, now_seen[node as int]) {
                lemma_failure_ignores_run_dir(node, err, a, b, w);
            }
        }
    }
}

// ------------------------------------------------------------------ a run's last line

/// The line `end` writes when a run that has come to `v` ended for `reason`.
pub open spec fn spec_end_line(v: SimV, reason: Seq<char>) -> JsonV {
    spec_note_line((v.journal.len() - 1) as u64, v.now, "end"@,
        obj2_v("reason"@, JsonV::Str(reason), "scheduled"@, JsonV::Uint(v.seq)))
}

/// A run that is over has `end` as its last line, and the line gives the reason it ended.
pub open spec fn ends_with_end(v: SimV) -> bool {
    v.outcome matches Some((ok, reason)) ==> v.journal.len() > 0 && v.journal.last() == spec_end_line(v, reason)
}

proof fn lemma_finish_ends_with_end(v: SimV, ok: bool, reason: Seq<char>)
    ensures
        ends_with_end(spec_finish(v, ok, reason)),
{
}

proof fn lemma_queue_faults_open(sc: Scenario, k: nat, v: SimV)
    ensures
        spec_queue_faults(sc, k, v).outcome == v.outcome,
    decreases k,
{
    if k > 0 {
        lemma_queue_faults_open(sc, (k - 1) as nat, v);
    }
}

proof fn lemma_queue_stimuli_open(sc: Scenario, k: nat, v: SimV)
    ensures
        spec_queue_stimuli(sc, k, v).outcome == v.outcome,
    decreases k,
{
    if k > 0 {
        lemma_queue_stimuli_open(sc, (k - 1) as nat, v);
    }
}

proof fn lemma_outputs_open(sc: Scenario, idx: usize, step: u64, rank: u64, outs: Seq<EnvelopeV>, v: SimV)
    ensures
        spec_outputs(sc, idx, step, rank, outs, v).outcome == v.outcome,
    decreases outs.len(),
{
    if outs.len() > 0 {
        let (w, next) = spec_output(sc, idx, step, rank, outs[0], v);
        assert(w.outcome == v.outcome);
        lemma_outputs_open(sc, idx, step, next, outs.drop_first(), w);
    }
}

/// A decision on a run still going either leaves it going, and only then hands a process a step,
/// or ends it with `end` last.
proof fn lemma_next_ends_with_end(sc: Scenario, v: SimV)
    requires
        ends_with_end(v),
    ensures
        ends_with_end(spec_next(sc, v).0),
        spec_next(sc, v).1 is Step ==> spec_next(sc, v).0.outcome is None,
{
    if v.outcome is None && v.init_next >= sc.nodes {
        if v.queue.len() == 0 {
            lemma_finish_ends_with_end(v, true, "quiescent"@);
        } else {
            let s = spec_earliest(v.queue);
            let w = SimV { queue: v.queue.remove(s), ..v };
            if s.time > sc.time_limit {
                let w1 = spec_note(w, "time-limit"@, obj1_v("limit"@, JsonV::Uint(sc.time_limit)));
                lemma_finish_ends_with_end(w1, true, "time-limit"@);
            } else {
                let x = SimV { now: s.time, ..w };
                match s.ev {
                    EvV::Fault(i) => {
                        assert(spec_apply_fault(sc, i as int, x).0.outcome is None);
                    },
                    _ => {},
                }
            }
        }
    }
}

/// One round keeps a run that is over ending with `end`.
proof fn lemma_round_ends_with_end(
    sc: Scenario,
    program: spec_fn(usize, Seq<EnvelopeV>) -> Reply,
    run_dir: Seq<char>,
    v: SimV,
    seen: Seq<Seq<EnvelopeV>>,
)
    requires
        ends_with_end(v),
    ensures
        ends_with_end(spec_round(sc, program, run_dir, v, seen).0),
{
    lemma_next_ends_with_end(sc, v);
    let (w, a) = spec_next(sc, v);
    if let ActionV::Step { node, event } = a {
        let now_seen = seen.update(node as int, seen[node as int].push(event));
        match program(node, now_seen[node as int]) {
            Reply::Outputs(outs) => {
                let step = spec_sat_add(w.steps[node as int], 1);
                let counted = SimV { steps: w.steps.update(node as int, step), ..w };
                lemma_outputs_open(sc, node, step, 0, outs, counted);
            },
            Reply::Failed(err) => {
                match err {
                    NodeError::Eof(id) => {
                        let x = spec_note(w, "node-died"@, obj1_v("node"@, JsonV::Str(id@)));
                        let x1 = SimV { alive: w.alive.update(node as int, false), awaiting: None, ..x };
                        lemma_finish_ends_with_end(x1, false, spec_died_reason(id@, w.now));
                    },
                    _ => {
                        lemma_finish_ends_with_end(SimV { awaiting: None, ..w }, false, spec_message(err));
                    },
                }
            },
        }
    }
}

/// Once a run is over, `end` is its last line and says why it ended, after every number of
/// rounds, whatever the program: a run never ends without it, and nothing follows it.
pub proof fn lemma_a_run_ends_with_end(
    sc: Scenario,
    program: spec_fn(usize, Seq<EnvelopeV>) -> Reply,
    run_dir: Seq<char>,
    k: nat,
)
    ensures
        ends_with_end(spec_run(sc, program, run_dir, k).0),
    decreases k,
{
    if k == 0 {
        lemma_queue_faults_open(sc, sc.faults@.len(), spec_empty(sc));
        lemma_queue_stimuli_open(sc, sc.stimuli@.len(), spec_queue_faults(sc, sc.faults@.len(), spec_empty(sc)));
    } else {
        lemma_a_run_ends_with_end(sc, program, run_dir, (k - 1) as nat);
        let (v, seen) = spec_run(sc, program, run_dir, (k - 1) as nat);
        lemma_round_ends_with_end(sc, program, run_dir, v, seen);
    }
}

// ------------------------------------------------------------------ no `done` in the journal

/// The `type` of the body a journal line carries, or nothing for a line that carries none.
pub open spec fn line_body_type(line: JsonV) -> Seq<char> {
    match spec_get(line, seq!['b', 'o', 'd', 'y']) {
        Some(b) => spec_str_field(b, seq!['t', 'y', 'p', 'e']),
        None => Seq::empty(),
    }
}

/// An object names each of its keys once, as every value read from text does.
pub open spec fn names_keys_once(b: JsonV) -> bool {
    b matches JsonV::Object(es) ==> distinct_keys(es)
}

/// A body that is not a `done`.
pub open spec fn not_done(b: JsonV) -> bool {
    names_keys_once(b) && spec_str_field(b, seq!['t', 'y', 'p', 'e']) != "done"@
}

/// No stimulus of the scenario is a `done`.
pub open spec fn stimuli_not_done(sc: Scenario) -> bool {
    forall|i: int| 0 <= i < sc.stimuli@.len() ==> not_done(#[trigger] sc.stimuli@[i].body@)
}

/// A program that hands its `done` only to the harness, in bodies naming each key once.
pub open spec fn done_only_to_harness(program: spec_fn(usize, Seq<EnvelopeV>) -> Reply) -> bool {
    forall|node: usize, seen: Seq<EnvelopeV>| match #[trigger] program(node, seen) {
        Reply::Outputs(outs) => forall|j: int| 0 <= j < outs.len() ==> {
            &&& names_keys_once(#[trigger] outs[j].body)
            &&& spec_str_field(outs[j].body, seq!['t', 'y', 'p', 'e']) == "done"@ ==> outs[j].dest == harness_name()
        },
        Reply::Failed(_) => true,
    }
}

/// No line of the journal carries a `done`.
pub open spec fn no_done_journalled(v: SimV) -> bool {
    forall|i: int| 0 <= i < v.journal.len() ==> line_body_type(#[trigger] v.journal[i]) != "done"@
}

/// A queued event that is not a `done` in flight, and names a stimulus the scenario has.
pub open spec fn ev_not_done(sc: Scenario, ev: EvV) -> bool {
    match ev {
        EvV::Deliver { env, .. } => not_done(env.body),
        EvV::Stimulus(i) => i < sc.stimuli@.len(),
        _ => true,
    }
}

/// No message in flight is a `done`.
pub open spec fn none_in_flight(sc: Scenario, v: SimV) -> bool {
    forall|q: QueuedV| #[trigger] v.queue.contains(q) ==> ev_not_done(sc, q.ev)
}

spec fn quiet(sc: Scenario, v: SimV) -> bool {
    no_done_journalled(v) && none_in_flight(sc, v)
}

proof fn lemma_record_line_type(seq: u64, t: u64, kind: Seq<char>, src: Seq<char>, dest: Seq<char>, body: JsonV)
    ensures
        line_body_type(spec_record_line(seq, t, kind, src, dest, body)) == spec_str_field(spec_canonical(body), seq!['t', 'y', 'p', 'e']),
{
    reveal_with_fuel(spec_find, 7);
    assert(seq!['s', 'e', 'q'] != seq!['b', 'o', 'd', 'y']);
    assert(seq!['t'] != seq!['b', 'o', 'd', 'y']);
    assert(seq!['k', 'i', 'n', 'd'][0] != seq!['b', 'o', 'd', 'y'][0]);
    assert(seq!['s', 'r', 'c'] != seq!['b', 'o', 'd', 'y']);
    assert(seq!['d', 'e', 's', 't'][0] != seq!['b', 'o', 'd', 'y'][0]);
}

proof fn lemma_note_line_type(seq: u64, t: u64, kind: Seq<char>, detail: JsonV)
    ensures
        line_body_type(spec_note_line(seq, t, kind, detail)) == Seq::<char>::empty(),
{
    reveal_with_fuel(spec_find, 6);
    assert(seq!['s', 'e', 'q'] != seq!['b', 'o', 'd', 'y']);
    assert(seq!['t'] != seq!['b', 'o', 'd', 'y']);
    assert(seq!['k', 'i', 'n', 'd'][0] != seq!['b', 'o', 'd', 'y'][0]);
    assert(seq!['d', 'e', 't', 'a', 'i', 'l'] != seq!['b', 'o', 'd', 'y']);
}

proof fn lemma_note_quiet(sc: Scenario, v: SimV, kind: Seq<char>, detail: JsonV)
    requires
        quiet(sc, v),
    ensures
        quiet(sc, spec_note(v, kind, detail)),
{
    lemma_note_line_type(v.journal.len() as u64, v.now, kind, detail);
    reveal_strlit("done");
    assert(Seq::<char>::empty() != "done"@) by {
        assert("done"@.len() == 4);
    }
    let w = spec_note(v, kind, detail);
    assert forall|i: int| 0 <= i < w.journal.len() implies line_body_type(#[trigger] w.journal[i]) != "done"@ by {
        if i < v.journal.len() {
            assert(w.journal[i] == v.journal[i]);
        }
    }
}

proof fn lemma_record_quiet(sc: Scenario, v: SimV, t: u64, kind: Seq<char>, env: EnvelopeV)
    requires
        quiet(sc, v),
        not_done(env.body),
    ensures
        quiet(sc, spec_record(v, t, kind, env)),
{
    lemma_record_line_type(v.journal.len() as u64, t, kind, env.src, env.dest, env.body);
    lemma_canonical_field(env.body, seq!['t', 'y', 'p', 'e']);
    let w = spec_record(v, t, kind, env);
    assert forall|i: int| 0 <= i < w.journal.len() implies line_body_type(#[trigger] w.journal[i]) != "done"@ by {
        if i < v.journal.len() {
            assert(w.journal[i] == v.journal[i]);
        }
    }
}

proof fn lemma_schedule_quiet(sc: Scenario, v: SimV, time: u64, ev: EvV)
    requires
        quiet(sc, v),
        ev_not_done(sc, ev),
    ensures
        quiet(sc, spec_schedule(v, time, ev)),
{
    let w = spec_schedule(v, time, ev);
    assert forall|q: QueuedV| #[trigger] w.queue.contains(q) implies ev_not_done(sc, q.ev) by {
        let x = QueuedV { time, tiebreak: spec_mix(spec_advance(v.rng)), seq: v.seq, ev };
        vstd::multiset::lemma_insert_containment(v.queue, x, q);
        if q != x {
            assert(v.queue.contains(q));
        }
    }
}

/// A queue that is not empty holds its earliest event.
proof fn lemma_earliest_held(m: vstd::multiset::Multiset<QueuedV>)
    requires
        m.len() > 0,
    ensures
        m.contains(spec_earliest(m)),
        forall|y: QueuedV| m.contains(y) ==> taken_before(spec_earliest(m), y),
    decreases m.len(),
{
    let x0 = m.choose();
    let r = m.remove(x0);
    assert(m.contains(x0));
    assert(r.len() == m.len() - 1);
    let best = if r.len() == 0 {
        x0
    } else {
        lemma_earliest_held(r);
        let x1 = spec_earliest(r);
        if taken_before(x0, x1) { x0 } else { x1 }
    };
    assert forall|y: QueuedV| m.contains(y) implies taken_before(best, y) by {
        if y != x0 {
            assert(r.count(y) == m.count(y));
            assert(r.contains(y));
            if r.len() == 0 {
                vstd::multiset::lemma_multiset_empty_len(r);
                assert(r.count(y) == 0);
            }
        }
    }
    if r.len() > 0 {
        assert(r.contains(spec_earliest(r)));
        assert(r.count(spec_earliest(r)) <= m.count(spec_earliest(r)));
    }
    assert(m.contains(best) && forall|y: QueuedV| m.contains(y) ==> taken_before(best, y));
}

proof fn lemma_harness_quiet(sc: Scenario, idx: usize, env: EnvelopeV, v: SimV)
    requires
        quiet(sc, v),
        names_keys_once(env.body),
    ensures
        quiet(sc, spec_harness_message(idx, env, v)),
{
    let kind = spec_str_field(env.body, seq!['t', 'y', 'p', 'e']);
    reveal_strlit("set_timer");
    reveal_strlit("done");
    if kind == "set_timer"@ {
        assert("set_timer"@.len() != "done"@.len());
        let w = spec_record(v, v.now, "set_timer"@, env);
        lemma_record_quiet(sc, v, v.now, "set_timer"@, env);
        let after = match spec_as_u64(spec_get(env.body, "after"@)) {
            Some(a) => a,
            None => 0,
        };
        let timer_id = match spec_as_u64(spec_get(env.body, "timer_id"@)) {
            Some(t) => t,
            None => 0,
        };
        lemma_schedule_quiet(sc, w, spec_sat_add(v.now, after), EvV::Timer { node: idx, timer_id });
    } else if kind != "done"@ {
        lemma_record_quiet(sc, v, v.now, "observe"@, env);
    }
}

proof fn lemma_outputs_quiet(sc: Scenario, idx: usize, step: u64, rank: u64, outs: Seq<EnvelopeV>, v: SimV)
    requires
        quiet(sc, v),
        forall|j: int| 0 <= j < outs.len() ==> {
            &&& names_keys_once(#[trigger] outs[j].body)
            &&& spec_str_field(outs[j].body, seq!['t', 'y', 'p', 'e']) == "done"@ ==> outs[j].dest == harness_name()
        },
    ensures
        quiet(sc, spec_outputs(sc, idx, step, rank, outs, v)),
    decreases outs.len(),
{
    if outs.len() > 0 {
        let env = outs[0];
        let (w, next) = spec_output(sc, idx, step, rank, env, v);
        if env.dest == harness_name() {
            lemma_harness_quiet(sc, idx, env, v);
        } else {
            match spec_index(env.dest, sc.nodes as nat) {
                None => lemma_note_quiet(sc, v, "unknown-destination"@, obj1_v("dest"@, JsonV::Str(env.dest))),
                Some(to) => {
                    let n = sc.nodes as nat;
                    let x = spec_record(v, v.now, "send"@, env);
                    lemma_record_quiet(sc, v, v.now, "send"@, env);
                    let link = idx * n + to;
                    let count = (v.link_count[link] + 1) as u64;
                    let leave = spec_sat_add(v.now, sc.spec_emit_at(idx as u64, step, rank) as u64);
                    let delay = sc.spec_delay(idx as u64, to as u64, count, leave);
                    let at = spec_arrival(leave, delay, sc.fifo, v.last_sched[link]);
                    let x1 = if sc.fifo { SimV { last_sched: v.last_sched.update(link, at), ..x } } else { x };
                    lemma_schedule_quiet(sc, x1, at, EvV::Deliver { from: idx, env });
                },
            }
        }
        assert forall|j: int| 0 <= j < outs.drop_first().len() implies {
            &&& names_keys_once(#[trigger] outs.drop_first()[j].body)
            &&& spec_str_field(outs.drop_first()[j].body, seq!['t', 'y', 'p', 'e']) == "done"@ ==> outs.drop_first()[j].dest == harness_name()
        } by {
            assert(outs.drop_first()[j] == outs[j + 1]);
        }
        lemma_outputs_quiet(sc, idx, step, next, outs.drop_first(), w);
    }
}

proof fn lemma_finish_quiet(sc: Scenario, v: SimV, ok: bool, reason: Seq<char>)
    requires
        quiet(sc, v),
    ensures
        quiet(sc, spec_finish(v, ok, reason)),
{
    lemma_note_quiet(sc, v, "end"@, obj2_v("reason"@, JsonV::Str(reason), "scheduled"@, JsonV::Uint(v.seq)));
}

proof fn lemma_init_body_not_done(sc: Scenario, i: nat)
    ensures
        not_done(spec_init_body(sc, i)),
{
    reveal_strlit("type");
    reveal_strlit("node_id");
    reveal_strlit("node_ids");
    reveal_strlit("n");
    reveal_strlit("f");
    reveal_strlit("provided");
    reveal_strlit("init");
    reveal_strlit("done");
    if let JsonV::Object(es) = spec_init_body(sc, i) {
        assert forall|a: int, b: int| 0 <= a < b < es.len() implies #[trigger] es[a].0 != #[trigger] es[b].0 by {
            assert(es[a].0.len() != es[b].0.len() || es[a].0[0] != es[b].0[0]);
        }
        assert(es[0].0 == seq!['t', 'y', 'p', 'e']);
        assert(spec_find(es, seq!['t', 'y', 'p', 'e'], 0) == 0);
        assert("init"@[0] != "done"@[0]);
    }
}

proof fn lemma_timer_body_not_done(timer_id: u64)
    ensures
        not_done(obj2_v("type"@, JsonV::Str("timer"@), "timer_id"@, JsonV::Uint(timer_id))),
{
    reveal_strlit("type");
    reveal_strlit("timer");
    reveal_strlit("timer_id");
    reveal_strlit("done");
    let b = obj2_v("type"@, JsonV::Str("timer"@), "timer_id"@, JsonV::Uint(timer_id));
    if let JsonV::Object(es) = b {
        assert(es[0].0.len() != es[1].0.len());
        assert(es[0].0 == seq!['t', 'y', 'p', 'e']);
        assert(spec_find(es, seq!['t', 'y', 'p', 'e'], 0) == 0);
        assert("timer"@.len() != "done"@.len());
    }
}

proof fn lemma_take_quiet(sc: Scenario, ev: EvV, x: SimV)
    requires
        quiet(sc, x),
        stimuli_not_done(sc),
        ev_not_done(sc, ev),
    ensures
        quiet(sc, spec_take(sc, ev, x).0),
{
    match ev {
        EvV::Fault(i) => {
            let n = sc.nodes as nat;
            match sc.faults@[i as int] {
                Fault::Crash { node, .. } => if let Some(idx) = spec_index(node@, n) {
                    lemma_note_quiet(sc, x, "fault-crash"@, obj1_v("node"@, JsonV::Str(spec_name(idx as nat))));
                },
                Fault::Pause { node, duration, .. } => if let Some(idx) = spec_index(node@, n) {
                    let until = spec_sat_add(x.now, duration);
                    let y = SimV { paused_until: x.paused_until.update(idx as int, until), ..x };
                    assert(quiet(sc, y));
                    lemma_note_quiet(sc, y, "fault-pause"@, obj2_v("node"@, JsonV::Str(spec_name(idx as nat)), "until"@, JsonV::Uint(until)));
                },
                Fault::Partition { duration, side, .. } => {
                    let until = spec_sat_add(x.now, duration);
                    let sides = Seq::new(n, |k: int| exists|j: int| 0 <= j < side@.len() && (#[trigger] side@[j])@ == spec_name(k as nat));
                    let names = JsonV::Array(Seq::new(side@.len(), |j: int| JsonV::Str(side@[j]@)));
                    let y = SimV { partition_side: sides, partition_until: until, ..x };
                    assert(quiet(sc, y));
                    lemma_note_quiet(sc, y, "fault-partition"@, obj2_v("side"@, names, "until"@, JsonV::Uint(until)));
                },
            }
        },
        EvV::Stimulus(i) => {
            if let Some(idx) = spec_index(sc.stimuli@[i as int].node@, sc.nodes as nat) {
                if x.now < x.paused_until[idx as int] {
                    lemma_schedule_quiet(sc, x, x.paused_until[idx as int], EvV::Stimulus(i));
                } else if x.alive[idx as int] {
                    let env = EnvelopeV { src: harness_name(), dest: spec_name(idx as nat), body: sc.stimuli@[i as int].body@ };
                    assert(not_done(sc.stimuli@[i as int].body@));
                    lemma_record_quiet(sc, x, x.now, "stimulus"@, env);
                }
            }
        },
        EvV::Deliver { from, env } => {
            assert(not_done(env.body));
            if let Some(to) = spec_index(env.dest, sc.nodes as nat) {
                if !x.alive[from as int] {
                    lemma_note_quiet(sc, x, "drop-from-crashed"@, obj2_v("src"@, JsonV::Str(env.src), "dest"@, JsonV::Str(env.dest)));
                } else if x.now < x.partition_until && x.partition_side[from as int] != x.partition_side[to as int] {
                    lemma_schedule_quiet(sc, x, x.partition_until, EvV::Deliver { from, env });
                } else if x.now < x.paused_until[to as int] {
                    lemma_schedule_quiet(sc, x, x.paused_until[to as int], EvV::Deliver { from, env });
                } else if !x.alive[to as int] {
                    lemma_note_quiet(sc, x, "drop-to-crashed"@, obj1_v("dest"@, JsonV::Str(env.dest)));
                } else {
                    lemma_record_quiet(sc, x, x.now, "recv"@, env);
                }
            }
        },
        EvV::Timer { node, timer_id } => {
            if x.now < x.paused_until[node as int] {
                lemma_schedule_quiet(sc, x, x.paused_until[node as int], EvV::Timer { node, timer_id });
            } else if x.alive[node as int] {
                let body = obj2_v("type"@, JsonV::Str("timer"@), "timer_id"@, JsonV::Uint(timer_id));
                lemma_timer_body_not_done(timer_id);
                let env = EnvelopeV { src: harness_name(), dest: spec_name(node as nat), body };
                lemma_record_quiet(sc, x, x.now, "timer"@, env);
            }
        },
    }

}

proof fn lemma_next_quiet(sc: Scenario, v: SimV)
    requires
        quiet(sc, v),
        stimuli_not_done(sc),
    ensures
        quiet(sc, spec_next(sc, v).0),
{
    if v.outcome is None {
        if v.init_next < sc.nodes {
            let i = v.init_next;
            let env = EnvelopeV { src: harness_name(), dest: spec_name(i), body: spec_init_body(sc, i) };
            lemma_init_body_not_done(sc, i);
            let x = SimV { init_next: i + 1, ..v };
            assert(quiet(sc, x));
            lemma_record_quiet(sc, x, 0, "init"@, env);
        } else if v.queue.len() == 0 {
            lemma_finish_quiet(sc, v, true, "quiescent"@);
        } else {
            let s = spec_earliest(v.queue);
            lemma_earliest_held(v.queue);
            let w = SimV { queue: v.queue.remove(s), ..v };
            assert(quiet(sc, w)) by {
                assert forall|q: QueuedV| #[trigger] w.queue.contains(q) implies ev_not_done(sc, q.ev) by {
                    assert(w.queue.count(q) <= v.queue.count(q));
                    assert(v.queue.contains(q));
                }
            }
            if s.time > sc.time_limit {
                let w1 = spec_note(w, "time-limit"@, obj1_v("limit"@, JsonV::Uint(sc.time_limit)));
                lemma_note_quiet(sc, w, "time-limit"@, obj1_v("limit"@, JsonV::Uint(sc.time_limit)));
                lemma_finish_quiet(sc, w1, true, "time-limit"@);
            } else {
                let x = SimV { now: s.time, ..w };
                assert(quiet(sc, x));
                lemma_take_quiet(sc, s.ev, x);
            }
        }
    }
}

proof fn lemma_round_quiet(
    sc: Scenario,
    program: spec_fn(usize, Seq<EnvelopeV>) -> Reply,
    run_dir: Seq<char>,
    v: SimV,
    seen: Seq<Seq<EnvelopeV>>,
)
    requires
        quiet(sc, v),
        stimuli_not_done(sc),
        done_only_to_harness(program),
    ensures
        quiet(sc, spec_round(sc, program, run_dir, v, seen).0),
{
    lemma_next_quiet(sc, v);
    let (w, a) = spec_next(sc, v);
    if let ActionV::Step { node, event } = a {
        let now_seen = seen.update(node as int, seen[node as int].push(event));
        match program(node, now_seen[node as int]) {
            Reply::Outputs(outs) => {
                let step = spec_sat_add(w.steps[node as int], 1);
                let counted = SimV { steps: w.steps.update(node as int, step), ..w };
                assert(quiet(sc, counted));
                lemma_outputs_quiet(sc, node, step, 0, outs, counted);
            },
            Reply::Failed(err) => {
                match err {
                    NodeError::Eof(id) => {
                        let x = spec_note(w, "node-died"@, obj1_v("node"@, JsonV::Str(id@)));
                        lemma_note_quiet(sc, w, "node-died"@, obj1_v("node"@, JsonV::Str(id@)));
                        let x1 = SimV { alive: w.alive.update(node as int, false), awaiting: None, ..x };
                        assert(quiet(sc, x1));
                        lemma_finish_quiet(sc, x1, false, spec_died_reason(id@, w.now));
                    },
                    _ => {
                        let x = SimV { awaiting: None, ..w };
                        assert(quiet(sc, x));
                        lemma_finish_quiet(sc, x, false, spec_message(err));
                    },
                }
            },
        }
    }
}

proof fn lemma_queue_faults_quiet(sc: Scenario, k: nat, v: SimV)
    requires
        quiet(sc, v),
        k <= sc.faults@.len(),
    ensures
        quiet(sc, spec_queue_faults(sc, k, v)),
    decreases k,
{
    if k > 0 {
        lemma_queue_faults_quiet(sc, (k - 1) as nat, v);
        lemma_schedule_quiet(sc, spec_queue_faults(sc, (k - 1) as nat, v), sc.faults@[k - 1].spec_at(), EvV::Fault((k - 1) as usize));
    }
}

proof fn lemma_queue_stimuli_quiet(sc: Scenario, k: nat, v: SimV)
    requires
        quiet(sc, v),
        k <= sc.stimuli@.len(),
    ensures
        quiet(sc, spec_queue_stimuli(sc, k, v)),
    decreases k,
{
    if k > 0 {
        lemma_queue_stimuli_quiet(sc, (k - 1) as nat, v);
        lemma_schedule_quiet(sc, spec_queue_stimuli(sc, (k - 1) as nat, v), sc.stimuli@[k - 1].at, EvV::Stimulus((k - 1) as usize));
    }
}

/// `done` is never journalled over a whole run: when no stimulus is a `done` and the program
/// hands its `done` only to the harness, in bodies naming each key once, no line of the journal
/// carries a `done` after any number of rounds.
pub proof fn lemma_a_run_journals_no_done(
    sc: Scenario,
    program: spec_fn(usize, Seq<EnvelopeV>) -> Reply,
    run_dir: Seq<char>,
    k: nat,
)
    requires
        stimuli_not_done(sc),
        done_only_to_harness(program),
    ensures
        no_done_journalled(spec_run(sc, program, run_dir, k).0),
    decreases k,
{
    lemma_run_quiet(sc, program, run_dir, k);
}

proof fn lemma_run_quiet(
    sc: Scenario,
    program: spec_fn(usize, Seq<EnvelopeV>) -> Reply,
    run_dir: Seq<char>,
    k: nat,
)
    requires
        stimuli_not_done(sc),
        done_only_to_harness(program),
    ensures
        quiet(sc, spec_run(sc, program, run_dir, k).0),
    decreases k,
{
    if k == 0 {
        let e = spec_empty(sc);
        assert(quiet(sc, e)) by {
            assert forall|q: QueuedV| #[trigger] e.queue.contains(q) implies ev_not_done(sc, q.ev) by {}
        }
        lemma_queue_faults_quiet(sc, sc.faults@.len(), e);
        lemma_queue_stimuli_quiet(sc, sc.stimuli@.len(), spec_queue_faults(sc, sc.faults@.len(), e));
    } else {
        lemma_run_quiet(sc, program, run_dir, (k - 1) as nat);
        let (v, seen) = spec_run(sc, program, run_dir, (k - 1) as nat);
        lemma_round_quiet(sc, program, run_dir, v, seen);
    }
}

// ------------------------------------------------------------------ the queue

/// No two queued events share a scheduling number.
pub open spec fn seqs_distinct(q: Seq<QueuedV>) -> bool {
    forall|a: int, b: int| 0 <= a < b < q.len() ==> (#[trigger] q[a]).seq != (#[trigger] q[b]).seq
}

/// An event taken before every other queued one is the earliest.
pub proof fn lemma_earliest(q: Seq<QueuedV>, best: int)
    requires
        0 <= best < q.len(),
        seqs_distinct(q),
        forall|j: int| 0 <= j < q.len() ==> taken_before(q[best], #[trigger] q[j]),
    ensures
        spec_earliest(q.to_multiset()) == q[best],
{
    let m = q.to_multiset();
    to_multiset_contains(q, q[best]);
    assert(q[best] == q[best]);
    assert(q.contains(q[best]));
    assert forall|y: QueuedV| m.contains(y) implies taken_before(q[best], y) by {
        to_multiset_contains(q, y);
        let j = choose|j: int| 0 <= j < q.len() && q[j] == y;
        assert(taken_before(q[best], q[j]));
    }
    assert(m.contains(q[best]) && forall|y: QueuedV| m.contains(y) ==> taken_before(q[best], y));
    let x = spec_earliest(m);
    assert(m.contains(x) && forall|y: QueuedV| m.contains(y) ==> taken_before(x, y));
    assert(taken_before(x, q[best]));
    assert(taken_before(q[best], x));
    to_multiset_contains(q, x);
    assert(q.contains(x));
    let j = choose|j: int| 0 <= j < q.len() && q[j] == x;
    assert(q[j].seq == q[best].seq);
    if j != best {
        if j < best {
            assert(q[j].seq != q[best].seq);
        } else {
            assert(q[best].seq != q[j].seq);
        }
    }
}

/// Moving the last element into place `i` and dropping the last place removes the `i`-th.
pub proof fn lemma_swap_remove_multiset<A>(s: Seq<A>, i: int)
    requires
        0 <= i < s.len(),
    ensures
        s.update(i, s.last()).drop_last().to_multiset() == s.to_multiset().remove(s[i]),
{
    let t = s.update(i, s.last()).drop_last();
    let r = s.remove(i);
    to_multiset_remove(s, i);
    if i == s.len() - 1 {
        assert(t =~= r);
    } else {
        let order = Seq::new(r.len(), |k: int| if k < i { k } else if k == i { r.len() - 1 } else { k - 1 });
        assert(reorders(order, r.len()));
        assert forall|k: int| 0 <= k < t.len() implies #[trigger] t[k] == r[order[k]] by {}
        lemma_reordered_multiset(r, t, order);
    }
}

// ------------------------------------------------------------------ the start

/// The first `k` faults of the scenario queued at their instants, in order.
pub open spec fn spec_queue_faults(sc: Scenario, k: nat, v: SimV) -> SimV
    decreases k,
{
    if k == 0 {
        v
    } else {
        let w = spec_queue_faults(sc, (k - 1) as nat, v);
        spec_schedule(w, sc.faults@[k - 1].spec_at(), EvV::Fault((k - 1) as usize))
    }
}

/// The first `k` stimuli of the scenario queued at their instants, in order.
pub open spec fn spec_queue_stimuli(sc: Scenario, k: nat, v: SimV) -> SimV
    decreases k,
{
    if k == 0 {
        v
    } else {
        let w = spec_queue_stimuli(sc, (k - 1) as nat, v);
        spec_schedule(w, sc.stimuli@[k - 1].at, EvV::Stimulus((k - 1) as usize))
    }
}

/// The seed a scenario carries, or zero for one written by hand.
pub open spec fn spec_seed(sc: Scenario) -> u64 {
    match sc.drawn {
        Some(d) => d.seed,
        None => 0,
    }
}

/// A simulator with nothing queued yet: every process alive, none paused, no partition, nothing
/// sent, nothing journalled, and a tiebreak generator seeded by the scenario.
pub open spec fn spec_empty(sc: Scenario) -> SimV {
    let n = sc.nodes as nat;
    SimV {
        rng: spec_seed(sc) ^ TIEBREAK_SALT,
        alive: Seq::new(n, |k: int| true),
        queue: vstd::multiset::Multiset::empty(),
        journal: seq![],
        now: 0,
        seq: 0,
        paused_until: Seq::new(n, |k: int| 0u64),
        partition_until: 0,
        partition_side: Seq::new(n, |k: int| false),
        link_count: Seq::new(n * n, |k: int| 0u64),
        last_sched: Seq::new(n * n, |k: int| 0u64),
        init_next: 0,
        steps: Seq::new(n, |k: int| 0u64),
        awaiting: None,
        outcome: None,
    }
}

/// A fresh simulator: every fault then every stimulus queued at its instant, in order.
pub open spec fn spec_start(sc: Scenario) -> SimV {
    spec_queue_stimuli(sc, sc.stimuli@.len(), spec_queue_faults(sc, sc.faults@.len(), spec_empty(sc)))
}

} // verus!
