//! The discrete-event simulator.
//!
//! Strictly sequential: exactly one node runs at a time, and it must emit `done` before logical
//! time may advance. Everything the harness controls is pinned by the scenario, so a run replays
//! exactly.
//!
//! The simulator decides; the caller acts. [`Sim::next`] takes one decision and says what, if
//! anything, the outside world must do: step a node with an event, kill a node's process, or
//! nothing. After a step the caller hands back what the node emitted ([`Sim::stepped`]) or how it
//! failed ([`Sim::failed`]). The journal is written here and handed over at the end.

use vstd::prelude::*;
use crate::json::{Json, JsonV};
use crate::journal::{Journal, line_seq, line_time};
use crate::node::{NodeError, spec_message};
use crate::proto::{Envelope, HARNESS, harness_name};
use crate::rng::Rng;
use crate::scenario::{Fault, Scenario};
use crate::draw::{spec_name, node_name, lemma_name_injective};
use crate::machine::{EvV, QueuedV, SimV, taken_before, OutcomeV, ActionV, seqs_distinct, spec_earliest, spec_index, spec_schedule,
    spec_finish, spec_init_body, spec_apply_fault, spec_harness_message, spec_output, spec_outputs, spec_stepped,
    spec_failed, spec_next, spec_empty, spec_start, spec_queue_faults, spec_queue_stimuli, lemma_earliest,
    lemma_swap_remove_multiset};
use crate::proto::{EnvelopeV, lemma_harness_name};
use crate::text::{push_str, push_decimal, text, same_text};

verus! {

/// A seed of its own for the queue's tiebreaks, so they do not share a stream with the draw.
pub const TIEBREAK_SALT: u64 = 0xD1B5_4A32_D192_ED03;

#[derive(Debug)]
pub enum Ev {
    Deliver { from: usize, env: Envelope },
    Timer { node: usize, timer_id: u64 },
    Fault(usize),
    Stimulus(usize),
}

/// An event waiting in the queue.
///
/// Events are taken earliest first. `tiebreak` is drawn from the generator at insertion, so events
/// landing at the same instant are ordered by the seed rather than by insertion order: without it
/// a sweep would re-explore a single interleaving forever. `seq` only breaks exact tiebreak
/// collisions.
#[derive(Debug)]
pub struct Scheduled {
    pub time: u64,
    pub tiebreak: u64,
    pub seq: u64,
    pub ev: Ev,
}

impl View for Ev {
    type V = EvV;

    open spec fn view(&self) -> EvV {
        match *self {
            Ev::Deliver { from, env } => EvV::Deliver { from, env: env@ },
            Ev::Timer { node, timer_id } => EvV::Timer { node, timer_id },
            Ev::Fault(i) => EvV::Fault(i),
            Ev::Stimulus(i) => EvV::Stimulus(i),
        }
    }
}

impl View for Scheduled {
    type V = QueuedV;

    open spec fn view(&self) -> QueuedV {
        QueuedV { time: self.time, tiebreak: self.tiebreak, seq: self.seq, ev: self.ev@ }
    }
}

pub open spec fn queue_view(q: Seq<Scheduled>) -> Seq<QueuedV> {
    q.map_values(|s: Scheduled| s@)
}

/// Whether `a` is taken before `b`.
fn before(a: &Scheduled, b: &Scheduled) -> (r: bool)
    ensures
        r == taken_before(a@, b@),
{
    a.time < b.time || (a.time == b.time && a.tiebreak < b.tiebreak)
        || (a.time == b.time && a.tiebreak == b.tiebreak && a.seq <= b.seq)
}

#[derive(Debug)]
pub struct Outcome {
    pub ok: bool,
    pub reason: String,
    pub end_time: u64,
    pub events: u64,
}

impl View for Outcome {
    type V = OutcomeV;

    open spec fn view(&self) -> OutcomeV {
        OutcomeV { ok: self.ok, reason: self.reason@, end_time: self.end_time, events: self.events }
    }
}

/// What the caller must do next.
#[derive(Debug)]
pub enum Action {
    /// Deliver `event` to `node`, and hand back everything it emits before its `done`.
    Step { node: usize, event: Envelope },
    /// The scenario crashes `node`: kill its process. It never returns.
    Kill { node: usize },
    /// Nothing outside changes; ask again.
    Continue,
    /// The run is over.
    Done(Outcome),
}

impl View for Action {
    type V = ActionV;

    open spec fn view(&self) -> ActionV {
        match *self {
            Action::Step { node, event } => ActionV::Step { node, event: event@ },
            Action::Kill { node } => ActionV::Kill { node },
            Action::Continue => ActionV::Continue,
            Action::Done(o) => ActionV::Done(o@),
        }
    }
}

pub struct Sim {
    scenario: Scenario,
    run_dir: String,
    rng: Rng,
    names: Vec<String>,
    alive: Vec<bool>,
    queue: Vec<Scheduled>,
    journal: Journal,
    now: u64,
    seq: u64,
    paused_until: Vec<u64>,
    partition_until: u64,
    partition_side: Vec<bool>,
    /// Messages sent so far on each link, `from * n + to`.
    link_count: Vec<u64>,
    /// The last delivery instant scheduled on each link, for FIFO.
    last_sched: Vec<u64>,
    /// The next process to initialise, `n` once every one has been.
    init_next: usize,
    /// How many steps each process has taken: the number that staggers its sends.
    steps: Vec<u64>,
    /// The process currently stepping, whose outputs are awaited.
    awaiting: Option<usize>,
    /// Set once the run has ended, well or badly.
    outcome: Option<(bool, String)>,
}

/// What a scenario must satisfy to be run.
pub open spec fn runnable(sc: &Scenario) -> bool {
    &&& sc.delays_fit()
    &&& sc.nodes * sc.nodes <= usize::MAX
}

fn base_fits_exec(base: u64, jitter_pct: u64) -> (r: bool)
    ensures
        r == crate::scenario::base_fits(base, jitter_pct),
{
    let spread = match base.checked_mul(jitter_pct) {
        Some(p) => p / 100,
        None => u64::MAX / 100,
    };
    base <= u64::MAX - spread
}

fn matrix_fits(m: &Vec<Vec<u64>>, jitter_pct: u64) -> (r: bool)
    ensures
        r == (forall|i: int, j: int| 0 <= i < m@.len() && 0 <= j < m@[i]@.len()
            ==> crate::scenario::base_fits(#[trigger] m@[i]@[j], jitter_pct)),
{
    let mut i: usize = 0;
    while i < m.len()
        invariant
            i <= m@.len(),
            forall|a: int, b: int| 0 <= a < i && 0 <= b < m@[a]@.len() ==> crate::scenario::base_fits(#[trigger] m@[a]@[b], jitter_pct),
        decreases m@.len() - i,
    {
        let mut j: usize = 0;
        while j < m[i].len()
            invariant
                i < m@.len(),
                j <= m@[i as int]@.len(),
                forall|a: int, b: int| 0 <= a < i && 0 <= b < m@[a]@.len() ==> crate::scenario::base_fits(#[trigger] m@[a]@[b], jitter_pct),
                forall|b: int| 0 <= b < j ==> crate::scenario::base_fits(#[trigger] m@[i as int]@[b], jitter_pct),
            decreases m@[i as int]@.len() - j,
        {
            if !base_fits_exec(m[i][j], jitter_pct) {
                return false;
            }
            j = j + 1;
        }
        i = i + 1;
    }
    true
}

/// Whether a scenario can be run: every link's delay, jitter included, fits in a `u64`, one
/// counter per link fits in memory, and its faults and stimuli fit the numbering.
pub fn can_run(sc: &Scenario) -> (r: bool)
    ensures
        r == (runnable(sc) && sc.faults@.len() + sc.stimuli@.len() < 0x1000_0000_0000),
{
    base_fits_exec(sc.delay_pre_default, sc.jitter_pct)
        && base_fits_exec(sc.delay_post_default, sc.jitter_pct)
        && matrix_fits(&sc.delay_pre, sc.jitter_pct)
        && matrix_fits(&sc.delay_post, sc.jitter_pct)
        && sc.nodes.checked_mul(sc.nodes).is_some()
        && (sc.faults.len() as u64) < 0x1000_0000_0000u64
        && (sc.stimuli.len() as u64) < 0x1000_0000_0000u64 - (sc.faults.len() as u64)
}

impl Sim {
    // ------------------------------------------------------------- the model

    /// The whole state, as a value.
    pub closed spec fn model(&self) -> SimV {
        SimV {
            rng: self.rng@,
            alive: self.alive@,
            queue: queue_view(self.queue@).to_multiset(),
            journal: self.journal.entries(),
            now: self.now,
            seq: self.seq,
            paused_until: self.paused_until@,
            partition_until: self.partition_until,
            partition_side: self.partition_side@,
            link_count: self.link_count@,
            last_sched: self.last_sched@,
            init_next: self.init_next as nat,
            steps: self.steps@,
            awaiting: self.awaiting,
            outcome: match self.outcome {
                Some((ok, r)) => Some((ok, r@)),
                None => None,
            },
        }
    }

    /// The scenario being run.
    pub closed spec fn scenario_of(&self) -> Scenario {
        self.scenario
    }

    pub closed spec fn nodes(&self) -> nat {
        self.scenario.nodes as nat
    }

    /// The current logical instant.
    pub closed spec fn spec_now(&self) -> u64 {
        self.now
    }

    /// Whether process `i` is alive: not crashed by the scenario, not dead on its own.
    pub closed spec fn is_alive(&self, i: int) -> bool {
        self.alive@[i]
    }

    pub closed spec fn paused_until_of(&self, i: int) -> u64 {
        self.paused_until@[i]
    }

    /// Whether a message from `a` to `b` crosses the current partition.
    pub closed spec fn split(&self, a: int, b: int) -> bool {
        self.now < self.partition_until && self.partition_side@[a] != self.partition_side@[b]
    }

    /// The run directory, as failures name it.
    pub closed spec fn spec_run_dir(&self) -> Seq<char> {
        self.run_dir@
    }

    /// When the current partition heals.
    pub closed spec fn heals_at(&self) -> u64 {
        self.partition_until
    }

    pub closed spec fn journal_view(&self) -> Seq<JsonV> {
        self.journal.entries()
    }

    pub closed spec fn is_awaiting(&self) -> Option<usize> {
        self.awaiting
    }

    pub closed spec fn is_over(&self) -> bool {
        self.outcome is Some
    }

    /// The last delivery instant scheduled on the link `from -> to`.
    pub closed spec fn last_scheduled(&self, from: int, to: int) -> u64 {
        self.last_sched@[from * self.scenario.nodes + to]
    }

    pub closed spec fn fifo(&self) -> bool {
        self.scenario.fifo
    }

    /// How much of the journal's and the queue's numbering a run has used.
    pub closed spec fn used(&self) -> nat {
        (self.journal.entries().len() + self.queue@.len() + self.seq) as nat
    }

    /// Whether `k` more lines and events fit in the numbering.
    pub open spec fn has_room(&self, k: nat) -> bool {
        self.used() + k < u64::MAX
    }

    /// The room left in the numbering.
    pub fn room(&self) -> (r: u64)
        requires
            self.wf(),
        ensures
            r as nat + self.used() == u64::MAX,
    {
        u64::MAX - (self.journal.len() + self.queue.len() as u64 + self.seq)
    }

    pub closed spec fn wf(&self) -> bool {
        let n = self.scenario.nodes as int;
        &&& runnable(&self.scenario)
        &&& self.journal.wf()
        &&& self.journal.last_time() <= self.now
        &&& self.names@.len() == n
        &&& forall|i: int| 0 <= i < n ==> (#[trigger] self.names@[i])@ == spec_name(i as nat)
        &&& self.alive@.len() == n
        &&& self.paused_until@.len() == n
        &&& self.partition_side@.len() == n
        &&& self.link_count@.len() == n * n
        &&& self.last_sched@.len() == n * n
        &&& forall|l: int| 0 <= l < n * n ==> #[trigger] self.link_count@[l] <= self.seq
        &&& self.init_next <= n
        &&& self.steps@.len() == n
        &&& (self.init_next < n ==> self.now == 0 && forall|k: int| 0 <= k < n ==> #[trigger] self.paused_until@[k] == 0)
        &&& (self.awaiting matches Some(i) ==> i < n)
        &&& forall|k: int| 0 <= k < self.queue@.len() ==> (#[trigger] self.queue@[k]).time >= self.now
        &&& forall|k: int| 0 <= k < self.queue@.len() ==> ev_ok(#[trigger] self.queue@[k].ev, &self.scenario)
        &&& forall|k: int| 0 <= k < self.queue@.len() ==> (#[trigger] self.queue@[k]).seq < self.seq
        &&& seqs_distinct(queue_view(self.queue@))
        &&& self.journal.entries().len() + self.queue@.len() + self.seq < u64::MAX
    }

    /// The observers read the whole state: the journal, each process's life and pause, the clock,
    /// the awaited process, the partition's end, and whether the run is over and how.
    pub proof fn lemma_observers(&self)
        ensures
            self.model().journal == self.journal_view(),
            forall|i: int| #![trigger self.is_alive(i)] self.model().alive[i] == self.is_alive(i),
            forall|i: int| #![trigger self.paused_until_of(i)] self.model().paused_until[i] == self.paused_until_of(i),
            self.model().now == self.spec_now(),
            self.model().awaiting == self.is_awaiting(),
            self.model().partition_until == self.heals_at(),
            self.model().outcome is Some <==> self.is_over(),
            self.wf() ==> self.model().alive.len() == self.nodes() && self.model().paused_until.len() == self.nodes(),
    {
    }

    /// The journal of a run, at any point: lines numbered densely from zero in the order
    /// written, each with an instant, none earlier than the one before, and none later than
    /// the simulator's clock.
    pub proof fn lemma_journal_ordered(&self)
        requires
            self.wf(),
        ensures
            forall|i: int| 0 <= i < self.journal_view().len() ==> line_seq(#[trigger] self.journal_view()[i]) == Some(i as u64),
            forall|i: int| 0 <= i < self.journal_view().len() ==> (#[trigger] line_time(self.journal_view()[i])) is Some,
            forall|i: int, j: int| 0 <= i < j < self.journal_view().len() ==>
                (#[trigger] line_time(self.journal_view()[i]))->0 <= (#[trigger] line_time(self.journal_view()[j]))->0,
            forall|i: int| 0 <= i < self.journal_view().len() ==> (#[trigger] line_time(self.journal_view()[i]))->0 <= self.spec_now(),
    {
        self.journal.lemma_lines_ordered();
        assert forall|i: int| 0 <= i < self.journal_view().len() implies (#[trigger] line_time(self.journal_view()[i]))->0 <= self.spec_now() by {
            let last = self.journal_view().len() - 1;
            if i < last {
                assert(line_time(self.journal_view()[i])->0 <= line_time(self.journal_view()[last])->0);
            }
        }
    }

    // ------------------------------------------------------------- building

    /// A simulator for `scenario`, with every fault and every stimulus already scheduled.
    ///
    /// `run_dir` names the run directory in messages, so a failure says where to look.
    pub fn new(scenario: Scenario, run_dir: String) -> (s: Sim)
        requires
            runnable(&scenario),
            scenario.faults@.len() + scenario.stimuli@.len() < 0x1000_0000_0000,
        ensures
            s.wf(),
            s.spec_now() == 0,
            s.journal_view().len() == 0,
            s.is_awaiting() is None,
            !s.is_over(),
            s.nodes() == scenario.nodes,
            forall|i: int| 0 <= i < scenario.nodes ==> s.is_alive(i) && s.paused_until_of(i) == 0,
            s.scenario_of() == scenario,
            s.spec_run_dir() == run_dir@,
            s.model() == spec_start(scenario),
    {
        let ghost dir = run_dir@;
        let n = scenario.nodes;
        let mut names: Vec<String> = Vec::new();
        let mut alive: Vec<bool> = Vec::new();
        let mut paused_until: Vec<u64> = Vec::new();
        let mut partition_side: Vec<bool> = Vec::new();
        let mut steps: Vec<u64> = Vec::new();
        let mut i: usize = 0;
        while i < n
            invariant
                i <= n,
                names@.len() == i,
                alive@.len() == i,
                paused_until@.len() == i,
                partition_side@.len() == i,
                forall|k: int| 0 <= k < i ==> (#[trigger] names@[k])@ == spec_name(k as nat),
                forall|k: int| #![trigger alive@[k]] #![trigger paused_until@[k]] 0 <= k < i ==> alive@[k] && paused_until@[k] == 0,
                forall|k: int| 0 <= k < i ==> !(#[trigger] partition_side@[k]),
                steps@.len() == i,
                forall|k: int| 0 <= k < i ==> #[trigger] steps@[k] == 0,
            decreases n - i,
        {
            names.push(node_name(i));
            alive.push(true);
            paused_until.push(0);
            partition_side.push(false);
            steps.push(0);
            i = i + 1;
        }
        let nn = n * n;
        let mut link_count: Vec<u64> = Vec::new();
        let mut last_sched: Vec<u64> = Vec::new();
        let mut k: usize = 0;
        while k < nn
            invariant
                k <= nn,
                link_count@.len() == k,
                last_sched@.len() == k,
                forall|l: int| 0 <= l < k ==> #[trigger] link_count@[l] == 0,
                forall|l: int| 0 <= l < k ==> #[trigger] last_sched@[l] == 0,
            decreases nn - k,
        {
            link_count.push(0);
            last_sched.push(0);
            k = k + 1;
        }
        let rng = Rng::new(scenario.seed() ^ TIEBREAK_SALT);
        let mut s = Sim {
            scenario,
            run_dir,
            rng,
            names,
            alive,
            queue: Vec::new(),
            journal: Journal::new(),
            now: 0,
            seq: 0,
            paused_until,
            partition_until: 0,
            partition_side,
            link_count,
            last_sched,
            init_next: 0,
            steps,
            awaiting: None,
            outcome: None,
        };
        let ghost sc = s.scenario;
        proof {
            let nn = n as nat;
            assert(s.alive@ =~= Seq::new(nn, |k: int| true));
            assert(s.paused_until@ =~= Seq::new(nn, |k: int| 0u64));
            assert(s.partition_side@ =~= Seq::new(nn, |k: int| false));
            assert(s.steps@ =~= Seq::new(nn, |k: int| 0u64));
            assert(s.link_count@ =~= Seq::new(nn * nn, |k: int| 0u64));
            assert(s.last_sched@ =~= Seq::new(nn * nn, |k: int| 0u64));
            assert(s.journal.entries() =~= seq![]);
            vstd::seq_lib::to_multiset_len(queue_view(s.queue@));
            vstd::multiset::lemma_multiset_empty_len(queue_view(s.queue@).to_multiset());
            assert(s.model() == spec_empty(sc));
        }
        let nf = s.scenario.faults.len();
        let mut i: usize = 0;
        while i < nf
            invariant
                s.wf(),
                s.now == 0,
                s.journal.entries().len() == 0,
                s.awaiting is None,
                s.outcome is None,
                s.scenario.nodes == n,
                nf == s.scenario.faults@.len(),
                s.scenario.faults@.len() + s.scenario.stimuli@.len() < 0x1000_0000_0000,
                s.queue@.len() == i,
                s.seq == i,
                i <= nf,
                sc == s.scenario,
                s.run_dir@ == dir,
                s.model() == spec_queue_faults(sc, i as nat, spec_empty(sc)),
                forall|k: int| 0 <= k < n ==> s.alive@[k] && s.paused_until@[k] == 0,
            decreases nf - i,
        {
            let at = s.scenario.faults[i].at();
            s.schedule(at, Ev::Fault(i));
            i = i + 1;
        }
        let ns = s.scenario.stimuli.len();
        let mut i: usize = 0;
        while i < ns
            invariant
                s.wf(),
                s.now == 0,
                s.journal.entries().len() == 0,
                s.awaiting is None,
                s.outcome is None,
                s.scenario.nodes == n,
                ns == s.scenario.stimuli@.len(),
                s.scenario.faults@.len() + s.scenario.stimuli@.len() < 0x1000_0000_0000,
                s.queue@.len() == s.scenario.faults@.len() + i,
                s.seq == s.scenario.faults@.len() + i,
                i <= ns,
                sc == s.scenario,
                s.run_dir@ == dir,
                s.model() == spec_queue_stimuli(sc, i as nat, spec_queue_faults(sc, sc.faults@.len(), spec_empty(sc))),
                forall|k: int| 0 <= k < n ==> s.alive@[k] && s.paused_until@[k] == 0,
            decreases ns - i,
        {
            let at = s.scenario.stimuli[i].at;
            s.schedule(at, Ev::Stimulus(i));
            i = i + 1;
        }
        s
    }

    /// Queue `ev` at `time`, with a fresh tiebreak.
    fn schedule(&mut self, time: u64, ev: Ev)
        requires
            old(self).wf(),
            time >= old(self).now,
            ev_ok(ev, &old(self).scenario),
            old(self).journal.entries().len() + old(self).queue@.len() + old(self).seq + 2 < u64::MAX,
        ensures
            final(self).wf(),
            final(self).model() == spec_schedule(old(self).model(), time, ev@),
            final(self).queue@.len() == old(self).queue@.len() + 1,
            final(self).queue@.last().time == time,
            final(self).seq == old(self).seq + 1,
            final(self).now == old(self).now,
            final(self).journal == old(self).journal,
            final(self).scenario == old(self).scenario,
            final(self).alive == old(self).alive,
            final(self).paused_until == old(self).paused_until,
            final(self).partition_until == old(self).partition_until,
            final(self).partition_side == old(self).partition_side,
            final(self).last_sched == old(self).last_sched,
            final(self).link_count == old(self).link_count,
            final(self).names == old(self).names,
            final(self).init_next == old(self).init_next,
            final(self).awaiting == old(self).awaiting,
            final(self).outcome == old(self).outcome,
            final(self).run_dir == old(self).run_dir,
    {
        let tiebreak = self.rng.next_u64();
        let seq = self.seq;
        self.seq = self.seq + 1;
        let ghost before = self.queue@;
        let item = Scheduled { time, tiebreak, seq, ev };
        self.queue.push(item);
        proof {
            assert(queue_view(self.queue@) =~= queue_view(before).push(item@));
            vstd::seq_lib::to_multiset_build(queue_view(before), item@);
            let q = queue_view(self.queue@);
            assert forall|a: int, b: int| 0 <= a < b < q.len() implies (#[trigger] q[a]).seq != (#[trigger] q[b]).seq by {
                if b == q.len() - 1 {
                    assert(q[a] == before[a]@);
                } else {
                    assert(q[a] == queue_view(before)[a] && q[b] == queue_view(before)[b]);
                }
            }
        }
    }

    fn index_of(&self, name: &String) -> (r: Option<usize>)
        requires
            self.wf(),
        ensures
            r matches Some(i) ==> i < self.scenario.nodes && name@ == spec_name(i as nat),
            r is None ==> forall|i: nat| i < self.scenario.nodes ==> name@ != #[trigger] spec_name(i),
            r == spec_index(name@, self.scenario.nodes as nat),
    {
        let mut i: usize = 0;
        while i < self.names.len()
            invariant
                self.wf(),
                i <= self.names@.len(),
                forall|k: nat| k < i ==> name@ != #[trigger] spec_name(k),
            decreases self.names@.len() - i,
        {
            if same_text(self.names[i].as_str(), name.as_str()) {
                proof {
                    let n = self.scenario.nodes as nat;
                    assert(spec_name(i as nat) == name@);
                    let c = choose|c: nat| c < n && spec_name(c) == name@;
                    lemma_name_injective(c, i as nat);
                }
                return Some(i);
            }
            i = i + 1;
        }
        None
    }
}

/// A queued event refers to what exists: a fault or a stimulus of the scenario, a process.
pub open spec fn ev_ok(ev: Ev, sc: &Scenario) -> bool {
    match ev {
        Ev::Deliver { from, .. } => from < sc.nodes,
        Ev::Timer { node, .. } => node < sc.nodes,
        Ev::Fault(i) => i < sc.faults@.len(),
        Ev::Stimulus(i) => i < sc.stimuli@.len(),
    }
}


/// What happens to a message in flight when its instant comes.
#[derive(Debug, Clone, Copy)]
pub enum Delivery {
    /// Its sender has crashed: a still-in-flight message dies with it. This is what makes a
    /// partial broadcast expressible.
    DropFromCrashed,
    /// Held, not dropped: until the partition heals, or until the receiver wakes.
    Hold(u64),
    /// Its receiver is dead.
    DropToCrashed,
    Deliver,
}

/// When a message sent at `now` over a link of delay `delay` is due, given the last instant
/// scheduled on that link: on a FIFO link strictly after it.
pub open spec fn spec_arrival(now: u64, delay: u64, fifo: bool, prev: u64) -> u64 {
    let at = if now + delay > u64::MAX { u64::MAX } else { (now + delay) as u64 };
    if fifo && at <= prev {
        if prev == u64::MAX { u64::MAX } else { (prev + 1) as u64 }
    } else {
        at
    }
}

/// When a message sent at `now` with delay `delay` is due, given the last instant scheduled on
/// its link and whether links are FIFO.
pub fn arrival(now: u64, delay: u64, fifo: bool, prev: u64) -> (at: u64)
    ensures
        at == spec_arrival(now, delay, fifo, prev),
        at >= now,
        fifo ==> at > prev || at == u64::MAX,
{
    let at = now.saturating_add(delay);
    if fifo && at <= prev {
        prev.saturating_add(1)
    } else {
        at
    }
}

fn obj1(k: &str, v: Json) -> (j: Json)
    ensures
        j@ == JsonV::Object(seq![(k@, v@)]),
{
    let mut es: Vec<(String, Json)> = Vec::new();
    es.push((text(k), v));
    let j = Json::Object(es);
    proof {
        if let JsonV::Object(x) = j@ {
            assert(x =~= seq![(k@, v@)]);
        }
    }
    j
}

fn obj2(k1: &str, v1: Json, k2: &str, v2: Json) -> (j: Json)
    ensures
        j@ == JsonV::Object(seq![(k1@, v1@), (k2@, v2@)]),
{
    let mut es: Vec<(String, Json)> = Vec::new();
    es.push((text(k1), v1));
    es.push((text(k2), v2));
    let j = Json::Object(es);
    proof {
        if let JsonV::Object(x) = j@ {
            assert(x[0] == (k1@, v1@));
            assert(x[1] == (k2@, v2@));
            assert(x =~= seq![(k1@, v1@), (k2@, v2@)]);
        }
    }
    j
}

impl Sim {
    /// What happens to a message from `from` to `to` now.
    pub fn delivery(&self, from: usize, to: usize) -> (d: Delivery)
        requires
            self.wf(),
            from < self.nodes(),
            to < self.nodes(),
        ensures
            d == if !self.is_alive(from as int) {
                Delivery::DropFromCrashed
            } else if self.split(from as int, to as int) {
                Delivery::Hold(self.heals_at())
            } else if self.spec_now() < self.paused_until_of(to as int) {
                Delivery::Hold(self.paused_until_of(to as int))
            } else if !self.is_alive(to as int) {
                Delivery::DropToCrashed
            } else {
                Delivery::Deliver
            },
    {
        if !self.alive[from] {
            Delivery::DropFromCrashed
        } else if self.now < self.partition_until && self.partition_side[from] != self.partition_side[to] {
            Delivery::Hold(self.partition_until)
        } else if self.now < self.paused_until[to] {
            Delivery::Hold(self.paused_until[to])
        } else if !self.alive[to] {
            Delivery::DropToCrashed
        } else {
            Delivery::Deliver
        }
    }

    /// The earliest event in the queue, taken out of it.
    fn pop_min(&mut self) -> (r: Option<Scheduled>)
        requires
            old(self).wf(),
        ensures
            final(self).wf(),
            final(self).used() <= old(self).used(),
            old(self).queue@.len() == 0 <==> r is None,
            r is None ==> final(self).queue@ == old(self).queue@,
            final(self).rng == old(self).rng,
            final(self).steps == old(self).steps,
            r matches Some(s) ==> s@ == spec_earliest(old(self).model().queue)
                && final(self).model() == (SimV { queue: old(self).model().queue.remove(s@), ..old(self).model() }),
            r matches Some(s) ==> s.time >= old(self).now && ev_ok(s.ev, &old(self).scenario)
                && forall|k: int| 0 <= k < final(self).queue@.len() ==> #[trigger] final(self).queue@[k].time >= s.time,
            final(self).now == old(self).now,
            final(self).journal == old(self).journal,
            final(self).scenario == old(self).scenario,
            final(self).alive == old(self).alive,
            final(self).paused_until == old(self).paused_until,
            final(self).partition_until == old(self).partition_until,
            final(self).partition_side == old(self).partition_side,
            final(self).last_sched == old(self).last_sched,
            final(self).link_count == old(self).link_count,
            final(self).names == old(self).names,
            final(self).init_next == old(self).init_next,
            final(self).awaiting == old(self).awaiting,
            final(self).outcome == old(self).outcome,
            final(self).seq == old(self).seq,
            final(self).run_dir == old(self).run_dir,
    {
        if self.queue.len() == 0 {
            return None;
        }
        let mut best: usize = 0;
        let mut k: usize = 1;
        while k < self.queue.len()
            invariant
                1 <= k <= self.queue@.len(),
                best < self.queue@.len(),
                forall|j: int| 0 <= j < k ==> taken_before(self.queue@[best as int]@, #[trigger] self.queue@[j]@),
            decreases self.queue@.len() - k,
        {
            if !before(&self.queue[best], &self.queue[k]) {
                best = k;
            }
            k = k + 1;
        }
        let ghost old_q = self.queue@;
        let s = self.queue.swap_remove(best);
        proof {
            let vq = queue_view(old_q);
            assert forall|j: int| 0 <= j < vq.len() implies taken_before(vq[best as int], #[trigger] vq[j]) by {
                assert(taken_before(old_q[best as int]@, old_q[j]@));
            }
            lemma_earliest(vq, best as int);
            assert(queue_view(self.queue@) =~= vq.update(best as int, vq.last()).drop_last());
            lemma_swap_remove_multiset(vq, best as int);
            let q = queue_view(self.queue@);
            assert forall|a: int, b: int| 0 <= a < b < q.len() implies (#[trigger] q[a]).seq != (#[trigger] q[b]).seq by {
                let sa = if a == best { vq.len() - 1 } else { a };
                let sb = if b == best { vq.len() - 1 } else { b };
                assert(q[a] == vq[sa] && q[b] == vq[sb]);
            }
            assert forall|j: int| 0 <= j < self.queue@.len() implies (#[trigger] self.queue@[j]).seq < self.seq by {
                if j == best {
                    assert(self.queue@[j] == old_q.last());
                } else {
                    assert(self.queue@[j] == old_q[j]);
                }
            }
            assert forall|j: int| 0 <= j < self.queue@.len() implies #[trigger] self.queue@[j].time >= s.time && self.queue@[j].time >= self.now
                && ev_ok(self.queue@[j].ev, &self.scenario) by {
                if j == best {
                    assert(self.queue@[j] == old_q.last());
                    assert(taken_before(old_q[best as int]@, old_q[old_q.len() - 1]@));
                } else {
                    assert(self.queue@[j] == old_q[j]);
                    assert(taken_before(old_q[best as int]@, old_q[j]@));
                }
            }
        }
        Some(s)
    }

    /// End the run, well or not: the last line says why, and how many events were ever scheduled.
    fn finish(&mut self, ok: bool, reason: &str)
        requires
            old(self).wf(),
            old(self).has_room(1),
        ensures
            final(self).run_dir == old(self).run_dir,
            final(self).wf(),
            final(self).model() == spec_finish(old(self).model(), ok, reason@),
            final(self).outcome matches Some((o, r)) && o == ok && r@ == reason@,
            final(self).journal_view().len() == old(self).journal_view().len() + 1,
            old(self).journal_view().is_prefix_of(final(self).journal_view()),
            final(self).used() == old(self).used() + 1,
            final(self).now == old(self).now,
            final(self).alive == old(self).alive,
            final(self).paused_until == old(self).paused_until,
            final(self).awaiting == old(self).awaiting,
            final(self).scenario == old(self).scenario,
    {
        let detail = obj2("reason", Json::str(reason), "scheduled", Json::Uint(self.seq));
        self.journal.note(self.now, "end", detail);
        self.outcome = Some((ok, text(reason)));
    }

    /// The body of the `init` every node gets first: its own name, every name, the group size
    /// and the fault budget. Deliberately not the GST: knowing it lets a node refuse to suspect
    /// anyone until it has passed, a perfect failure detector that skips the whole point.
    fn init_body(&self, i: usize) -> (j: Json)
        requires
            self.wf(),
            i < self.nodes(),
        ensures
            j@ == spec_init_body(self.scenario, i as nat),
    {
        let mut ids: Vec<Json> = Vec::new();
        let mut k: usize = 0;
        while k < self.names.len()
            invariant
                self.wf(),
                k <= self.names@.len(),
                ids@.len() == k,
                forall|j: int| 0 <= j < k ==> (#[trigger] ids@[j])@ == JsonV::Str(spec_name(j as nat)),
            decreases self.names@.len() - k,
        {
            ids.push(Json::Str(self.names[k].clone()));
            k = k + 1;
        }
        let ghost idv = Json::Array(ids)@;
        let mut es: Vec<(String, Json)> = Vec::new();
        es.push((text("type"), Json::str("init")));
        es.push((text("node_id"), Json::Str(self.names[i].clone())));
        es.push((text("node_ids"), Json::Array(ids)));
        es.push((text("n"), Json::Uint(self.scenario.nodes as u64)));
        es.push((text("f"), Json::Uint(self.scenario.f as u64)));
        let provided = Json::Array(Vec::new());
        let ghost pv = provided@;
        es.push((text("provided"), provided));
        let j = Json::Object(es);
        proof {
            let n = self.scenario.nodes as nat;
            assert(idv == JsonV::Array(Seq::new(n, |k: int| JsonV::Str(spec_name(k as nat))))) by {
                if let JsonV::Array(a) = idv {
                    assert(a =~= Seq::new(n, |k: int| JsonV::Str(spec_name(k as nat))));
                }
            }
            assert(pv == JsonV::Array(seq![])) by {
                if let JsonV::Array(a) = pv {
                    assert(a =~= seq![]);
                }
            }
            assert(self.names@[i as int]@ == spec_name(i as nat));
            assert(es@[1].1@ == JsonV::Str(spec_name(i as nat)));
            assert(es@[3].1@ == JsonV::Uint(self.scenario.nodes as u64));
            assert(es@[4].1@ == JsonV::Uint(self.scenario.f as u64));
            assert(es@[0].1@ == JsonV::Str("init"@));
            if let JsonV::Object(x) = j@ {
                assert(x[0] == ("type"@, JsonV::Str("init"@)));
                assert(x[1] == ("node_id"@, JsonV::Str(spec_name(i as nat))));
                assert(x[2].0 == "node_ids"@);
                assert(x[3] == ("n"@, JsonV::Uint(self.scenario.nodes as u64)));
                assert(x[4] == ("f"@, JsonV::Uint(self.scenario.f as u64)));
                assert(x[5].0 == "provided"@);
                if let JsonV::Object(want) = spec_init_body(self.scenario, i as nat) {
                    assert(x =~= want);
                }
            }
        }
        j
    }

    /// What taking an event from the queue leaves true, whatever the event.
    spec fn took(&self, before: Sim, a: Action) -> bool {
        &&& self.wf()
        &&& self.now == before.now
        &&& before.journal_view().is_prefix_of(self.journal_view())
        &&& self.scenario == before.scenario
        &&& self.outcome == before.outcome
        &&& self.init_next == before.init_next
        &&& forall|i: int| 0 <= i < before.nodes() && !before.is_alive(i) ==> !self.is_alive(i)
        &&& (a matches Action::Step { node, .. } ==> node < self.nodes() && self.is_alive(node as int)
            && self.now >= self.paused_until_of(node as int) && self.awaiting == Some(node))
        &&& (!(a is Step) ==> self.awaiting is None)
        &&& (a matches Action::Kill { node } ==> node < self.nodes() && !self.is_alive(node as int))
        &&& !(a is Done)
        &&& self.used() <= before.used() + 2
    }

    /// An envelope from the harness to process `idx`.
    fn harness_envelope(&self, idx: usize, body: Json) -> (env: Envelope)
        requires
            self.wf(),
            idx < self.nodes(),
        ensures
            env@ == (EnvelopeV { src: harness_name(), dest: spec_name(idx as nat), body: body@ }),
    {
        proof {
            lemma_harness_name();
        }
        Envelope::new(HARNESS, self.names[idx].as_str(), body)
    }

    /// Initialise the next process.
    fn init_step(&mut self) -> (a: Action)
        requires
            old(self).wf(),
            old(self).awaiting is None,
            old(self).outcome is None,
            old(self).init_next < old(self).scenario.nodes,
            old(self).has_room(1),
        ensures
            final(self).run_dir == old(self).run_dir,
            final(self).wf(),
            final(self).now == old(self).now,
            old(self).journal_view().is_prefix_of(final(self).journal_view()),
            final(self).scenario == old(self).scenario,
            final(self).outcome is None,
            final(self).alive == old(self).alive,
            a matches Action::Step { node, .. } ==> node < final(self).nodes() && final(self).is_alive(node as int)
                && final(self).now >= final(self).paused_until_of(node as int) && final(self).awaiting == Some(node),
            !(a is Step) ==> final(self).awaiting is None,
            a is Step || a is Continue,
            final(self).used() <= old(self).used() + 1,
            (final(self).model(), a@) == crate::machine::spec_init_step(old(self).scenario, old(self).model()),
    {
        let i = self.init_next;
        self.init_next = self.init_next + 1;
        let body = self.init_body(i);
        let env = self.harness_envelope(i, body);
        self.journal.record(0, "init", &env);
        if !self.alive[i] {
            return Action::Continue;
        }
        self.awaiting = Some(i);
        Action::Step { node: i, event: env }
    }

    /// A stimulus whose instant came.
    fn on_stimulus(&mut self, i: usize) -> (a: Action)
        requires
            old(self).wf(),
            old(self).awaiting is None,
            old(self).init_next == old(self).scenario.nodes,
            old(self).has_room(2),
            i < old(self).scenario.stimuli@.len(),
        ensures
            final(self).scenario == old(self).scenario,
            final(self).run_dir == old(self).run_dir,
            final(self).took(*old(self), a),
            (final(self).model(), a@) == crate::machine::spec_on_stimulus(old(self).scenario, i as int, old(self).model()),
    {
        let found = self.index_of(&self.scenario.stimuli[i].node);
        match found {
            None => Action::Continue,
            Some(idx) => {
                if self.now < self.paused_until[idx] {
                    let at = self.paused_until[idx];
                    self.schedule(at, Ev::Stimulus(i));
                    return Action::Continue;
                }
                if !self.alive[idx] {
                    return Action::Continue;
                }
                let body = self.scenario.stimuli[i].body.duplicate();
                let env = self.harness_envelope(idx, body);
                self.journal.record(self.now, "stimulus", &env);
                self.awaiting = Some(idx);
                Action::Step { node: idx, event: env }
            },
        }
    }

    /// A message whose instant came.
    fn on_deliver(&mut self, from: usize, env: Envelope) -> (a: Action)
        requires
            old(self).wf(),
            old(self).awaiting is None,
            old(self).init_next == old(self).scenario.nodes,
            old(self).has_room(2),
            from < old(self).scenario.nodes,
        ensures
            final(self).scenario == old(self).scenario,
            final(self).run_dir == old(self).run_dir,
            final(self).took(*old(self), a),
            (final(self).model(), a@) == crate::machine::spec_on_deliver(old(self).scenario, from, env@, old(self).model()),
    {
        let found = self.index_of(&env.dest);
        match found {
            None => Action::Continue,
            Some(to) => match self.delivery(from, to) {
                Delivery::DropFromCrashed => {
                    let detail = obj2("src", Json::Str(env.src.clone()), "dest", Json::Str(env.dest.clone()));
                    self.journal.note(self.now, "drop-from-crashed", detail);
                    Action::Continue
                },
                Delivery::Hold(at) => {
                    self.schedule(at, Ev::Deliver { from, env });
                    Action::Continue
                },
                Delivery::DropToCrashed => {
                    let detail = obj1("dest", Json::Str(env.dest.clone()));
                    self.journal.note(self.now, "drop-to-crashed", detail);
                    Action::Continue
                },
                Delivery::Deliver => {
                    self.journal.record(self.now, "recv", &env);
                    self.awaiting = Some(to);
                    Action::Step { node: to, event: env }
                },
            },
        }
    }

    /// A timer whose instant came.
    fn on_timer(&mut self, node: usize, timer_id: u64) -> (a: Action)
        requires
            old(self).wf(),
            old(self).awaiting is None,
            old(self).init_next == old(self).scenario.nodes,
            old(self).has_room(2),
            node < old(self).scenario.nodes,
        ensures
            final(self).scenario == old(self).scenario,
            final(self).run_dir == old(self).run_dir,
            final(self).took(*old(self), a),
            (final(self).model(), a@) == crate::machine::spec_on_timer(node, timer_id, old(self).model()),
    {
        if self.now < self.paused_until[node] {
            let at = self.paused_until[node];
            self.schedule(at, Ev::Timer { node, timer_id });
            return Action::Continue;
        }
        if !self.alive[node] {
            return Action::Continue;
        }
        let body = obj2("type", Json::str("timer"), "timer_id", Json::Uint(timer_id));
        let env = self.harness_envelope(node, body);
        self.journal.record(self.now, "timer", &env);
        self.awaiting = Some(node);
        Action::Step { node, event: env }
    }

    /// The event taken from the queue, at its instant.
    fn take(&mut self, ev: Ev) -> (a: Action)
        requires
            old(self).wf(),
            old(self).awaiting is None,
            old(self).init_next == old(self).scenario.nodes,
            old(self).has_room(2),
            ev_ok(ev, &old(self).scenario),
        ensures
            final(self).scenario == old(self).scenario,
            final(self).run_dir == old(self).run_dir,
            final(self).took(*old(self), a),
            (final(self).model(), a@) == crate::machine::spec_take(old(self).scenario, ev@, old(self).model()),
    {
        match ev {
            Ev::Fault(i) => match self.apply_fault(i) {
                Some(idx) => Action::Kill { node: idx },
                None => Action::Continue,
            },
            Ev::Stimulus(i) => self.on_stimulus(i),
            Ev::Deliver { from, env } => self.on_deliver(from, env),
            Ev::Timer { node, timer_id } => self.on_timer(node, timer_id),
        }
    }

    /// Take one decision, and say what the caller must do.
    pub fn next(&mut self) -> (a: Action)
        requires
            old(self).wf(),
            old(self).is_awaiting() is None,
            old(self).has_room(4),
        ensures
            final(self).scenario_of() == old(self).scenario_of(),
            final(self).spec_run_dir() == old(self).spec_run_dir(),
            final(self).wf(),
            final(self).spec_now() >= old(self).spec_now(),
            old(self).journal_view().is_prefix_of(final(self).journal_view()),
            final(self).nodes() == old(self).nodes(),
            forall|i: int| 0 <= i < old(self).nodes() && !old(self).is_alive(i) ==> !final(self).is_alive(i),
            a matches Action::Step { node, .. } ==> node < final(self).nodes()
                && final(self).is_alive(node as int)
                && final(self).spec_now() >= final(self).paused_until_of(node as int)
                && final(self).is_awaiting() == Some(node),
            !(a is Step) ==> final(self).is_awaiting() is None,
            a matches Action::Kill { node } ==> node < final(self).nodes() && !final(self).is_alive(node as int),
            a is Done ==> final(self).is_over(),
            old(self).is_over() ==> a is Done && final(self).journal_view() == old(self).journal_view(),
            final(self).used() <= old(self).used() + 4,
            (final(self).model(), a@) == spec_next(old(self).scenario_of(), old(self).model()),
    {
        proof {
            vstd::seq_lib::to_multiset_len(queue_view(self.queue@));
        }
        if let Some((ok, reason)) = &self.outcome {
            return Action::Done(Outcome { ok: *ok, reason: reason.clone(), end_time: self.now, events: self.seq });
        }
        let n = self.scenario.nodes;
        if self.init_next < n {
            return self.init_step();
        }
        let popped = self.pop_min();
        match popped {
            None => {
                self.finish(true, "quiescent");
                Action::Done(Outcome { ok: true, reason: text("quiescent"), end_time: self.now, events: self.seq })
            },
            Some(s) => {
                if s.time > self.scenario.time_limit {
                    let detail = obj1("limit", Json::Uint(self.scenario.time_limit));
                    self.journal.note(self.now, "time-limit", detail);
                    self.finish(true, "time-limit");
                    return Action::Done(Outcome { ok: true, reason: text("time-limit"), end_time: self.now, events: self.seq });
                }
                self.now = s.time;
                self.take(s.ev)
            },
        }
    }

    /// Apply the `i`-th fault of the scenario now. A crash returns the process to kill.
    fn apply_fault(&mut self, i: usize) -> (killed: Option<usize>)
        requires
            old(self).wf(),
            old(self).has_room(1),
            i < old(self).scenario.faults@.len(),
            old(self).awaiting is None,
            old(self).init_next == old(self).scenario.nodes,
        ensures
            final(self).run_dir == old(self).run_dir,
            final(self).wf(),
            final(self).now == old(self).now,
            old(self).journal_view().is_prefix_of(final(self).journal_view()),
            final(self).used() <= old(self).used() + 1,
            final(self).awaiting is None,
            final(self).outcome == old(self).outcome,
            final(self).scenario == old(self).scenario,
            final(self).init_next == old(self).init_next,
            forall|j: int| 0 <= j < old(self).nodes() && !old(self).is_alive(j) ==> !final(self).is_alive(j),
            killed matches Some(k) ==> k < final(self).nodes() && !final(self).is_alive(k as int),
            (final(self).model(), killed) == spec_apply_fault(old(self).scenario, i as int, old(self).model()),
    {
        let ghost n = self.scenario.nodes;
        match &self.scenario.faults[i] {
            Fault::Crash { node, .. } => {
                let found = self.index_of(node);
                match found {
                    Some(idx) => {
                        let detail = obj1("node", Json::Str(self.names[idx].clone()));
                        self.journal.note(self.now, "fault-crash", detail);
                        self.alive.set(idx, false);
                        Some(idx)
                    },
                    None => None,
                }
            },
            Fault::Pause { node, duration, .. } => {
                let found = self.index_of(node);
                let d = *duration;
                match found {
                    Some(idx) => {
                        let until = self.now.saturating_add(d);
                        self.paused_until.set(idx, until);
                        let detail = obj2("node", Json::Str(self.names[idx].clone()), "until", Json::Uint(until));
                        self.journal.note(self.now, "fault-pause", detail);
                    },
                    None => {},
                }
                None
            },
            Fault::Partition { duration, side, .. } => {
                let d = *duration;
                let mut k: usize = 0;
                while k < self.partition_side.len()
                    invariant
                        self.wf(),
                        self.now == old(self).now,
                        self.journal == old(self).journal,
                        self.alive == old(self).alive,
                        self.awaiting is None,
                        self.outcome == old(self).outcome,
                        self.queue == old(self).queue,
                        self.seq == old(self).seq,
                        self.scenario == old(self).scenario,
                        self.run_dir == old(self).run_dir,
                        i < self.scenario.faults@.len(),
                        self.scenario.faults@[i as int] is Partition,
                        *side == self.scenario.faults@[i as int]->Partition_side,
                        k <= self.partition_side@.len(),
                        self.model() == (SimV { partition_side: self.partition_side@, ..old(self).model() }),
                        forall|j: int| 0 <= j < k ==> !(#[trigger] self.partition_side@[j]),
                    decreases self.partition_side@.len() - k,
                {
                    self.partition_side.set(k, false);
                    k = k + 1;
                }
                let mut names: Vec<Json> = Vec::new();
                let mut k: usize = 0;
                while k < side.len()
                    invariant
                        self.wf(),
                        self.now == old(self).now,
                        self.journal == old(self).journal,
                        self.alive == old(self).alive,
                        self.awaiting is None,
                        self.outcome == old(self).outcome,
                        self.queue == old(self).queue,
                        self.seq == old(self).seq,
                        self.scenario == old(self).scenario,
                        self.run_dir == old(self).run_dir,
                        i < self.scenario.faults@.len(),
                        self.scenario.faults@[i as int] is Partition,
                        *side == self.scenario.faults@[i as int]->Partition_side,
                        k <= side@.len(),
                        self.model() == (SimV { partition_side: self.partition_side@, ..old(self).model() }),
                        self.partition_side@.len() == n,
                        forall|m: int| 0 <= m < n ==> (#[trigger] self.partition_side@[m])
                            == exists|j: int| 0 <= j < k && (#[trigger] side@[j])@ == spec_name(m as nat),
                        names@.len() == k,
                        forall|j: int| 0 <= j < k ==> (#[trigger] names@[j])@ == JsonV::Str(side@[j]@),
                    decreases side@.len() - k,
                {
                    let found = self.index_of(&side[k]);
                    let ghost before = self.partition_side@;
                    if let Some(idx) = found {
                        self.partition_side.set(idx, true);
                    }
                    proof {
                        assert forall|m: int| 0 <= m < n implies (#[trigger] self.partition_side@[m])
                            == exists|j: int| 0 <= j < k + 1 && (#[trigger] side@[j])@ == spec_name(m as nat) by {
                            if side@[k as int]@ == spec_name(m as nat) {
                                if let Some(idx) = found {
                                    lemma_name_injective(idx as nat, m as nat);
                                } else {
                                    assert(side@[k as int]@ != spec_name(m as nat));
                                }
                            } else {
                                if let Some(idx) = found {
                                    assert(m != idx);
                                    assert(self.partition_side@[m] == before[m]);
                                }
                                if exists|j: int| 0 <= j < k + 1 && (#[trigger] side@[j])@ == spec_name(m as nat) {
                                    let j = choose|j: int| 0 <= j < k + 1 && (#[trigger] side@[j])@ == spec_name(m as nat);
                                    assert(j < k);
                                }
                            }
                        }
                    }
                    names.push(Json::Str(side[k].clone()));
                    k = k + 1;
                }
                self.partition_until = self.now.saturating_add(d);
                proof {
                    if let JsonV::Array(a) = Json::Array(names)@ {
                        assert(a =~= Seq::new(side@.len(), |j: int| JsonV::Str(side@[j]@)));
                    }
                    assert(self.partition_side@ =~= Seq::new(n as nat, |m: int|
                        exists|j: int| 0 <= j < side@.len() && (#[trigger] side@[j])@ == spec_name(m as nat)));
                }
                let detail = obj2("side", Json::Array(names), "until", Json::Uint(self.partition_until));
                self.journal.note(self.now, "fault-partition", detail);
                None
            },
        }
    }
}


/// The message a run ends with when a node exits on its own: a bug in the node, not an injected
/// fault. Failing the run is the point: silently treating it as a crash would let a program that
/// dies on a parse error pass as correct under crashes.
pub open spec fn spec_died_message(id: Seq<char>, now: u64, run_dir: Seq<char>) -> Seq<char> {
    spec_died_reason(id, now) + " (check "@ + run_dir + "/"@ + id + ".stderr)"@
}

/// Why a run ended whose node exited on its own, as the journal says it: without the run
/// directory, since nothing in a journal may depend on where the run was written.
pub open spec fn spec_died_reason(id: Seq<char>, now: u64) -> Seq<char> {
    "node "@ + id + " exited on its own at t="@ + crate::text::spec_decimal(now as nat)
        + " \u{2014} the harness did not crash it"@
}

proof fn lemma_link_index(from: int, to: int, n: int)
    requires
        0 <= from < n,
        0 <= to < n,
    ensures
        0 <= from * n + to < n * n,
{
    assert(0 <= from * n + to < n * n) by (nonlinear_arith)
        requires
            0 <= from < n,
            0 <= to < n,
    ;
}

impl Sim {
    /// Whether a step may hand back `sends` envelopes: their staggered departures fit in a `u64`.
    pub fn stagger_room(&self, sends: u64) -> (r: bool)
        requires
            self.wf(),
        ensures
            r == self.scenario_of().emit_fits(sends),
    {
        let gap = self.scenario.emit_gap;
        if sends == 0 || gap == 0 {
            return true;
        }
        match sends.checked_mul(gap) {
            Some(_) => gap < u64::MAX,
            None => false,
        }
    }

    /// The number of processes.
    pub fn node_count(&self) -> (n: usize)
        requires
            self.wf(),
        ensures
            n == self.nodes(),
    {
        self.scenario.nodes
    }

    /// The name of process `i`.
    pub fn name(&self, i: usize) -> (s: String)
        requires
            self.wf(),
            i < self.nodes(),
        ensures
            s@ == spec_name(i as nat),
    {
        self.names[i].clone()
    }

    /// Hand back what the stepping node emitted before its `done`, in order.
    ///
    /// A step is atomic, but its sends are not: the `k`-th message it sends to another process
    /// leaves after the sum of `k` gaps (see [`Scenario::emit_at`]), so a process can die partway
    /// through a send loop.
    pub fn stepped(&mut self, node: usize, outputs: Vec<Envelope>)
        requires
            old(self).wf(),
            old(self).is_awaiting() == Some(node),
            old(self).has_room(3 * outputs@.len() + 2),
            old(self).scenario_of().emit_fits(outputs@.len() as u64),
        ensures
            final(self).scenario_of() == old(self).scenario_of(),
            final(self).spec_run_dir() == old(self).spec_run_dir(),
            final(self).wf(),
            final(self).spec_now() == old(self).spec_now(),
            old(self).journal_view().is_prefix_of(final(self).journal_view()),
            final(self).is_awaiting() is None,
            final(self).nodes() == old(self).nodes(),
            final(self).is_over() == old(self).is_over(),
            final(self).used() <= old(self).used() + 3 * outputs@.len(),
            forall|i: int| 0 <= i < old(self).nodes() ==> final(self).is_alive(i) == old(self).is_alive(i),
            forall|a: int, b: int| 0 <= a < old(self).nodes() && 0 <= b < old(self).nodes() && final(self).fifo() ==>
                final(self).last_scheduled(a, b) >= old(self).last_scheduled(a, b),
            final(self).model() == spec_stepped(old(self).scenario_of(), node, outputs@.map_values(|e: Envelope| e@), old(self).model()),
    {
        let mut outs = outputs;
        let ghost total = outs@.len();
        let ghost sc = self.scenario;
        let step = self.steps[node].saturating_add(1);
        self.steps.set(node, step);
        let ghost goal = spec_outputs(sc, node, step, 0, outputs@.map_values(|e: Envelope| e@), self.model());
        let mut rank: u64 = 0;
        while outs.len() > 0
            invariant
                spec_outputs(sc, node, step, rank, outs@.map_values(|e: Envelope| e@), self.model()) == goal,
                sc == self.scenario,
                sc.emit_fits(total as u64),
                rank + outs@.len() <= total,
                total == outputs@.len(),
                self.wf(),
                self.now == old(self).now,
                old(self).journal_view().is_prefix_of(self.journal_view()),
                self.awaiting == Some(node),
                self.run_dir == old(self).run_dir,
                self.scenario == old(self).scenario,
                self.outcome == old(self).outcome,
                self.alive == old(self).alive,
                node < self.scenario.nodes,
                self.used() + 3 * outs@.len() <= old(self).used() + 3 * total,
                old(self).used() + 3 * total + 2 < u64::MAX,
                forall|a: int, b: int| 0 <= a < old(self).nodes() && 0 <= b < old(self).nodes() && self.fifo() ==>
                    self.last_scheduled(a, b) >= old(self).last_scheduled(a, b),
            decreases outs@.len(),
        {
            let ghost before = outs@;
            let env = outs.remove(0);
            proof {
                assert(outs@.map_values(|e: Envelope| e@) =~= before.map_values(|e: Envelope| e@).drop_first());
            }
            proof {
                sc.lemma_stagger_fits(node as u64, step, total as u64, rank);
            }
            rank = self.handle_output(node, step, rank, env);
        }
        self.awaiting = None;
    }

    /// One envelope a node emitted: to the harness, to another node, or to nobody.
    fn handle_output(&mut self, idx: usize, step: u64, rank: u64, env: Envelope) -> (next: u64)
        requires
            old(self).wf(),
            idx < old(self).scenario.nodes,
            old(self).has_room(3),
            old(self).scenario.stagger_fits(idx as u64, step, rank),
            rank < u64::MAX,
        ensures
            final(self).run_dir == old(self).run_dir,
            next <= rank + 1,
            final(self).wf(),
            final(self).now == old(self).now,
            old(self).journal_view().is_prefix_of(final(self).journal_view()),
            final(self).awaiting == old(self).awaiting,
            final(self).scenario == old(self).scenario,
            final(self).outcome == old(self).outcome,
            final(self).alive == old(self).alive,
            final(self).used() <= old(self).used() + 3,
            forall|a: int, b: int| 0 <= a < old(self).nodes() && 0 <= b < old(self).nodes() && final(self).fifo() ==>
                final(self).last_scheduled(a, b) >= old(self).last_scheduled(a, b),
            (final(self).model(), next) == spec_output(old(self).scenario, idx, step, rank, env@, old(self).model()),
    {
        proof {
            lemma_harness_name();
        }
        if same_text(env.dest.as_str(), HARNESS) {
            self.handle_harness_message(idx, env);
            return rank;
        }
        let found = self.index_of(&env.dest);
        match found {
            None => {
                let detail = obj1("dest", Json::Str(env.dest.clone()));
                self.journal.note(self.now, "unknown-destination", detail);
                rank
            },
            Some(to) => {
                self.journal.record(self.now, "send", &env);
                let n = self.scenario.nodes;
                proof {
                    lemma_link_index(idx as int, to as int, n as int);
                }
                let link = idx * n + to;
                let count = self.link_count[link] + 1;
                // The send leaves after the gaps of the sends before it in this step.
                let stagger = self.scenario.emit_at(idx, step, rank);
                let leave = self.now.saturating_add(stagger);
                proof {
                    self.scenario.lemma_delay_fits(idx as u64, to as u64, count, leave);
                }
                let delay = self.scenario.delay(idx, to, count, leave);
                let prev = self.last_sched[link];
                // Per-link FIFO: some algorithms need it, others do not, and turning it off is a
                // deliberate exercise.
                let at = arrival(leave, delay, self.scenario.fifo, prev);
                if self.scenario.fifo {
                    self.last_sched.set(link, at);
                }
                proof {
                    assert forall|a: int, b: int| 0 <= a < n && 0 <= b < n && self.fifo() implies
                        self.last_scheduled(a, b) >= old(self).last_scheduled(a, b) by {
                        lemma_link_index(a, b, n as int);
                    }
                }
                self.schedule(at, Ev::Deliver { from: idx, env });
                self.link_count.set(link, count);
                rank + 1
            },
        }
    }

    /// A message addressed to the harness: a timer to arm, the `done` barrier, or an observation
    /// recorded verbatim.
    fn handle_harness_message(&mut self, idx: usize, env: Envelope)
        requires
            old(self).wf(),
            idx < old(self).scenario.nodes,
            old(self).has_room(3),
        ensures
            final(self).run_dir == old(self).run_dir,
            final(self).wf(),
            final(self).now == old(self).now,
            old(self).journal_view().is_prefix_of(final(self).journal_view()),
            final(self).awaiting == old(self).awaiting,
            final(self).scenario == old(self).scenario,
            final(self).outcome == old(self).outcome,
            final(self).alive == old(self).alive,
            final(self).last_sched == old(self).last_sched,
            final(self).used() <= old(self).used() + 3,
            final(self).model() == spec_harness_message(idx, env@, old(self).model()),
    {
        let kind = env.kind();
        if same_text(kind.as_str(), "set_timer") {
            let after = match env.u64_field("after") {
                Some(a) => a,
                None => 0,
            };
            let timer_id = match env.u64_field("timer_id") {
                Some(t) => t,
                None => 0,
            };
            self.journal.record(self.now, "set_timer", &env);
            let at = self.now.saturating_add(after);
            self.schedule(at, Ev::Timer { node: idx, timer_id });
        } else if same_text(kind.as_str(), "done") {
            // The barrier, never an event.
        } else {
            // Anything else addressed to the harness is an observation, recorded verbatim.
            self.journal.record(self.now, "observe", &env);
        }
    }

    /// The stepping node failed: it exited on its own, hung, or spoke something that is not an
    /// envelope. The run ends badly: its last line and the message say why.
    pub fn failed(&mut self, node: usize, err: NodeError) -> (msg: String)
        requires
            old(self).wf(),
            old(self).is_awaiting() == Some(node),
            old(self).has_room(2),
        ensures
            final(self).scenario_of() == old(self).scenario_of(),
            final(self).spec_run_dir() == old(self).spec_run_dir(),
            final(self).wf(),
            final(self).is_over(),
            final(self).is_awaiting() is None,
            old(self).journal_view().is_prefix_of(final(self).journal_view()),
            match err {
                NodeError::Eof(id) => msg@ == spec_died_message(id@, old(self).spec_now(), old(self).spec_run_dir())
                    && !final(self).is_alive(node as int),
                _ => msg@ == spec_message(err),
            },
            (final(self).model(), msg@) == spec_failed(node, err, old(self).spec_run_dir(), old(self).model()),
    {
        let msg = match &err {
            NodeError::Eof(id) => {
                let detail = obj1("node", Json::Str(id.clone()));
                self.journal.note(self.now, "node-died", detail);
                self.alive.set(node, false);
                let mut reason = text("node ");
                push_str(&mut reason, id.as_str());
                push_str(&mut reason, " exited on its own at t=");
                push_decimal(&mut reason, self.now);
                push_str(&mut reason, " \u{2014} the harness did not crash it");
                let mut m = reason.clone();
                push_str(&mut m, " (check ");
                push_str(&mut m, self.run_dir.as_str());
                push_str(&mut m, "/");
                push_str(&mut m, id.as_str());
                push_str(&mut m, ".stderr)");
                (reason, m)
            },
            _ => {
                let m = err.message();
                (m.clone(), m)
            },
        };
        self.awaiting = None;
        self.finish(false, msg.0.as_str());
        msg.1
    }

    /// Every line the run journalled, in order, for the caller to write out.
    pub fn into_journal(self) -> (lines: Vec<Json>)
        requires
            self.wf(),
        ensures
            Seq::new(lines@.len(), |i: int| lines@[i]@) == self.journal_view(),
    {
        self.journal.into_lines()
    }
}

} // verus!
