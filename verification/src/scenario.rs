//! Scenarios, and the spaces a seed draws them from.
//!
//! A **scenario** is the replay unit: it pins everything the harness controls, so it replays
//! against any version of the code under test, can be shrunk by hand, and can be pasted into a bug
//! report. A **space** is the set a seed draws one from: the world a run happens in, and a tree of
//! events that befall it. Every field of a space has the same shape, a [`Span`]: a scalar pins it,
//! a two-element array draws it from an inclusive range.

use vstd::prelude::*;
use crate::json::Json;
use crate::rng::{Rng, spec_advance, spec_mix};
use crate::text::{text, push_str, push_decimal, spec_decimal};

verus! {

/// Bumped whenever the draw changes shape. Part of a scenario's fingerprint, so a stored run can
/// say it came from a draw that no longer exists rather than quietly meaning something else.
pub const DRAW_VERSION: u32 = 3;

/// The group size never exceeds `3 * MAX_F + 1`, which keeps a partition's subset mask in a `u64`.
pub const MAX_F: u64 = 20;

// ---------------------------------------------------------------------- spans

/// A value that is either pinned or drawn from an inclusive range.
///
/// A scalar is a range of width zero. A pinned span consumes no randomness: pinning one parameter
/// must never repoint the draws after it.
#[derive(Debug, Clone, Copy)]
pub enum Span<T> {
    Pinned(T),
    Range(T, T),
}

/// An integer bound, which may be the fault budget rather than a literal. `f` is the only symbol
/// the format admits, and there is no arithmetic.
#[derive(Debug, Clone, Copy)]
pub enum Bound {
    Fixed(u64),
    F,
}

impl Bound {
    pub open spec fn spec_get(self, f: u64) -> u64 {
        match self {
            Bound::Fixed(v) => v,
            Bound::F => f,
        }
    }

    pub fn get(self, f: u64) -> (v: u64)
        ensures
            v == self.spec_get(f),
    {
        match self {
            Bound::Fixed(v) => v,
            Bound::F => f,
        }
    }

    /// The order a backwards range is judged by: literals by value, and `f` above every literal.
    pub open spec fn spec_le(self, other: Bound) -> bool {
        match (self, other) {
            (Bound::Fixed(a), Bound::Fixed(b)) => a <= b,
            (_, Bound::F) => true,
            (Bound::F, Bound::Fixed(_)) => false,
        }
    }

    /// Whether `self` sorts at or before `other` in that order.
    pub fn le(self, other: Bound) -> (r: bool)
        ensures
            r == self.spec_le(other),
    {
        match (self, other) {
            (Bound::Fixed(a), Bound::Fixed(b)) => a <= b,
            (_, Bound::F) => true,
            (Bound::F, Bound::Fixed(_)) => false,
        }
    }
}

// ------------------------------------------------------- ranges as written

/// What a range written `[lo, hi]` that runs backwards is refused with, the two ends as written.
pub open spec fn backwards_message(lo: Seq<char>, hi: Seq<char>) -> Seq<char> {
    "range ["@ + lo + ", "@ + hi + "] runs backwards; write it [low, high], inclusive"@
}

/// A bound as the file's reader names it in a message: `Fixed(3)`, or `F`.
pub open spec fn bound_text(b: Bound) -> Seq<char> {
    match b {
        Bound::Fixed(v) => "Fixed("@ + spec_decimal(v as nat) + ")"@,
        Bound::F => "F"@,
    }
}

pub open spec fn bool_text(b: bool) -> Seq<char> {
    if b { "true"@ } else { "false"@ }
}

fn backwards(lo: &str, hi: &str) -> (m: String)
    ensures
        m@ == backwards_message(lo@, hi@),
{
    let mut m = text("range [");
    push_str(&mut m, lo);
    push_str(&mut m, ", ");
    push_str(&mut m, hi);
    push_str(&mut m, "] runs backwards; write it [low, high], inclusive");
    m
}

/// A range of integers written `[lo, hi]` is refused when it runs backwards, rather than pinned
/// silently to its first element.
pub fn range_u64_error(lo: u64, hi: u64) -> (r: Option<String>)
    ensures
        r is Some <==> hi < lo,
        r matches Some(m) ==> m@ == backwards_message(spec_decimal(lo as nat), spec_decimal(hi as nat)),
{
    if hi < lo {
        let mut a = String::new();
        push_decimal(&mut a, lo);
        let mut b = String::new();
        push_decimal(&mut b, hi);
        proof {
            assert(a@ =~= spec_decimal(lo as nat));
            assert(b@ =~= spec_decimal(hi as nat));
        }
        Some(backwards(a.as_str(), b.as_str()))
    } else {
        None
    }
}

/// A range of booleans runs backwards when it is written `[true, false]`.
pub fn range_bool_error(lo: bool, hi: bool) -> (r: Option<String>)
    ensures
        r is Some <==> (lo && !hi),
        r matches Some(m) ==> m@ == backwards_message(bool_text(lo), bool_text(hi)),
{
    if lo && !hi {
        Some(backwards("true", "false"))
    } else {
        None
    }
}

fn bound_string(b: Bound) -> (s: String)
    ensures
        s@ == bound_text(b),
{
    match b {
        Bound::Fixed(v) => {
            let mut s = text("Fixed(");
            push_decimal(&mut s, v);
            push_str(&mut s, ")");
            s
        },
        Bound::F => text("F"),
    }
}

/// A range of bounds runs backwards when its upper end sorts before its lower end, `f` sorting
/// above every literal: `[0, "f"]` is read, `["f", 0]` is refused.
pub fn range_bound_error(lo: Bound, hi: Bound) -> (r: Option<String>)
    ensures
        r is Some <==> !lo.spec_le(hi),
        r matches Some(m) ==> m@ == backwards_message(bound_text(lo), bound_text(hi)),
{
    if !lo.le(hi) {
        let a = bound_string(lo);
        let b = bound_string(hi);
        Some(backwards(a.as_str(), b.as_str()))
    } else {
        None
    }
}

/// A fraction, carried as the bits of its IEEE 754 double. The crate never computes with one:
/// where a fraction becomes an instant, the caller does the arithmetic.
#[derive(Debug, Clone, Copy)]
pub struct Frac {
    pub bits: u64,
}

/// A span of fractions, already told apart by whether it draws: a range whose upper end is not
/// above its lower end is pinned to its lower end, exactly as a drawn span of fractions would be.
#[derive(Debug, Clone, Copy)]
pub enum FracSpan {
    Fixed(Frac),
    /// `lo < hi`: the draw picks one of `STEPS + 1` evenly spaced points from `lo` to `hi`.
    Drawn(Frac, Frac),
}

/// How finely a range of fractions is quantised: the draw stays integral, and is finer than any
/// fraction of a time limit needs.
pub const STEPS: u64 = 1_000_000;

/// A span that can be drawn without overflowing its inclusive upper end: only a range that is
/// wider than a point and ends at `u64::MAX` cannot. A range of width zero draws nothing.
pub open spec fn span_u64_ok(s: Span<u64>) -> bool {
    match s {
        Span::Range(lo, hi) => hi <= lo || hi < u64::MAX,
        Span::Pinned(_) => true,
    }
}

pub open spec fn span_bound_ok(s: Span<Bound>, f: u64) -> bool {
    match s {
        Span::Range(lo, hi) => hi.spec_get(f) <= lo.spec_get(f) || hi.spec_get(f) < u64::MAX,
        Span::Pinned(_) => true,
    }
}

/// What drawing `s` from state `state` yields: the value and the state after.
pub open spec fn spec_draw_u64(s: Span<u64>, state: u64) -> (u64, u64) {
    match s {
        Span::Pinned(v) => (v, state),
        Span::Range(lo, hi) => if hi > lo {
            let next = spec_advance(state);
            ((lo + spec_mix(next) % ((hi + 1 - lo) as u64)) as u64, next)
        } else {
            (lo, state)
        },
    }
}

pub open spec fn spec_draw_bool(s: Span<bool>, state: u64) -> (bool, u64) {
    match s {
        Span::Pinned(v) => (v, state),
        Span::Range(lo, hi) => if lo != hi {
            let next = spec_advance(state);
            (spec_mix(next) % 2 == 1, next)
        } else {
            (lo, state)
        },
    }
}

pub open spec fn spec_draw_bound(s: Span<Bound>, f: u64, state: u64) -> (u64, u64) {
    match s {
        Span::Pinned(v) => (v.spec_get(f), state),
        Span::Range(lo, hi) => spec_draw_u64(Span::Range(lo.spec_get(f), hi.spec_get(f)), state),
    }
}

/// The quantised point of a span of fractions: `None` for a fixed one, which draws nothing.
pub open spec fn spec_draw_frac(s: FracSpan, state: u64) -> (Option<u64>, u64) {
    match s {
        FracSpan::Fixed(_) => (None, state),
        FracSpan::Drawn(_, _) => {
            let next = spec_advance(state);
            (Some(spec_mix(next) % ((STEPS + 1) as u64)), next)
        },
    }
}

impl Span<u64> {
    /// Inclusive, unlike the exclusive `[lo, hi)` the generator speaks: a file edited by hand must
    /// not carry a second convention.
    pub fn draw(&self, r: &mut Rng) -> (v: u64)
        requires
            span_u64_ok(*self),
        ensures
            (v, final(r)@) == spec_draw_u64(*self, old(r)@),
            match *self {
                Span::Pinned(p) => v == p,
                Span::Range(lo, hi) => lo <= v && (v <= hi || hi < lo),
            },
    {
        match *self {
            Span::Pinned(v) => v,
            Span::Range(lo, hi) => if hi > lo {
                r.range(lo, hi + 1)
            } else {
                lo
            },
        }
    }
}

impl Span<bool> {
    pub fn draw(&self, r: &mut Rng) -> (v: bool)
        ensures
            (v, final(r)@) == spec_draw_bool(*self, old(r)@),
    {
        match *self {
            Span::Pinned(v) => v,
            Span::Range(lo, hi) => if lo != hi {
                r.range(0, 2) == 1
            } else {
                lo
            },
        }
    }
}

impl Span<Bound> {
    pub fn draw(&self, r: &mut Rng, f: u64) -> (v: u64)
        requires
            span_bound_ok(*self, f),
        ensures
            (v, final(r)@) == spec_draw_bound(*self, f, old(r)@),
    {
        match *self {
            Span::Pinned(v) => v.get(f),
            Span::Range(lo, hi) => {
                let (lo, hi) = (lo.get(f), hi.get(f));
                if hi > lo {
                    r.range(lo, hi + 1)
                } else {
                    lo
                }
            },
        }
    }
}

impl FracSpan {
    /// Draws the quantised point of a drawn span; a fixed one consumes no randomness.
    pub fn draw(&self, r: &mut Rng) -> (k: Option<u64>)
        ensures
            (k, final(r)@) == spec_draw_frac(*self, old(r)@),
            k matches Some(x) ==> x <= STEPS,
    {
        match *self {
            FracSpan::Fixed(_) => None,
            FracSpan::Drawn(_, _) => Some(r.range(0, STEPS + 1)),
        }
    }
}

// ---------------------------------------------------------------------- space

/// Who an event acts on, and how many copies of it there are.
#[derive(Debug, Clone, Copy)]
pub enum Subject {
    /// Every process, once each.
    All,
    /// k processes not already taken on the path from the root, so under a parent it reads as
    /// "someone other than mine".
    Distinct(Span<Bound>),
    /// k draws with replacement; the parent's own process may come up again.
    Any(Span<Bound>),
}

#[derive(Debug)]
pub enum Effect {
    /// Body handed to the node, after its template is rendered. The crate never interprets it.
    Stimulus(Json),
    Crash,
    Pause { duration: Span<u64> },
    /// Cuts a proper non-empty subset from the rest; its size is drawn, not declared.
    Partition { duration: Span<u64> },
}

/// One node of the event tree.
#[derive(Debug)]
pub struct Event {
    /// Binds a process, which children inherit unless they name their own.
    pub nodes: Option<Subject>,
    /// How many copies, for an effect that acts on no single process.
    pub count: Option<Span<Bound>>,
    /// Roots only: a fraction of the time limit.
    pub at_frac: Option<FracSpan>,
    /// Children only: how long after the parent.
    pub delay: Option<Span<u64>>,
    pub effect: Effect,
    pub children: Vec<Event>,
}

/// The set of scenarios a seed draws from: the world a run happens in, and a tree of events.
#[derive(Debug)]
pub struct Space {
    /// The fault budget. The group size follows it, `n = 3f + 1`.
    pub f: Span<u64>,
    pub time_limit: Span<u64>,
    pub gst_frac: FracSpan,
    /// Drawn once per ordered pair of processes.
    pub link_delay_pre: Span<u64>,
    pub link_delay_post: Span<u64>,
    pub jitter_pct: Span<u64>,
    /// How long a process takes between two of its own sends.
    pub emit_gap: Span<u64>,
    pub fifo: Span<bool>,
    pub events: Vec<Event>,
}

// ------------------------------------------------------------------ scenarios

#[derive(Debug)]
pub enum Fault {
    /// Stops forever. No recovery.
    Crash { at: u64, node: String },
    /// Alive but processes nothing until `at + duration`. Its clock keeps running.
    Pause { at: u64, node: String, duration: u64 },
    /// Messages crossing the split are held, not dropped, until it heals.
    Partition { at: u64, duration: u64, side: Vec<String> },
}

impl Fault {
    pub open spec fn spec_at(&self) -> u64 {
        match *self {
            Fault::Crash { at, .. } => at,
            Fault::Pause { at, .. } => at,
            Fault::Partition { at, .. } => at,
        }
    }

    /// When the fault stops disturbing the run: the instant of a crash, the end of a pause or of
    /// a partition.
    pub open spec fn spec_end(&self) -> int {
        match *self {
            Fault::Crash { at, .. } => at as int,
            Fault::Pause { at, duration, .. } => at + duration,
            Fault::Partition { at, duration, .. } => at + duration,
        }
    }

    pub fn at(&self) -> (t: u64)
        ensures
            t == self.spec_at(),
    {
        match self {
            Fault::Crash { at, .. } => *at,
            Fault::Pause { at, .. } => *at,
            Fault::Partition { at, .. } => *at,
        }
    }
}

/// The harness poking a node to do something. Carried by the scenario, so the harness itself
/// stays workload-agnostic.
#[derive(Debug)]
pub struct Stimulus {
    pub at: u64,
    pub node: String,
    pub body: Json,
}

/// Where a drawn scenario came from. Absent on one written by hand, which came from nobody.
#[derive(Debug)]
pub struct Drawn {
    pub seed: u64,
    pub space: String,
    pub fingerprint: String,
}

/// Every field has a default, so a scenario written by hand can be as small as a group size and
/// a list of stimuli.
#[derive(Debug)]
pub struct Scenario {
    /// Provenance only; replay uses the fields below.
    pub drawn: Option<Drawn>,
    pub nodes: usize,
    pub f: usize,
    /// Global Stabilisation Time: delays are bounded only after this. The *scheduled* GST; a
    /// pause landing after it also violates partial synchrony.
    pub gst: u64,
    pub time_limit: u64,
    /// Per-link FIFO ordering.
    pub fifo: bool,
    /// Used for any link the matrices below do not cover.
    pub delay_pre_default: u64,
    pub delay_post_default: u64,
    /// `delay_pre[from][to]`, used for messages sent before GST. May be empty.
    pub delay_pre: Vec<Vec<u64>>,
    pub delay_post: Vec<Vec<u64>>,
    /// Extra delay per message, as a percentage of that link's base.
    pub jitter_pct: u64,
    /// Longest gap between two sends of one process.
    pub emit_gap: u64,
    pub faults: Vec<Fault>,
    pub stimuli: Vec<Stimulus>,
}

/// What a scenario written by hand gets for each field it leaves out.
pub const DEFAULT_NODES: usize = 4;
pub const DEFAULT_F: usize = 1;
pub const DEFAULT_GST: u64 = 2000;
pub const DEFAULT_TIME_LIMIT: u64 = 10_000;
pub const DEFAULT_JITTER_PCT: u64 = 100;
pub const DEFAULT_DELAY_PRE: u64 = 200;
pub const DEFAULT_DELAY_POST: u64 = 10;

pub fn d_nodes() -> (v: usize) ensures v == DEFAULT_NODES { DEFAULT_NODES }
pub fn d_f() -> (v: usize) ensures v == DEFAULT_F { DEFAULT_F }
pub fn d_gst() -> (v: u64) ensures v == DEFAULT_GST { DEFAULT_GST }
pub fn d_limit() -> (v: u64) ensures v == DEFAULT_TIME_LIMIT { DEFAULT_TIME_LIMIT }
pub fn d_jitter() -> (v: u64) ensures v == DEFAULT_JITTER_PCT { DEFAULT_JITTER_PCT }
pub fn d_pre() -> (v: u64) ensures v == DEFAULT_DELAY_PRE { DEFAULT_DELAY_PRE }
pub fn d_post() -> (v: u64) ensures v == DEFAULT_DELAY_POST { DEFAULT_DELAY_POST }

/// What a space gets for each field it leaves out.
pub fn s_f() -> (s: Span<u64>) ensures s == Span::Pinned(1u64) { Span::Pinned(1) }
pub fn s_limit() -> (s: Span<u64>) ensures s == Span::Pinned(10_000u64) { Span::Pinned(10_000) }
pub fn s_pre() -> (s: Span<u64>) ensures s == Span::Range(1u64, 400u64) { Span::Range(1, 400) }
pub fn s_post() -> (s: Span<u64>) ensures s == Span::Range(1u64, 25u64) { Span::Range(1, 25) }
pub fn s_jitter() -> (s: Span<u64>) ensures s == Span::Pinned(100u64) { Span::Pinned(100) }
pub fn s_emit() -> (s: Span<u64>) ensures s == Span::Range(1u64, 12u64) { Span::Range(1, 12) }
pub fn s_fifo() -> (s: Span<bool>) ensures s == Span::Pinned(false) { Span::Pinned(false) }

/// The bits of 0.10 and 0.33, the default span of GST fractions.
pub const GST_FRAC_LO_BITS: u64 = 0x3fb9_9999_9999_999a;
pub const GST_FRAC_HI_BITS: u64 = 0x3fd5_1eb8_51eb_851f;

pub fn s_gst_frac() -> (s: FracSpan)
    ensures
        s == FracSpan::Drawn(Frac { bits: GST_FRAC_LO_BITS }, Frac { bits: GST_FRAC_HI_BITS }),
{
    FracSpan::Drawn(Frac { bits: GST_FRAC_LO_BITS }, Frac { bits: GST_FRAC_HI_BITS })
}

impl Default for Space {
    /// What a space leaves out: one fault, ten thousand ticks, GST between a tenth and a third of
    /// the run, no events.
    fn default() -> (sp: Space)
        ensures
            sp.f == Span::Pinned(1u64),
            sp.time_limit == Span::Pinned(10_000u64),
            sp.gst_frac == FracSpan::Drawn(Frac { bits: GST_FRAC_LO_BITS }, Frac { bits: GST_FRAC_HI_BITS }),
            sp.link_delay_pre == Span::Range(1u64, 400u64),
            sp.link_delay_post == Span::Range(1u64, 25u64),
            sp.jitter_pct == Span::Pinned(100u64),
            sp.emit_gap == Span::Range(1u64, 12u64),
            sp.fifo == Span::Pinned(false),
            sp.events@.len() == 0,
    {
        Space {
            f: s_f(),
            time_limit: s_limit(),
            gst_frac: s_gst_frac(),
            link_delay_pre: s_pre(),
            link_delay_post: s_post(),
            jitter_pct: s_jitter(),
            emit_gap: s_emit(),
            fifo: s_fifo(),
            events: Vec::new(),
        }
    }
}

impl Default for Scenario {
    /// What a scenario written by hand gets for each field it leaves out: four processes, one
    /// fault, GST at 2000 of 10000, default link delays, no faults, no stimuli, no provenance.
    fn default() -> (sc: Scenario)
        ensures
            sc.drawn is None,
            sc.nodes == DEFAULT_NODES,
            sc.f == DEFAULT_F,
            sc.gst == DEFAULT_GST,
            sc.time_limit == DEFAULT_TIME_LIMIT,
            !sc.fifo,
            sc.delay_pre_default == DEFAULT_DELAY_PRE,
            sc.delay_post_default == DEFAULT_DELAY_POST,
            sc.delay_pre@.len() == 0,
            sc.delay_post@.len() == 0,
            sc.jitter_pct == DEFAULT_JITTER_PCT,
            sc.emit_gap == 0,
            sc.faults@.len() == 0,
            sc.stimuli@.len() == 0,
    {
        Scenario {
            drawn: None,
            nodes: d_nodes(),
            f: d_f(),
            gst: d_gst(),
            time_limit: d_limit(),
            fifo: false,
            delay_pre_default: d_pre(),
            delay_post_default: d_post(),
            delay_pre: Vec::new(),
            delay_post: Vec::new(),
            jitter_pct: d_jitter(),
            emit_gap: 0,
            faults: Vec::new(),
            stimuli: Vec::new(),
        }
    }
}

// ------------------------------------------------------------- link timing

/// The mixing step both timing hashes share.
pub open spec fn spec_scramble(h0: u64) -> u64 {
    let h1 = h0 ^ (h0 >> 29u64);
    let h2 = vstd::wrapping::u64_specs::wrapping_mul(h1, 0xBF58_476D_1CE4_E5B9u64);
    h2 ^ (h2 >> 32u64)
}

/// The hash of a triple, as both the jitter and the send stagger take it.
#[verifier::opaque]
pub open spec fn spec_hash3(a: u64, b: u64, c: u64) -> u64 {
    spec_scramble(
        vstd::wrapping::u64_specs::wrapping_add(
            vstd::wrapping::u64_specs::wrapping_add(
                vstd::wrapping::u64_specs::wrapping_mul(a, 0x9E37_79B9_7F4A_7C15u64),
                vstd::wrapping::u64_specs::wrapping_mul(b, 0xC2B2_AE3D_27D4_EB4Fu64),
            ),
            vstd::wrapping::u64_specs::wrapping_mul(c, 0x1656_67B1_9E37_79F9u64),
        ),
    )
}

fn hash3(a: u64, b: u64, c: u64) -> (h: u64)
    ensures
        h == spec_hash3(a, b, c),
{
    let mut h = a.wrapping_mul(0x9E37_79B9_7F4A_7C15u64)
        .wrapping_add(b.wrapping_mul(0xC2B2_AE3D_27D4_EB4Fu64))
        .wrapping_add(c.wrapping_mul(0x1656_67B1_9E37_79F9u64));
    h = h ^ (h >> 29u64);
    h = h.wrapping_mul(0xBF58_476D_1CE4_E5B9u64);
    proof {
        reveal(spec_hash3);
    }
    h ^ (h >> 32u64)
}

/// The sum of the first `rank` gaps of a send loop.
pub open spec fn spec_emit_sum(from: u64, step: u64, rank: nat, gap: u64) -> nat
    decreases rank,
{
    if rank == 0 {
        0
    } else {
        spec_emit_sum(from, step, (rank - 1) as nat, gap) + (spec_hash3(from, step, rank as u64) % ((gap + 1) as u64)) as nat
    }
}

pub proof fn lemma_emit_sum_bounded(from: u64, step: u64, rank: nat, gap: u64)
    requires
        gap < u64::MAX,
    ensures
        spec_emit_sum(from, step, rank, gap) <= rank * gap,
    decreases rank,
{
    if rank > 0 {
        lemma_emit_sum_bounded(from, step, (rank - 1) as nat, gap);
        assert(spec_hash3(from, step, rank as u64) % ((gap + 1) as u64) <= gap);
        assert((rank - 1) * gap + gap == rank * gap) by (nonlinear_arith);
    }
}

pub proof fn lemma_emit_sum_monotone(from: u64, step: u64, a: nat, b: nat, gap: u64)
    requires
        a <= b,
        gap < u64::MAX,
    ensures
        spec_emit_sum(from, step, a, gap) <= spec_emit_sum(from, step, b, gap),
    decreases b,
{
    if a < b {
        lemma_emit_sum_monotone(from, step, a, (b - 1) as nat, gap);
    }
}

impl Scenario {
    /// A scenario whose every link fits gives every message a delay that fits.
    pub proof fn lemma_delay_fits(&self, from: u64, to: u64, idx: u64, now: u64)
        requires
            self.delays_fit(),
        ensures
            self.delay_fits(from, to, idx, now),
    {
        let base = self.spec_link_base(from, to, now);
        assert(base_fits(base, self.jitter_pct));
    }

    /// Room for the `rank`-th gap of every step is room for every earlier send of any step.
    pub proof fn lemma_stagger_fits(&self, from: u64, step: u64, rank: u64, k: u64)
        requires
            self.emit_fits(rank),
            k <= rank,
        ensures
            self.stagger_fits(from, step, k),
    {
        if k > 0 && self.emit_gap > 0 {
            lemma_emit_sum_bounded(from, step, k as nat, self.emit_gap);
            lemma_mul_le(k as nat, rank as nat, self.emit_gap as nat);
        }
    }
}

pub proof fn lemma_mul_le(a: nat, b: nat, c: nat)
    requires
        a <= b,
    ensures
        a * c <= b * c,
{
    assert(a * c <= b * c) by (nonlinear_arith)
        requires
            a <= b,
    ;
}

/// The base delay of a link: its matrix entry when the matrix covers it with a positive value,
/// the fallback otherwise.
pub open spec fn spec_base(matrix: Seq<Vec<u64>>, fallback: u64, from: int, to: int) -> u64 {
    if 0 <= from < matrix.len() && 0 <= to < matrix[from]@.len() && matrix[from]@[to] > 0 {
        matrix[from]@[to]
    } else {
        fallback
    }
}

pub open spec fn spec_spread(base: u64, jitter_pct: u64) -> u64 {
    (if base * jitter_pct > u64::MAX { u64::MAX as int } else { base * jitter_pct }) as u64 / 100
}

/// Every base a link can take, with its widest jitter added, still fits in a `u64`.
pub open spec fn base_fits(base: u64, jitter_pct: u64) -> bool {
    base + spec_spread(base, jitter_pct) <= u64::MAX
}

impl Scenario {
    /// Every link's delay, jitter included, fits in a `u64`, before and after GST.
    pub open spec fn delays_fit(&self) -> bool {
        &&& base_fits(self.delay_pre_default, self.jitter_pct)
        &&& base_fits(self.delay_post_default, self.jitter_pct)
        &&& forall|i: int, j: int|
            0 <= i < self.delay_pre@.len() && 0 <= j < self.delay_pre@[i]@.len()
                ==> base_fits(#[trigger] self.delay_pre@[i]@[j], self.jitter_pct)
        &&& forall|i: int, j: int|
            0 <= i < self.delay_post@.len() && 0 <= j < self.delay_post@[i]@.len()
                ==> base_fits(#[trigger] self.delay_post@[i]@[j], self.jitter_pct)
    }

    /// The base delay of link `from -> to` for a message sent at `now`: before GST the pre-GST
    /// matrix and default, after it the post-GST ones.
    pub open spec fn spec_link_base(&self, from: u64, to: u64, now: u64) -> u64 {
        if now < self.gst {
            spec_base(self.delay_pre@, self.delay_pre_default, from as int, to as int)
        } else {
            spec_base(self.delay_post@, self.delay_post_default, from as int, to as int)
        }
    }

    /// The delay of the `idx`-th message on link `from -> to` fits in a `u64`: its base plus the
    /// share of the jitter hashed for it.
    pub open spec fn delay_fits(&self, from: u64, to: u64, idx: u64, now: u64) -> bool {
        let base = self.spec_link_base(from, to, now);
        let spread = spec_spread(base, self.jitter_pct);
        spread == 0 || base + spec_hash3(from, to, idx) % spread <= u64::MAX
    }

    /// The delay of the `idx`-th message on link `from -> to`, sent at `now`.
    pub open spec fn spec_delay(&self, from: u64, to: u64, idx: u64, now: u64) -> u64 {
        let base = self.spec_link_base(from, to, now);
        let spread = spec_spread(base, self.jitter_pct);
        if spread == 0 {
            if base == 0 { 1 } else { base }
        } else {
            let d = base + spec_hash3(from, to, idx) % spread;
            if d == 0 { 1 } else { d as u64 }
        }
    }

    /// Delay for the `idx`-th message on link `from -> to`, sent at `now`.
    ///
    /// Jitter is hashed from `(from, to, idx)` rather than drawn from the run's generator, so code
    /// under test changing how many messages it sends does not shift every other link's timing.
    /// It scales with the base: a flat jitter smaller than the gap between two messages on a link
    /// could never reorder them.
    pub fn delay(&self, from: usize, to: usize, idx: u64, now: u64) -> (d: u64)
        requires
            self.delay_fits(from as u64, to as u64, idx, now),
        ensures
            d == self.spec_delay(from as u64, to as u64, idx, now),
            d >= 1,
    {
        let pre = now < self.gst;
        let (matrix, fallback) = if pre {
            (&self.delay_pre, self.delay_pre_default)
        } else {
            (&self.delay_post, self.delay_post_default)
        };
        let mut base = fallback;
        if from < matrix.len() && to < matrix[from].len() && matrix[from][to] > 0 {
            base = matrix[from][to];
        }
        let spread = match base.checked_mul(self.jitter_pct) {
            Some(p) => p / 100,
            None => u64::MAX / 100,
        };
        if spread == 0 {
            return if base > 1 { base } else { 1 };
        }
        let h = hash3(from as u64, to as u64, idx);
        let d = base + h % spread;
        if d > 1 { d } else { 1 }
    }

    /// Every send of a node's step up to the `rank`-th gets out, however its gaps are hashed.
    pub open spec fn emit_fits(&self, rank: u64) -> bool {
        rank == 0 || self.emit_gap == 0 || (self.emit_gap < u64::MAX && rank * self.emit_gap <= u64::MAX)
    }

    /// The offset of the `rank`-th send of step `step` of process `from` fits in a `u64`.
    pub open spec fn stagger_fits(&self, from: u64, step: u64, rank: u64) -> bool {
        rank == 0 || self.emit_gap == 0
            || (self.emit_gap < u64::MAX && spec_emit_sum(from, step, rank as nat, self.emit_gap) <= u64::MAX)
    }

    pub open spec fn spec_emit_at(&self, from: u64, step: u64, rank: u64) -> nat {
        if self.emit_gap == 0 || rank == 0 {
            0
        } else {
            spec_emit_sum(from, step, rank as nat, self.emit_gap)
        }
    }

    /// How long after its step a process gets its `rank`-th send out: the sum of the gaps before
    /// it, each hashed from `(from, step, i)` and at most `emit_gap`. A send loop is sequential, so
    /// the k-th send cannot leave before the (k-1)-th, and only a running total guarantees that.
    pub fn emit_at(&self, from: usize, step: u64, rank: u64) -> (t: u64)
        requires
            self.stagger_fits(from as u64, step, rank),
        ensures
            t == self.spec_emit_at(from as u64, step, rank),
            t <= rank * self.emit_gap,
    {
        if self.emit_gap == 0 || rank == 0 {
            return 0;
        }
        let ghost gap = self.emit_gap;
        let mut total: u64 = 0;
        let mut i: u64 = 0;
        while i < rank
            invariant
                0 <= i <= rank,
                gap == self.emit_gap,
                gap < u64::MAX,
                spec_emit_sum(from as u64, step, rank as nat, gap) <= u64::MAX,
                total == spec_emit_sum(from as u64, step, i as nat, gap),
            decreases rank - i,
        {
            proof {
                lemma_emit_sum_monotone(from as u64, step, (i + 1) as nat, rank as nat, gap);
            }
            let h = hash3(from as u64, step, i + 1);
            total = total + h % (self.emit_gap + 1);
            i = i + 1;
        }
        proof {
            lemma_emit_sum_bounded(from as u64, step, rank as nat, gap);
        }
        total
    }

    /// The seed this was drawn from, or zero for one written by hand.
    pub fn seed(&self) -> (s: u64)
        ensures
            s == match self.drawn {
                Some(d) => d.seed,
                None => 0,
            },
    {
        match &self.drawn {
            Some(d) => d.seed,
            None => 0,
        }
    }

    /// Record where this was drawn from. Kept off the draw, so the draw stays a function of the
    /// space alone, not of where it happened to be stored.
    pub fn from(self, d: Drawn) -> (s: Scenario)
        ensures
            s.drawn == Some(d),
            s.nodes == self.nodes,
            s.f == self.f,
            s.gst == self.gst,
            s.time_limit == self.time_limit,
            s.fifo == self.fifo,
            s.delay_pre_default == self.delay_pre_default,
            s.delay_post_default == self.delay_post_default,
            s.delay_pre == self.delay_pre,
            s.delay_post == self.delay_post,
            s.jitter_pct == self.jitter_pct,
            s.emit_gap == self.emit_gap,
            s.faults == self.faults,
            s.stimuli == self.stimuli,
    {
        let mut s = self;
        s.drawn = Some(d);
        s
    }
}

// ------------------------------------------------------------ fingerprints

/// The hash's starting state: FNV-1a's offset basis.
pub const FNV_OFFSET: u64 = 0xcbf2_9ce4_8422_2325;
/// The hash's multiplier. Not FNV-1a's textbook prime: this one is part of what every stored
/// fingerprint means, so it stays as it is.
pub const FNV_PRIME: u64 = 0x1000_0000_01b3;

/// FNV-1a's xor-then-multiply over `bytes`, from `h`.
pub open spec fn fnv(h: u64, bytes: Seq<u8>) -> u64
    decreases bytes.len(),
{
    if bytes.len() == 0 {
        h
    } else {
        vstd::wrapping::u64_specs::wrapping_mul(fnv(h, bytes.drop_last()) ^ (bytes.last() as u64), FNV_PRIME)
    }
}

/// `DRAW_VERSION` in little-endian bytes.
pub open spec fn version_bytes() -> Seq<u8> {
    seq![(DRAW_VERSION % 256) as u8, ((DRAW_VERSION / 256) % 256) as u8, ((DRAW_VERSION / 65536) % 256) as u8,
        (DRAW_VERSION / 16777216) as u8]
}

fn fnv_feed(h: u64, bytes: &[u8]) -> (r: u64)
    ensures
        r == fnv(h, bytes@),
{
    let mut h = h;
    let ghost h0 = h;
    let mut i: usize = 0;
    while i < bytes.len()
        invariant
            i <= bytes@.len(),
            h == fnv(h0, bytes@.subrange(0, i as int)),
        decreases bytes@.len() - i,
    {
        assert(bytes@.subrange(0, i + 1).drop_last() =~= bytes@.subrange(0, i as int));
        h = (h ^ (bytes[i] as u64)).wrapping_mul(FNV_PRIME);
        i = i + 1;
    }
    assert(bytes@.subrange(0, bytes@.len() as int) =~= bytes@);
    h
}

/// A space's fingerprint, from its canonical text (or its raw text, when it does not read as
/// JSON): the hash over the draw's version and the text, in sixteen hexadecimal digits. It covers
/// the version of the draw, so a seed's meaning cannot change without the fingerprint moving.
pub fn fingerprint_of(text: &[u8]) -> (r: String)
    ensures
        r@ == crate::text::spec_hex(fnv(fnv(FNV_OFFSET, version_bytes()), text@) as nat, 16),
{
    let v: [u8; 4] = [(DRAW_VERSION % 256) as u8, ((DRAW_VERSION / 256) % 256) as u8,
        ((DRAW_VERSION / 65536) % 256) as u8, (DRAW_VERSION / 16777216) as u8];
    assert(v@ =~= version_bytes());
    let h = fnv_feed(FNV_OFFSET, v.as_slice());
    let h = fnv_feed(h, text);
    let mut r = String::new();
    crate::text::push_hex(&mut r, h, 16);
    assert(r@ =~= crate::text::spec_hex(h as nat, 16));
    r
}

} // verus!
