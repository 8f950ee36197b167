use cuelight::draw::{draw_plan, resolve, Placement};
use cuelight::json::Json;
use cuelight::scenario::{Bound, Effect, Event, Fault, Frac, FracSpan, Scenario, Space, Span, Subject, STEPS};

// ----------------------------------------------------------------- helpers

/// A fraction as a space writes it: a scalar, or a range drawn only when it is not empty.
fn fixed(x: f64) -> FracSpan {
    FracSpan::Fixed(Frac { bits: x.to_bits() })
}

fn frac_range(lo: f64, hi: f64) -> FracSpan {
    if hi > lo {
        FracSpan::Drawn(Frac { bits: lo.to_bits() }, Frac { bits: hi.to_bits() })
    } else {
        fixed(lo)
    }
}

/// The fraction a placement stands for.
fn value(p: &Placement) -> f64 {
    match (p.frac, p.point) {
        (None, _) => 0.0,
        (Some(FracSpan::Fixed(v)), _) => f64::from_bits(v.bits),
        (Some(FracSpan::Drawn(lo, hi)), Some(k)) => {
            let (lo, hi) = (f64::from_bits(lo.bits), f64::from_bits(hi.bits));
            lo + (hi - lo) * (k as f64) / STEPS as f64
        }
        (Some(FracSpan::Drawn(lo, _)), None) => f64::from_bits(lo.bits),
    }
}

/// A scenario drawn from a seed and a space: the plan, its placements turned into instants, and
/// the events dated.
fn draw(seed: u64, space: &Space) -> Scenario {
    assert_eq!(space.validate(), Ok(()));
    let plan = draw_plan(seed, space);
    let tl = plan.time_limit as f64;
    let gst_at = (value(&plan.gst) * tl) as u64;
    let roots: Vec<u64> = plan.roots.iter().map(|p| (value(p) * tl) as u64).collect();
    resolve(plan, gst_at, &roots)
}

fn body(ty: &str) -> Json {
    Json::Object(vec![("type".to_string(), Json::Str(ty.to_string()))])
}

fn pinned(k: u64) -> Span<Bound> {
    Span::Pinned(Bound::Fixed(k))
}

fn bounds(a: Bound, b: Bound) -> Span<Bound> {
    Span::Range(a, b)
}

fn root(nodes: Option<Subject>, count: Option<Span<Bound>>, at: FracSpan, effect: Effect, children: Vec<Event>) -> Event {
    Event { nodes, count, at_frac: Some(at), delay: None, effect, children }
}

fn child(nodes: Option<Subject>, delay: Span<u64>, effect: Effect) -> Event {
    Event { nodes, count: None, at_frac: None, delay: Some(delay), effect, children: vec![] }
}

fn space_f(f: Span<u64>, events: Vec<Event>) -> Space {
    let mut sp = Space::default();
    sp.f = f;
    sp.events = events;
    sp
}

fn nodes_of(sc: &Scenario) -> Vec<&str> {
    sc.stimuli.iter().map(|s| s.node.as_str()).collect()
}

fn ty_of(b: &Json) -> String {
    b.str_field("type")
}

fn fault_at(f: &Fault) -> u64 {
    f.at()
}

// ------------------------------------------------------------------ tests

#[test]
fn the_draw_is_pinned() {
    let mut sp = space_f(Span::Pinned(1), vec![root(
        Some(Subject::Distinct(bounds(Bound::Fixed(0), Bound::F))), None, frac_range(0.0, 0.7), Effect::Crash, vec![])]);
    sp.fifo = Span::Pinned(true);
    let sc = draw(3, &sp);
    assert_eq!((sc.nodes, sc.f), (4, 1));
    assert_eq!(sc.gst, 2855);
    assert_eq!(sc.emit_gap, 6);
    assert_eq!(sc.delay_pre[0], vec![0, 362, 48, 136]);
    assert!(sc.faults.is_empty(), "{:?}", sc.faults);
}

#[test]
fn all_selects_every_process_once_in_order() {
    let sp = space_f(Span::Pinned(1), vec![root(Some(Subject::All), None, fixed(0.1), Effect::Stimulus(body("x")), vec![])]);
    assert_eq!(nodes_of(&draw(1, &sp)), vec!["n0", "n1", "n2", "n3"]);
}

#[test]
fn distinct_never_repeats_and_any_may() {
    let d = space_f(Span::Pinned(3), vec![root(
        Some(Subject::Distinct(bounds(Bound::Fixed(10), Bound::Fixed(10)))), None, fixed(0.1), Effect::Stimulus(body("x")), vec![])]);
    for seed in 1..40 {
        let sc = draw(seed, &d);
        let got = nodes_of(&sc);
        let mut uniq = got.clone();
        uniq.sort();
        uniq.dedup();
        assert_eq!(uniq.len(), got.len(), "seed {seed}: distinct repeated a process");
    }
    let a = space_f(Span::Pinned(3), vec![root(
        Some(Subject::Any(bounds(Bound::Fixed(10), Bound::Fixed(10)))), None, fixed(0.1), Effect::Stimulus(body("x")), vec![])]);
    let repeated = (1..40).filter(|s| {
        let sc = draw(*s, &a);
        let got = nodes_of(&sc);
        let mut u = got.clone();
        u.sort();
        u.dedup();
        u.len() < got.len()
    });
    assert!(repeated.count() > 30, "`any` behaved like `distinct`");
}

#[test]
fn distinct_asked_for_more_than_exist_gives_what_exists() {
    let sp = space_f(Span::Pinned(1), vec![root(
        Some(Subject::Distinct(bounds(Bound::Fixed(99), Bound::Fixed(99)))), None, fixed(0.1), Effect::Stimulus(body("x")), vec![])]);
    assert_eq!(draw(1, &sp).stimuli.len(), 4);
}

#[test]
fn the_f_symbol_is_the_fault_budget() {
    let sp = space_f(Span::Range(1, 3), vec![root(
        Some(Subject::Distinct(bounds(Bound::F, Bound::F))), None, fixed(0.1), Effect::Crash, vec![])]);
    for seed in 1..60 {
        let sc = draw(seed, &sp);
        assert_eq!(sc.faults.len(), sc.f, "seed {seed}: f crashes expected");
    }
}

#[test]
fn a_child_acts_on_its_parents_process() {
    let sp = space_f(Span::Pinned(1), vec![root(
        Some(Subject::Distinct(pinned(1))), None, fixed(0.1), Effect::Stimulus(body("send")),
        vec![child(None, Span::Range(5, 5), Effect::Crash)])]);
    for seed in 1..40 {
        let sc = draw(seed, &sp);
        let who = sc.stimuli[0].node.clone();
        match &sc.faults[0] {
            Fault::Crash { at, node } => {
                assert_eq!(*node, who, "seed {seed}: the crash left its parent's process");
                assert_eq!(*at, sc.stimuli[0].at + 5);
            }
            other => panic!("{other:?}"),
        }
    }
}

#[test]
fn a_child_naming_its_own_subject_leaves_the_parents() {
    let sp = space_f(Span::Pinned(1), vec![root(
        Some(Subject::Distinct(pinned(1))), None, fixed(0.1), Effect::Stimulus(body("a")),
        vec![child(Some(Subject::Distinct(pinned(1))), Span::Range(1, 9), Effect::Stimulus(body("b")))])]);
    for seed in 1..40 {
        let sc = draw(seed, &sp);
        let a = sc.stimuli.iter().find(|s| ty_of(&s.body) == "a").unwrap();
        let b = sc.stimuli.iter().find(|s| ty_of(&s.body) == "b").unwrap();
        assert_ne!(a.node, b.node, "seed {seed}");
        assert!((1..=9).contains(&(b.at - a.at)));
    }
}

#[test]
fn a_zero_delay_is_the_same_logical_instant() {
    let sp = space_f(Span::Pinned(1), vec![root(
        Some(Subject::All), None, fixed(0.1), Effect::Stimulus(body("a")),
        vec![child(None, Span::Pinned(0), Effect::Stimulus(body("b")))])]);
    let sc = draw(1, &sp);
    assert_eq!(sc.stimuli.len(), 8);
    assert!(sc.stimuli.iter().all(|s| s.at == sc.stimuli[0].at));
}

#[test]
fn the_tree_multiplies() {
    let sp = space_f(Span::Pinned(1), vec![root(
        Some(Subject::Distinct(bounds(Bound::Fixed(3), Bound::Fixed(3)))), None, fixed(0.1), Effect::Stimulus(body("a")),
        vec![child(Some(Subject::Any(bounds(Bound::Fixed(2), Bound::Fixed(2)))), Span::Pinned(1), Effect::Stimulus(body("b")))])]);
    let sc = draw(1, &sp);
    assert_eq!(sc.stimuli.iter().filter(|s| ty_of(&s.body) == "a").count(), 3);
    assert_eq!(sc.stimuli.iter().filter(|s| ty_of(&s.body) == "b").count(), 6);
}

#[test]
fn count_repeats_an_event_that_binds_nobody() {
    let sp = space_f(Span::Pinned(1), vec![root(
        None, Some(bounds(Bound::Fixed(3), Bound::Fixed(3))), frac_range(0.1, 0.5),
        Effect::Partition { duration: Span::Range(10, 20) }, vec![])]);
    assert_eq!(draw(1, &sp).faults.len(), 3);
}

#[test]
fn sends_leave_one_after_another() {
    let mut sp = space_f(Span::Pinned(2), vec![]);
    sp.emit_gap = Span::Range(4, 4);
    let sc = draw(1, &sp);
    assert_eq!(sc.emit_gap, 4);
    let out: Vec<u64> = (0..6).map(|rank| sc.emit_at(0, 1, rank)).collect();
    assert_eq!(out[0], 0, "the first send leaves at once");
    assert!(out.windows(2).all(|w| w[0] <= w[1]), "not cumulative: {out:?}");
    assert!(*out.last().unwrap() > 0, "every send left together: {out:?}");
}

#[test]
fn a_pinned_gap_of_zero_puts_every_send_at_the_same_instant() {
    let mut sp = space_f(Span::Pinned(1), vec![]);
    sp.emit_gap = Span::Pinned(0);
    let sc = draw(1, &sp);
    assert!((0..8).all(|r| sc.emit_at(0, 1, r) == 0));
}

#[test]
fn the_stagger_does_not_consume_the_run_s_randomness() {
    let mut sp = space_f(Span::Pinned(2), vec![]);
    sp.emit_gap = Span::Range(1, 9);
    let sc = draw(4, &sp);
    for _ in 0..3 {
        assert_eq!(sc.emit_at(1, 7, 3), sc.emit_at(1, 7, 3));
    }
    let a: Vec<u64> = (0..5).map(|r| sc.emit_at(1, 7, r)).collect();
    let b: Vec<u64> = (0..5).map(|r| sc.emit_at(1, 8, r)).collect();
    assert_ne!(a, b, "two steps staggered identically: {a:?}");
}

#[test]
fn every_stagger_stays_within_the_declared_gap() {
    let mut sp = space_f(Span::Pinned(3), vec![]);
    sp.emit_gap = Span::Range(0, 7);
    let sc = draw(9, &sp);
    for node in 0..4 {
        for step in 1..6 {
            for rank in 1..8u64 {
                let d = sc.emit_at(node, step, rank);
                assert!(d <= rank * sc.emit_gap, "rank {rank} waited {d} for gap {}", sc.emit_gap);
            }
        }
    }
}

fn crash_space(f: Span<u64>) -> Space {
    space_f(f, vec![root(Some(Subject::Distinct(bounds(Bound::Fixed(0), Bound::F))), None, fixed(0.3), Effect::Crash, vec![])])
}

#[test]
fn a_scalar_and_a_range_of_width_zero_are_the_same_run() {
    for seed in 1..30 {
        let a = draw(seed, &crash_space(Span::Pinned(2)));
        let b = draw(seed, &crash_space(Span::Range(2, 2)));
        assert_eq!(format!("{a:?}"), format!("{b:?}"), "seed {seed}");
    }
}

#[test]
fn changing_a_pinned_field_changes_that_field_and_nothing_else() {
    let base = |j: u64, b: bool| {
        let mut sp = space_f(Span::Pinned(2), vec![root(
            Some(Subject::Distinct(bounds(Bound::Fixed(0), Bound::F))), None, frac_range(0.0, 0.7), Effect::Crash, vec![])]);
        sp.jitter_pct = Span::Pinned(j);
        sp.fifo = Span::Pinned(b);
        sp
    };
    let quiet = base(100, false);
    let loud = base(900, true);
    for seed in 1..30 {
        let a = draw(seed, &quiet);
        let b = draw(seed, &loud);
        assert_eq!((a.jitter_pct, a.fifo), (100, false));
        assert_eq!((b.jitter_pct, b.fifo), (900, true));
        assert_eq!((a.gst, &a.delay_pre), (b.gst, &b.delay_pre), "seed {seed}");
        assert_eq!(format!("{:?}", a.faults), format!("{:?}", b.faults), "seed {seed}");
    }
}

#[test]
fn the_group_size_follows_the_fault_budget() {
    for f in 1..=4u64 {
        let sc = draw(7, &space_f(Span::Pinned(f), vec![]));
        assert_eq!((sc.nodes, sc.f), ((3 * f + 1) as usize, f as usize));
    }
}

#[test]
fn integer_ranges_are_inclusive() {
    let sizes: Vec<usize> = (1..80).map(|s| draw(s, &space_f(Span::Range(1, 3), vec![])).nodes).collect();
    assert!(sizes.contains(&4) && sizes.contains(&7) && sizes.contains(&10));
    assert!(sizes.iter().all(|n| [4, 7, 10].contains(n)));
}

#[test]
fn a_partition_is_a_proper_non_empty_subset_and_not_always_a_prefix() {
    let sp = space_f(Span::Pinned(3), vec![root(
        None, Some(pinned(1)), frac_range(0.1, 0.5), Effect::Partition { duration: Span::Range(10, 20) }, vec![])]);
    let mut non_prefix = 0;
    for seed in 1..120 {
        let sc = draw(seed, &sp);
        for f in &sc.faults {
            let Fault::Partition { side, .. } = f else { panic!("{f:?}") };
            assert!(!side.is_empty() && side.len() < sc.nodes, "seed {seed}: {side:?}");
            let prefix: Vec<String> = (0..side.len()).map(|i| format!("n{i}")).collect();
            if *side != prefix {
                non_prefix += 1;
            }
        }
    }
    assert!(non_prefix > 60, "only {non_prefix} partitions were not a prefix");
}

#[test]
fn a_group_of_one_process_cannot_be_partitioned() {
    let sp = space_f(Span::Pinned(0), vec![root(
        None, Some(pinned(3)), fixed(0.1), Effect::Partition { duration: Span::Pinned(10) }, vec![])]);
    let sc = draw(1, &sp);
    assert_eq!(sc.nodes, 1);
    assert!(sc.faults.is_empty());
}

#[test]
fn no_events_means_no_stimuli_and_no_faults() {
    let sc = draw(1, &space_f(Span::Pinned(1), vec![]));
    assert!(sc.stimuli.is_empty() && sc.faults.is_empty());
}

#[test]
fn a_space_that_cannot_mean_what_it_says_is_refused() {
    let both = space_f(Span::Pinned(1), vec![root(Some(Subject::All), Some(pinned(1)), fixed(0.1), Effect::Crash, vec![])]);
    let delayed_root = space_f(Span::Pinned(1), vec![Event {
        nodes: Some(Subject::All), count: None, at_frac: None, delay: Some(Span::Pinned(1)), effect: Effect::Crash, children: vec![] }]);
    let unplaced = space_f(Span::Pinned(1), vec![Event {
        nodes: Some(Subject::All), count: None, at_frac: None, delay: None, effect: Effect::Crash, children: vec![] }]);
    let placed_child = space_f(Span::Pinned(1), vec![root(Some(Subject::All), None, fixed(0.1), Effect::Crash, vec![Event {
        nodes: None, count: None, at_frac: Some(fixed(0.2)), delay: None, effect: Effect::Crash, children: vec![] }])]);
    let orphan = space_f(Span::Pinned(1), vec![root(None, Some(pinned(1)), fixed(0.1),
        Effect::Partition { duration: Span::Pinned(1) }, vec![child(None, Span::Pinned(1), Effect::Crash)])]);
    let cases = [
        (both, "pick one"),
        (delayed_root, "this is a root"),
        (unplaced, "a root needs `at_frac`"),
        (placed_child, "places a root"),
        (orphan, "nothing to inherit"),
    ];
    for (sp, needle) in cases {
        let err = sp.validate().expect_err(needle);
        assert!(err.contains(needle), "{err:?} does not mention {needle:?}");
    }
}

fn sweep_spaces() -> Vec<Space> {
    let mut v = vec![Space::default()];
    v.push(space_f(Span::Pinned(0), vec![root(None, Some(pinned(2)), fixed(0.1), Effect::Partition { duration: Span::Pinned(10) }, vec![])]));
    v.push(space_f(Span::Range(0, 3), vec![
        root(Some(Subject::Distinct(bounds(Bound::Fixed(0), Bound::F))), None, frac_range(0.0, 0.7), Effect::Crash, vec![]),
        root(Some(Subject::Distinct(bounds(Bound::Fixed(0), Bound::Fixed(3)))), None, frac_range(0.0, 0.6),
            Effect::Pause { duration: Span::Range(10, 400) }, vec![]),
        root(None, Some(bounds(Bound::Fixed(0), Bound::Fixed(2))), frac_range(0.0, 0.6),
            Effect::Partition { duration: Span::Range(50, 600) }, vec![]),
    ]));
    let rand = Json::Object(vec![
        ("type".to_string(), Json::Str("x".to_string())),
        ("v".to_string(), Json::Object(vec![("$rand".to_string(), Json::Array(vec![Json::Uint(0), Json::Uint(9)]))])),
    ]);
    let mut s4 = space_f(Span::Range(1, 2), vec![root(Some(Subject::All), None, frac_range(0.0, 0.5), Effect::Stimulus(rand), vec![
        child(None, Span::Range(0, 40), Effect::Stimulus(body("y"))),
        child(Some(Subject::Distinct(pinned(1))), Span::Range(1, 20), Effect::Crash),
    ])]);
    s4.time_limit = Span::Range(2000, 9000);
    s4.gst_frac = frac_range(0.0, 1.0);
    v.push(s4);
    let tagged = Json::Object(vec![
        ("type".to_string(), Json::Str("z".to_string())),
        ("id".to_string(), Json::Str("m<i>".to_string())),
    ]);
    let mut s5 = space_f(Span::Pinned(1), vec![root(
        Some(Subject::Any(bounds(Bound::Fixed(0), Bound::Fixed(6)))), None, frac_range(0.0, 0.9), Effect::Stimulus(tagged), vec![])]);
    s5.jitter_pct = Span::Range(0, 300);
    s5.fifo = Span::Range(false, true);
    v.push(s5);
    v
}

#[test]
fn the_draw_holds_its_invariants_everywhere() {
    for (si, sp) in sweep_spaces().iter().enumerate() {
        for seed in 1..40u64 {
            let w = format!("space {si}, seed {seed}");
            let sc = draw(seed, sp);
            let names: Vec<String> = (0..sc.nodes).map(|i| format!("n{i}")).collect();
            assert_eq!(sc.nodes, 3 * sc.f + 1, "{w}");
            assert!(sc.time_limit >= 2 && sc.gst <= sc.time_limit, "{w}");
            assert_eq!(sc.delay_pre.len(), sc.nodes, "{w}");
            for i in 0..sc.nodes {
                for j in 0..sc.nodes {
                    let (a, b) = (sc.delay_pre[i][j], sc.delay_post[i][j]);
                    if i == j {
                        assert_eq!((a, b), (0, 0), "{w}");
                    } else {
                        assert!(a >= 1 && b >= 1, "{w}: zero delay {i}->{j}");
                    }
                }
            }
            let mut crashed: Vec<&str> = vec![];
            for f in &sc.faults {
                match f {
                    Fault::Crash { node, .. } => {
                        assert!(names.contains(node), "{w}: crash on {node}");
                        assert!(!crashed.contains(&node.as_str()), "{w}: crashed twice");
                        crashed.push(node);
                    }
                    Fault::Pause { node, duration, .. } => {
                        assert!(names.contains(node) && *duration >= 1, "{w}");
                    }
                    Fault::Partition { duration, side, .. } => {
                        assert!(!side.is_empty() && side.len() < sc.nodes, "{w}: {side:?}");
                        assert!(side.iter().all(|s| names.contains(s)) && *duration >= 1, "{w}");
                        let mut seen = side.clone();
                        seen.sort();
                        seen.dedup();
                        assert_eq!(seen.len(), side.len(), "{w}: a process listed twice");
                    }
                }
            }
            assert!(sc.faults.windows(2).all(|p| fault_at(&p[0]) <= fault_at(&p[1])), "{w}: unsorted");
            assert!(sc.stimuli.windows(2).all(|p| p[0].at <= p[1].at), "{w}: unsorted");
            assert!(sc.stimuli.iter().all(|s| names.contains(&s.node)), "{w}");
            assert_eq!(format!("{sc:?}"), format!("{:?}", draw(seed, sp)), "{w}: not a function");
        }
    }
}

#[test]
fn keys_reordered_in_a_body_change_nothing() {
    let r = || Json::Object(vec![("$rand".to_string(), Json::Array(vec![Json::Uint(0), Json::Uint(999)]))]);
    let one = Json::Object(vec![("a".to_string(), r()), ("b".to_string(), r())]);
    let other = Json::Object(vec![("b".to_string(), r()), ("a".to_string(), r())]);
    let sp = |b: Json| space_f(Span::Pinned(1), vec![root(Some(Subject::All), None, fixed(0.1), Effect::Stimulus(b), vec![])]);
    let vals = |sc: &Scenario| -> Vec<(u64, u64)> {
        sc.stimuli.iter().map(|s| (s.body.u64_field("a").unwrap(), s.body.u64_field("b").unwrap())).collect()
    };
    assert_eq!(vals(&draw(1, &sp(one))), vals(&draw(1, &sp(other))));
}

#[test]
fn a_stimulus_body_is_rendered_per_instance() {
    let tagged = Json::Object(vec![("id".to_string(), Json::Str("m<i>".to_string())), ("type".to_string(), Json::Str("z".to_string()))]);
    let sp = space_f(Span::Pinned(1), vec![root(Some(Subject::All), None, fixed(0.1), Effect::Stimulus(tagged), vec![])]);
    let sc = draw(1, &sp);
    let mut ids: Vec<String> = sc.stimuli.iter().map(|s| s.body.str_field("id")).collect();
    ids.sort();
    assert_eq!(ids, vec!["m0", "m1", "m2", "m3"]);
    assert_eq!(sc.stimuli[0].at, 1000);
}
