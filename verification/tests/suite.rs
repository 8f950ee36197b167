use cuelight::json::Json;
use cuelight::scenario::{Fault, Scenario, Stimulus};
use cuelight::suite::{
    admits, runs_written, as_expected, correct_nodes, effective_gst, events_of, fail_line, first_difference, join, label, late_reason,
    list_lines, parse, past_the_limit, replay_line, replay_verdict, seed_bounds, seed_range, seed_selector,
    selection_error, selects_anything, stem, ty, usage, Kind, Parametric, Report, Sweep, Written,
};

fn conv(v: &serde_json::Value) -> Json {
    match v {
        serde_json::Value::Null => Json::Null,
        serde_json::Value::Bool(b) => Json::Bool(*b),
        serde_json::Value::Number(n) => {
            if let Some(u) = n.as_u64() {
                Json::Uint(u)
            } else if let Some(i) = n.as_i64() {
                Json::Int(i)
            } else {
                Json::Float(n.as_f64().unwrap().to_bits())
            }
        }
        serde_json::Value::String(s) => Json::Str(s.clone()),
        serde_json::Value::Array(a) => Json::Array(a.iter().map(conv).collect()),
        serde_json::Value::Object(m) => Json::Object(m.iter().map(|(k, v)| (k.clone(), conv(v))).collect()),
    }
}

fn j(text: &str) -> Json {
    conv(&serde_json::from_str::<serde_json::Value>(text).expect("test JSON"))
}

fn stim(at: u64, node: &str) -> Stimulus {
    Stimulus { at, node: node.to_string(), body: j("{}") }
}

fn crash(at: u64, node: &str) -> Fault {
    Fault::Crash { at, node: node.to_string() }
}

fn pause(at: u64, node: &str, duration: u64) -> Fault {
    Fault::Pause { at, node: node.to_string(), duration }
}

fn with_gst(gst: u64, faults: Vec<Fault>) -> Scenario {
    let mut sc = Scenario::default();
    sc.gst = gst;
    sc.faults = faults;
    sc
}

fn args(xs: &[&str]) -> Vec<String> {
    xs.iter().map(|s| s.to_string()).collect()
}

// ------------------------------------------------------------ the limit

#[test]
fn events_past_the_limit_are_counted() {
    let mut inside = Scenario::default();
    inside.time_limit = 100;
    inside.stimuli = vec![stim(99, "n0")];
    assert_eq!(past_the_limit(&inside), 0);
    let mut outside = Scenario::default();
    outside.time_limit = 100;
    outside.stimuli = vec![stim(100, "n0"), stim(400, "n1")];
    outside.faults = vec![crash(250, "n2")];
    assert_eq!(past_the_limit(&outside), 3);
}

#[test]
fn a_pairing_is_named_by_its_coordinates() {
    let p = Parametric { space: "spaces/mutex-no-crash.json", seeds: 1 };
    assert_eq!(label(&p), "mutex-no-crash");
}

// ------------------------------------------------------- effective GST

#[test]
fn effective_gst_is_the_scheduled_one_when_nothing_disturbs_it() {
    assert_eq!(effective_gst(&with_gst(500, vec![])), 500);
}

#[test]
fn a_crash_moves_it_to_the_crash() {
    assert_eq!(effective_gst(&with_gst(500, vec![crash(900, "n1")])), 900);
}

#[test]
fn a_pause_moves_it_to_the_end_of_the_pause_not_its_start() {
    assert_eq!(effective_gst(&with_gst(500, vec![pause(600, "n1", 700)])), 1300);
}

#[test]
fn a_partition_counts_like_a_pause() {
    let p = Fault::Partition { at: 600, duration: 700, side: vec!["n0".to_string()] };
    assert_eq!(effective_gst(&with_gst(500, vec![p])), 1300);
}

#[test]
fn a_fault_that_ends_before_gst_leaves_it_alone() {
    assert_eq!(effective_gst(&with_gst(5000, vec![pause(100, "n1", 200)])), 5000);
}

#[test]
fn the_latest_fault_wins_whatever_the_order() {
    assert_eq!(effective_gst(&with_gst(100, vec![pause(3000, "n1", 10), crash(200, "n2")])), 3010);
}

// ------------------------------------------------------------- reports

#[test]
fn a_report_fails_exactly_the_checks_that_failed_in_order() {
    let mut r = Report::default();
    assert!(r.ok());
    r.add("a", Kind::Safety, true, String::new());
    r.add("b", Kind::Liveness, false, String::new());
    r.add("c", Kind::Safety, false, "x".into());
    assert!(!r.ok());
    assert_eq!(r.failed(), vec!["b", "c"]);
}

// --------------------------------------------------------- reading back

#[test]
fn a_journal_reads_back_into_what_properties_are_stated_over() {
    let lines = vec![
        j(r#"{"seq":0,"t":0,"kind":"init","src":"harness","dest":"n0","body":{"type":"init"}}"#),
        j(r#"{"seq":1,"t":10,"kind":"stimulus","src":"harness","dest":"n0","body":{"type":"go"}}"#),
        j(r#"{"seq":2,"t":15,"kind":"observe","src":"n0","dest":"harness","body":{"type":"deliver","mid":"m1"}}"#),
        j(r#"{"seq":3,"t":20,"kind":"fault-crash","detail":{"node":"n1"}}"#),
        j(r#"{"seq":4,"t":30,"kind":"end","detail":{"reason":"time-limit","scheduled":0}}"#),
    ];
    let ev = events_of(&lines);
    assert_eq!(ev.end, 30);
    assert!(ev.truncated);
    assert_eq!(ev.observes.len(), 1);
    assert_eq!((ev.observes[0].0, ev.observes[0].1.as_str()), (15, "n0"));
    assert_eq!(ty(&ev.observes[0].2), "deliver");
    assert_eq!(ev.stimuli.len(), 1);
    assert_eq!(ev.stimuli[0].1, "n0");
    assert_eq!(ev.crashed_at("n1"), Some(20));
    assert_eq!(ev.crashed_at("n0"), None);
    let sc = Scenario::default();
    assert_eq!(correct_nodes(&sc, &ev), vec!["n0", "n2", "n3"]);
}

#[test]
fn a_run_that_settles_is_not_truncated() {
    let ev = events_of(&vec![j(r#"{"seq":0,"t":7,"kind":"end","detail":{"reason":"quiescent"}}"#)]);
    assert!(!ev.truncated);
    assert_eq!(ev.end, 7);
}

#[test]
fn a_body_without_a_type_has_the_empty_type() {
    assert_eq!(ty(&j(r#"{"x":1}"#)), "");
    assert_eq!(ty(&j(r#"{"type":3}"#)), "");
    assert_eq!(ty(&j(r#"{"type":"poked"}"#)), "poked");
}

// ------------------------------------------------------------- options

#[test]
fn options_parse_and_bin_swallows_the_rest() {
    let o = parse(&args(&["--seeds", "7", "--seed", "2..5", "--only", "pokes", "--bin", "python3", "x.py", "--list"]),
        "demo", "/suite").unwrap();
    assert_eq!(o.seeds, Some(7));
    assert_eq!(o.range, Some((2, 5)));
    assert_eq!(o.only.as_deref(), Some("pokes"));
    assert_eq!(o.program, vec!["python3", "x.py", "--list"]);
    assert!(!o.list);
    assert_eq!(o.suite_dir, "/suite");
    assert_eq!(o.out, "store/demo");
    assert_eq!(o.watchdog, 5000);
}

#[test]
fn a_seed_range_that_runs_backwards_is_refused() {
    assert_eq!(seed_range("5..2"), Err("--seed 5..2: the range runs backwards".to_string()));
    assert_eq!(seed_range(" 3 .. 4"), Ok((3, 4)));
    assert_eq!(seed_range("9"), Ok((9, 9)));
    assert_eq!(seed_range("+9"), Ok((9, 9)));
    assert_eq!(seed_range("x"), Err("bad --seed x".to_string()));
    assert_eq!(seed_range("18446744073709551616"), Err("bad --seed 18446744073709551616".to_string()));
}

#[test]
fn every_option_error_says_what_went_wrong() {
    assert_eq!(parse(&args(&["--seeds"]), "s", ".").err(), Some("--seeds needs a value".to_string()));
    assert_eq!(parse(&args(&["--seeds", "x"]), "s", ".").err(), Some("bad --seeds".to_string()));
    assert_eq!(parse(&args(&["--watchdog", "-1"]), "s", ".").err(), Some("bad --watchdog".to_string()));
    assert_eq!(parse(&args(&["--bin"]), "s", ".").err(), Some("--bin needs a command".to_string()));
    assert_eq!(parse(&args(&["--what"]), "s", ".").err(), Some("unknown option --what".to_string()));
    let o = parse(&args(&["--list", "--out", "o", "--watchdog", "10"]), "s", ".").unwrap();
    assert!(o.list);
    assert_eq!((o.out.as_str(), o.watchdog), ("o", 10));
    assert!(o.program.is_empty());
}

#[test]
fn usage_names_the_command_twice() {
    let u = usage("demo-check");
    assert!(u.starts_with("demo-check: run this suite's scenarios and judge the journals they write\n\nUSAGE:\n    demo-check [options] --bin <cmd...>\n"));
    assert!(u.contains("    --list             show the parametric and scenarios this suite defines, then exit\n"));
}

// ------------------------------------------------------------ a sweep

static PARAMETRIC: &[Parametric] = &[
    Parametric { space: "testdata/pokes-quiet.json", seeds: 4 },
    Parametric { space: "testdata/crashes.json", seeds: 4 },
];

static WRITTEN: &[Written] = &[Written {
    path: "testdata/nobody-home.json",
    expect_fail: &["every-poke-answered"],
    why: "both nodes are dead long before the pokes land",
}];

#[test]
fn list_pads_every_name_to_the_longest() {
    let lines = list_lines(PARAMETRIC, WRITTEN);
    assert_eq!(lines, vec![
        "parametric:",
        "  pokes-quiet 4 seeds from testdata/pokes-quiet.json",
        "  crashes     4 seeds from testdata/crashes.json",
        "written:",
        "  nobody-home both nodes are dead long before the pokes land",
    ]);
    assert_eq!(stem("a/b.c.json"), "b.c");
    assert_eq!(stem(""), "written");
}

#[test]
fn only_must_select_something() {
    assert!(selects_anything("crash", PARAMETRIC, WRITTEN));
    assert!(selects_anything("nobody", PARAMETRIC, WRITTEN));
    assert!(!selects_anything("does-not-exist", PARAMETRIC, WRITTEN));
    let o = parse(&args(&["--only", "does-not-exist"]), "demo", ".").unwrap();
    assert_eq!(selection_error(&o, PARAMETRIC, WRITTEN),
        Some("--only does-not-exist matches nothing. `--list` shows what this suite defines.".to_string()));
    let o = parse(&args(&["--only", "pokes"]), "demo", ".").unwrap();
    assert_eq!(selection_error(&o, PARAMETRIC, WRITTEN), None);
}

#[test]
fn the_seeds_come_from_the_range_the_override_or_the_scenario() {
    let o = parse(&args(&[]), "d", ".").unwrap();
    assert_eq!(seed_bounds(&o, 4), (1, 4));
    let o = parse(&args(&["--seeds", "9"]), "d", ".").unwrap();
    assert_eq!(seed_bounds(&o, 4), (1, 9));
    let o = parse(&args(&["--seeds", "9", "--seed", "2"]), "d", ".").unwrap();
    assert_eq!(seed_bounds(&o, 4), (2, 2));
}

#[test]
fn a_sweep_reports_its_tally_and_lists_five_failures() {
    let mut s = Sweep::new();
    s.passed();
    for seed in 2..9 {
        s.failed(seed, "every-poke-answered".into());
    }
    assert_eq!(s.summary("pokes-quiet", 1, 8, false), "pokes-quiet: 1/8 seeds passed");
    assert_eq!(s.summary("pokes-quiet", 2, 2, true), "pokes-quiet: 1/1 seeds passed (seeds 2..2)");
    assert_eq!(s.summary("x", 1, 0, false), "x: 1/0 seeds passed");
    assert_eq!(s.listed(), 5);
    assert_eq!(s.more(), Some("  ... and 2 more".to_string()));
    assert_eq!(fail_line(3, "oops"), "  seed 3: oops");
    assert_eq!(late_reason(2), "2 event(s) scheduled past the time limit; they cannot happen");
    let sel = seed_selector(1, "pokes-quiet");
    assert_eq!(sel, "--seed 1 --only pokes-quiet");
    let program = args(&["python3", "silent.py"]);
    assert_eq!(replay_line("demo-check", &sel, &program),
        "    replay:  demo-check --seed 1 --only pokes-quiet --bin python3 silent.py");
    assert_eq!(join(&args(&["a", "b", "c"]), ", "), "a, b, c");
    assert_eq!(join(&args(&[]), ", "), "");
}

#[test]
fn an_expected_failure_is_as_expected() {
    assert!(as_expected(&vec!["every-poke-answered"], WRITTEN[0].expect_fail));
    assert!(!as_expected(&vec![], WRITTEN[0].expect_fail));
    assert!(!as_expected(&vec!["other"], WRITTEN[0].expect_fail));
}

// ------------------------------------------------------------- replays

#[test]
fn two_journals_differ_on_the_first_line_that_does() {
    assert_eq!(first_difference("a\nb\nc\n", "a\nx\nc\n"), 2);
    assert_eq!(first_difference("a\nb\n", "a\nb\nc\n"), 3);
    assert_eq!(first_difference("a\r\nb", "a\nc"), 2);
}

#[test]
fn a_replay_names_the_line_and_both_journals() {
    assert_eq!(replay_verdict("pokes-quiet seed 1", "x\n", "x\n", "a", "b"), Ok("pokes-quiet seed 1".to_string()));
    let e = replay_verdict("pokes-quiet seed 1", "x\ny\n", "x\nz\n", "r/a/journal.jsonl", "r/b/journal.jsonl").unwrap_err();
    assert_eq!(e, "NOT DETERMINISTIC: replaying pokes-quiet seed 1 does not give the same journal twice.\n  \
        First difference on line 2. A system clock, a thread, or unseeded randomness.\n  \
        compare r/a/journal.jsonl\n      and r/b/journal.jsonl");
}

#[test]
fn a_report_prints_one_aligned_line_per_check() {
    let mut r = Report::default();
    r.add("agreement", Kind::Safety, true, "12 deliveries".to_string());
    r.add("termination-of-everything", Kind::Liveness, false, "n2 never decided".to_string());
    assert_eq!(
        r.lines(),
        vec![
            "  ok   safety   agreement            12 deliveries".to_string(),
            "  FAIL liveness termination-of-everything n2 never decided".to_string(),
        ]
    );
}

#[test]
fn only_admits_the_names_that_contain_its_pattern() {
    let o = parse(&args(&["--only", "crash", "--bin", "node"]), "s", ".").unwrap();
    assert!(admits(&o, "crashes"));
    assert!(admits(&o, "early-crash"));
    assert!(!admits(&o, "steady"));
    let everything = parse(&args(&["--bin", "node"]), "s", ".").unwrap();
    assert!(admits(&everything, "steady"));
}

#[test]
fn a_written_scenario_runs_unless_seeds_were_asked_for_or_only_leaves_it_out() {
    let w = Written { path: "scenarios/crash-early.json", expect_fail: &[], why: "" };
    let plain = parse(&args(&["--bin", "node"]), "s", ".").unwrap();
    assert!(runs_written(&plain, &w));
    let seeded = parse(&args(&["--seed", "3", "--bin", "node"]), "s", ".").unwrap();
    assert!(!runs_written(&seeded, &w));
    let other = parse(&args(&["--only", "steady", "--bin", "node"]), "s", ".").unwrap();
    assert!(!runs_written(&other, &w));
    let this = parse(&args(&["--only", "early", "--bin", "node"]), "s", ".").unwrap();
    assert!(runs_written(&this, &w));
}
