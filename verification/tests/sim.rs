use cuelight::json::Json;
use cuelight::node::NodeError;
use cuelight::proto::Envelope;
use cuelight::scenario::{Fault, Scenario, Stimulus};
use cuelight::sim::{can_run, Action, Outcome, Sim};

fn obj(entries: Vec<(&str, Json)>) -> Json {
    Json::Object(entries.into_iter().map(|(k, v)| (k.to_string(), v)).collect())
}

fn name(i: usize) -> String {
    format!("n{i}")
}

/// A group of `n` with every link `delay` long, no GST effect and no stagger.
fn scenario(n: usize, fifo: bool, jitter_pct: u64, faults: Vec<Fault>, stimuli: Vec<Stimulus>) -> Scenario {
    let rows = |d: u64| -> Vec<Vec<u64>> {
        (0..n).map(|i| (0..n).map(|j| if i == j { 0 } else { d }).collect()).collect()
    };
    Scenario {
        drawn: None,
        nodes: n,
        f: (n - 1) / 3,
        gst: 0,
        time_limit: 1000,
        fifo,
        delay_pre_default: 10,
        delay_post_default: 10,
        delay_pre: rows(10),
        delay_post: rows(10),
        jitter_pct,
        emit_gap: 0,
        faults,
        stimuli,
    }
}

fn send(from: usize, to: &str, body: Json) -> Envelope {
    Envelope::new(&name(from), to, body)
}

fn done(from: usize) -> Envelope {
    send(from, "harness", obj(vec![("type", Json::str("done"))]))
}

/// Every process greets every other on `init`, and reports each greeting it gets.
fn chatter(n: usize) -> impl Fn(usize, &Envelope) -> Vec<Envelope> {
    move |i, ev| {
        let mut out = vec![];
        match ev.kind().as_str() {
            "init" => {
                for j in 0..n {
                    if j != i {
                        out.push(send(i, &name(j), obj(vec![("type", Json::str("ping")), ("mid", Json::Uint(i as u64))])));
                    }
                }
            }
            "ping" => {
                let mid = ev.body.u64_field("mid").unwrap();
                out.push(send(i, "harness", obj(vec![("type", Json::str("deliver")), ("mid", Json::Uint(mid))])));
            }
            _ => {}
        }
        out.push(done(i));
        out
    }
}

/// Process 0 sends a burst of eight numbered messages to process 1, which reports each on arrival.
fn burst(i: usize, ev: &Envelope) -> Vec<Envelope> {
    let mut out = vec![];
    match ev.kind().as_str() {
        "init" if i == 0 => {
            for k in 0..8u64 {
                out.push(send(0, "n1", obj(vec![("type", Json::str("m")), ("mid", Json::Uint(k))])));
            }
        }
        "m" => {
            let mid = ev.body.u64_field("mid").unwrap();
            out.push(send(i, "harness", obj(vec![("type", Json::str("deliver")), ("mid", Json::Uint(mid))])));
        }
        _ => {}
    }
    out.push(done(i));
    out
}

/// Run a scenario to its end with `node` standing in for every process.
fn drive(sc: Scenario, node: &dyn Fn(usize, &Envelope) -> Vec<Envelope>) -> (Outcome, Vec<Json>, Vec<usize>) {
    assert!(can_run(&sc));
    let mut sim = Sim::new(sc, "runs/test".to_string());
    let mut killed = vec![];
    loop {
        match sim.next() {
            Action::Step { node: i, event } => {
                let outs = node(i, &event);
                sim.stepped(i, outs);
            }
            Action::Kill { node } => killed.push(node),
            Action::Continue => {}
            Action::Done(o) => return (o, sim.into_journal(), killed),
        }
    }
}

fn kind(line: &Json) -> String {
    line.str_field("kind")
}

fn body_type(line: &Json) -> String {
    match line.get("body") {
        Some(b) => b.str_field("type"),
        None => String::new(),
    }
}

fn deliveries(lines: &[Json]) -> Vec<u64> {
    lines
        .iter()
        .filter(|l| kind(l) == "observe" && body_type(l) == "deliver")
        .map(|l| l.get("body").unwrap().u64_field("mid").unwrap())
        .collect()
}

#[test]
fn the_journal_keeps_its_contract() {
    let (o, lines, _) = drive(scenario(4, true, 100, vec![], vec![]), &chatter(4));
    assert!(o.ok);
    assert!(!lines.is_empty());
    for (i, l) in lines.iter().enumerate() {
        assert_eq!(l.u64_field("seq"), Some(i as u64), "seq is not dense from 0");
    }
    assert!(lines.windows(2).all(|w| w[0].u64_field("t") <= w[1].u64_field("t")), "t went backwards");
    assert_eq!(kind(lines.last().unwrap()), "end", "end is not the last entry");
    assert!(!lines.iter().any(|l| body_type(l) == "done"), "`done` is a barrier, not an event");
    // Every greeting arrived: twelve sends, twelve deliveries.
    assert_eq!(lines.iter().filter(|l| kind(l) == "send").count(), 12);
    assert_eq!(deliveries(&lines).len(), 12);
}

#[test]
fn fifo_orders_a_link_and_its_absence_does_not() {
    let (_, ordered, _) = drive(scenario(4, true, 300, vec![], vec![]), &burst);
    let got = deliveries(&ordered);
    assert_eq!(got.len(), 8);
    assert!(got.windows(2).all(|w| w[0] < w[1]), "fifo left the link unordered: {got:?}");

    let (_, loose, _) = drive(scenario(4, false, 300, vec![], vec![]), &burst);
    let got = deliveries(&loose);
    assert_eq!(got.len(), 8);
    assert!(!got.windows(2).all(|w| w[0] < w[1]), "jitter did not reorder the link: {got:?}");
}

#[test]
fn a_run_replays_byte_identical() {
    let (_, a, _) = drive(scenario(4, false, 300, vec![], vec![]), &chatter(4));
    let (_, b, _) = drive(scenario(4, false, 300, vec![], vec![]), &chatter(4));
    assert_eq!(format!("{a:?}"), format!("{b:?}"), "same scenario, different journal");
}

#[test]
fn a_run_with_nothing_left_to_do_is_quiescent() {
    let (o, lines, _) = drive(scenario(4, true, 0, vec![], vec![]), &chatter(4));
    assert!(o.ok);
    assert_eq!(o.reason, "quiescent");
    // Every link is ten long and nothing jitters: the last delivery lands at ten.
    assert_eq!(o.end_time, 10);
    let end = lines.last().unwrap();
    assert_eq!(end.get("detail").unwrap().str_field("reason"), "quiescent");
}

#[test]
fn init_tells_a_node_who_it_is_and_who_else_there_is() {
    let mut sim = Sim::new(scenario(4, false, 0, vec![], vec![]), "runs/test".to_string());
    match sim.next() {
        Action::Step { node, event } => {
            assert_eq!(node, 0);
            assert_eq!((event.src.as_str(), event.dest.as_str()), ("harness", "n0"));
            assert_eq!(event.kind(), "init");
            assert_eq!(event.body.str_field("node_id"), "n0");
            assert_eq!(event.body.u64_field("n"), Some(4));
            assert_eq!(event.body.u64_field("f"), Some(1));
            assert!(event.body.get("gst").is_none(), "the GST is never told");
            match event.body.get("node_ids") {
                Some(Json::Array(ids)) => {
                    let ids: Vec<String> = ids.iter().map(|j| j.as_str().unwrap().clone()).collect();
                    assert_eq!(ids, vec!["n0", "n1", "n2", "n3"]);
                }
                other => panic!("node_ids: {other:?}"),
            }
        }
        _ => panic!("the first decision is not n0's init"),
    }
}

#[test]
fn a_crash_drops_what_was_in_flight_both_ways() {
    let crash = Fault::Crash { at: 5, node: "n1".to_string() };
    let (o, lines, killed) = drive(scenario(4, false, 0, vec![crash], vec![]), &chatter(4));
    assert!(o.ok);
    assert_eq!(killed, vec![1]);
    let kinds: Vec<String> = lines.iter().map(kind).collect();
    let crash_at = kinds.iter().position(|k| k == "fault-crash").unwrap();
    assert_eq!(lines[crash_at].u64_field("t"), Some(5));
    // n1's greetings were sent before it crashed and land after: they die with it.
    assert_eq!(kinds.iter().filter(|k| *k == "drop-from-crashed").count(), 3);
    // The others' greetings to n1 find it dead.
    assert_eq!(kinds.iter().filter(|k| *k == "drop-to-crashed").count(), 3);
    // Everything else arrives: six greetings among the three survivors.
    assert_eq!(deliveries(&lines).len(), 6);
}

#[test]
fn a_pause_holds_a_message_until_the_process_wakes() {
    let pause = Fault::Pause { at: 1, node: "n1".to_string(), duration: 50 };
    let (_, lines, _) = drive(scenario(2, false, 0, vec![pause], vec![]), &chatter(2));
    let recv: Vec<(String, Option<u64>)> = lines
        .iter()
        .filter(|l| kind(l) == "recv")
        .map(|l| (l.str_field("dest"), l.u64_field("t")))
        .collect();
    assert!(recv.contains(&("n1".to_string(), Some(51))), "{recv:?}");
    assert!(recv.contains(&("n0".to_string(), Some(10))), "{recv:?}");
    let note = lines.iter().find(|l| kind(l) == "fault-pause").unwrap();
    assert_eq!(note.get("detail").unwrap().u64_field("until"), Some(51));
}

#[test]
fn a_partition_holds_what_crosses_it_until_it_heals() {
    let split = Fault::Partition { at: 1, duration: 100, side: vec!["n0".to_string()] };
    let (_, lines, _) = drive(scenario(2, false, 0, vec![split], vec![]), &chatter(2));
    let recv: Vec<Option<u64>> = lines.iter().filter(|l| kind(l) == "recv").map(|l| l.u64_field("t")).collect();
    assert_eq!(recv, vec![Some(101), Some(101)]);
}

#[test]
fn a_stimulus_is_handed_to_its_process_at_its_instant() {
    let st = Stimulus { at: 30, node: "n2".to_string(), body: obj(vec![("type", Json::str("poke"))]) };
    let (_, lines, _) = drive(scenario(4, false, 0, vec![], vec![st]), &chatter(4));
    let s = lines.iter().find(|l| kind(l) == "stimulus").unwrap();
    assert_eq!((s.u64_field("t"), s.str_field("src"), s.str_field("dest")), (Some(30), "harness".to_string(), "n2".to_string()));
    assert_eq!(body_type(s), "poke");
}

#[test]
fn a_timer_past_the_time_limit_ends_the_run() {
    let sleepy = |i: usize, ev: &Envelope| -> Vec<Envelope> {
        let mut out = vec![];
        if ev.kind() == "init" && i == 0 {
            out.push(send(0, "harness", obj(vec![
                ("type", Json::str("set_timer")),
                ("after", Json::Uint(5000)),
                ("timer_id", Json::Uint(7)),
            ])));
        }
        out.push(done(i));
        out
    };
    let (o, lines, _) = drive(scenario(4, false, 0, vec![], vec![]), &sleepy);
    assert!(o.ok);
    assert_eq!(o.reason, "time-limit");
    let n = lines.len();
    assert_eq!(kind(&lines[n - 2]), "time-limit");
    assert_eq!(lines[n - 2].get("detail").unwrap().u64_field("limit"), Some(1000));
    assert_eq!(kind(&lines[n - 1]), "end");
}

#[test]
fn a_timer_fires_with_its_id() {
    let ticking = |i: usize, ev: &Envelope| -> Vec<Envelope> {
        let mut out = vec![];
        if ev.kind() == "init" && i == 0 {
            out.push(send(0, "harness", obj(vec![
                ("type", Json::str("set_timer")),
                ("after", Json::Uint(25)),
                ("timer_id", Json::Uint(7)),
            ])));
        }
        out.push(done(i));
        out
    };
    let (_, lines, _) = drive(scenario(4, false, 0, vec![], vec![]), &ticking);
    let t = lines.iter().find(|l| kind(l) == "timer").unwrap();
    assert_eq!((t.u64_field("t"), t.str_field("dest")), (Some(25), "n0".to_string()));
    assert_eq!(t.get("body").unwrap().u64_field("timer_id"), Some(7));
}

#[test]
fn a_message_to_nobody_is_noted_not_sent() {
    let lost = |i: usize, ev: &Envelope| -> Vec<Envelope> {
        let mut out = vec![];
        if ev.kind() == "init" && i == 0 {
            out.push(send(0, "n9", obj(vec![("type", Json::str("x"))])));
        }
        out.push(done(i));
        out
    };
    let (_, lines, _) = drive(scenario(4, false, 0, vec![], vec![]), &lost);
    assert!(!lines.iter().any(|l| kind(l) == "send"));
    let note = lines.iter().find(|l| kind(l) == "unknown-destination").unwrap();
    assert_eq!(note.get("detail").unwrap().str_field("dest"), "n9");
}

#[test]
fn a_node_that_exits_on_its_own_fails_the_run() {
    let mut sim = Sim::new(scenario(4, false, 0, vec![], vec![]), "runs/test".to_string());
    let msg = match sim.next() {
        Action::Step { node, .. } => sim.failed(node, NodeError::Eof("n0".to_string())),
        _ => panic!("expected a step"),
    };
    assert_eq!(msg, "node n0 exited on its own at t=0 \u{2014} the harness did not crash it (check runs/test/n0.stderr)");
    let why = "node n0 exited on its own at t=0 \u{2014} the harness did not crash it";
    match sim.next() {
        Action::Done(o) => {
            assert!(!o.ok);
            assert_eq!(o.reason, why);
        }
        _ => panic!("the run did not end"),
    }
    let lines = sim.into_journal();
    let n = lines.len();
    assert_eq!(kind(&lines[n - 2]), "node-died");
    assert_eq!(lines[n - 2].get("detail").unwrap().str_field("node"), "n0");
    // `end` is always last, and says why, without saying where the run was written.
    assert_eq!(kind(&lines[n - 1]), "end");
    assert_eq!(lines[n - 1].get("detail").unwrap().str_field("reason"), why);
    assert!(!format!("{lines:?}").contains("runs/test"));
}

#[test]
fn a_node_that_hangs_ends_the_run_with_why() {
    let mut sim = Sim::new(scenario(4, false, 0, vec![], vec![]), "runs/test".to_string());
    let msg = match sim.next() {
        Action::Step { node, .. } => sim.failed(node, NodeError::Hung("n0".to_string())),
        _ => panic!("expected a step"),
    };
    assert_eq!(msg, "node n0 produced no output within the watchdog interval (missing `done`, or an infinite loop in a handler)");
    let lines = sim.into_journal();
    let end = lines.last().unwrap();
    assert_eq!(kind(end), "end");
    assert_eq!(end.get("detail").unwrap().str_field("reason"), msg);
}


#[test]
fn the_sends_of_a_step_leave_one_after_another() {
    let mut sc = scenario(4, false, 0, vec![], vec![]);
    sc.emit_gap = 9;
    let stagger: Vec<u64> = (0..3).map(|rank| sc.emit_at(0, 1, rank)).collect();
    assert_eq!(stagger[0], 0, "the first send leaves at once");
    // Only n0 sends, on its first step: one greeting to each of the three others, in order.
    let greet = |i: usize, ev: &Envelope| -> Vec<Envelope> {
        let mut out = vec![];
        if ev.kind() == "init" && i == 0 {
            for j in 1..4 {
                out.push(send(0, &name(j), obj(vec![("type", Json::str("ping")), ("mid", Json::Uint(j as u64))])));
            }
        }
        out.push(done(i));
        out
    };
    let (_, lines, _) = drive(sc, &greet);
    // Every send is journalled at the step's instant...
    let sends: Vec<Option<u64>> = lines.iter().filter(|l| kind(l) == "send").map(|l| l.u64_field("t")).collect();
    assert_eq!(sends, vec![Some(0), Some(0), Some(0)]);
    // ...and lands its link's delay after it left.
    for j in 1..4 {
        let recv = lines.iter().find(|l| kind(l) == "recv" && l.str_field("dest") == name(j)).unwrap();
        assert_eq!(recv.u64_field("t"), Some(stagger[j - 1] + 10), "n{j}");
    }
}

#[test]
fn a_later_step_of_the_same_process_is_staggered_afresh() {
    let mut sc = scenario(2, false, 0, vec![], vec![]);
    sc.emit_gap = 50;
    let second_step: Vec<u64> = (0..2).map(|rank| sc.emit_at(0, 2, rank)).collect();
    // n0 sends two messages on its second step (its answer to n1's greeting), none on its first.
    let talk = |i: usize, ev: &Envelope| -> Vec<Envelope> {
        let mut out = vec![];
        match (i, ev.kind().as_str()) {
            (1, "init") => out.push(send(1, "n0", obj(vec![("type", Json::str("hi"))]))),
            (0, "hi") => {
                for k in 0..2u64 {
                    out.push(send(0, "n1", obj(vec![("type", Json::str("m")), ("mid", Json::Uint(k))])));
                }
            }
            _ => {}
        }
        out.push(done(i));
        out
    };
    let (_, lines, _) = drive(sc, &talk);
    let recv: Vec<Option<u64>> = lines
        .iter()
        .filter(|l| kind(l) == "recv" && l.str_field("dest") == "n1")
        .map(|l| l.u64_field("t"))
        .collect();
    // n1's greeting lands at 10; n0's answers leave from there.
    let mut want = vec![Some(10 + second_step[0] + 10), Some(10 + second_step[1] + 10)];
    want.sort();
    let mut got = recv.clone();
    got.sort();
    assert_eq!(got, want);
}
