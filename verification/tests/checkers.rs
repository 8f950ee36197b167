use cuelight::checkers::{run, Kind};
use cuelight::json::Json;
use cuelight::scenario::{Fault, Scenario};

fn conv(v: &serde_json::Value) -> Json {
    match v {
        serde_json::Value::Null => Json::Null,
        serde_json::Value::Bool(b) => Json::Bool(*b),
        serde_json::Value::Number(n) => {
            if let Some(u) = n.as_u64() {
                Json::Uint(u)
            } else if let Some(i) = n.as_i64() {
                Json::Int(i)
            } else {
                Json::Float(n.as_f64().unwrap().to_bits())
            }
        }
        serde_json::Value::String(s) => Json::Str(s.clone()),
        serde_json::Value::Array(a) => Json::Array(a.iter().map(conv).collect()),
        serde_json::Value::Object(m) => Json::Object(m.iter().map(|(k, v)| (k.clone(), conv(v))).collect()),
    }
}

fn journal(lines: &[&str]) -> Vec<Json> {
    lines.iter().map(|l| conv(&serde_json::from_str(l).unwrap())).collect()
}

fn checks(lab: &str, lines: &[&str], sc: &Scenario) -> Vec<(String, Kind, bool, String)> {
    let r = run(lab, &journal(lines), sc).unwrap();
    r.checks.iter().map(|c| (c.name.to_string(), c.kind, c.ok, c.detail.clone())).collect()
}

#[test]
fn an_unknown_lab_is_refused() {
    let e = run("lab9", &vec![], &Scenario::default()).err().unwrap();
    assert_eq!(e, "unknown lab lab9 (lab1|lab2|lab3|lab4)");
}

#[test]
fn two_critical_sections_that_overlap_are_named() {
    let c = checks("lab1", &[
        r#"{"t":10,"kind":"observe","src":"n0","body":{"type":"enter_cs"}}"#,
        r#"{"t":20,"kind":"observe","src":"n1","body":{"type":"enter_cs"}}"#,
        r#"{"t":30,"kind":"observe","src":"n0","body":{"type":"exit_cs"}}"#,
        r#"{"t":40,"kind":"observe","src":"n1","body":{"type":"exit_cs"}}"#,
    ], &Scenario::default());
    assert_eq!(c.len(), 2);
    assert_eq!(c[0], ("rb-agreement".into(), Kind::Safety, true, "no deliveries in this run".into()));
    assert_eq!(c[1], ("mutual-exclusion".into(), Kind::Safety, false, "n0 held [10,30) while n1 entered at 20".into()));
}

#[test]
fn a_section_still_open_is_held_until_the_crash_or_the_end() {
    let c = checks("lab1", &[
        r#"{"t":10,"kind":"observe","src":"n0","body":{"type":"enter_cs"}}"#,
        r#"{"t":12,"kind":"fault-crash","detail":{"node":"n0"}}"#,
        r#"{"t":15,"kind":"observe","src":"n1","body":{"type":"enter_cs"}}"#,
        r#"{"t":50,"kind":"end","detail":{"reason":"quiescent"}}"#,
    ], &Scenario::default());
    assert_eq!(c.last().unwrap().3, "2 critical sections, none overlapping");
}

#[test]
fn broadcast_agreement_validity_and_progress() {
    let sc = Scenario::default();
    let c = checks("lab1", &[
        r#"{"t":1,"kind":"stimulus","dest":"n0","body":{"type":"do_broadcast","mid":"m1"}}"#,
        r#"{"t":1,"kind":"stimulus","dest":"n2","body":{"type":"request_cs"}}"#,
        r#"{"t":5,"kind":"observe","src":"n0","body":{"type":"deliver","mid":"m1"}}"#,
        r#"{"t":6,"kind":"observe","src":"n1","body":{"type":"deliver","mid":"m1"}}"#,
        r#"{"t":6,"kind":"observe","src":"n1","body":{"type":"deliver","mid":"m9"}}"#,
    ], &sc);
    assert_eq!(c[0], ("rb-agreement".into(), Kind::Safety, false, "correct nodes delivered different sets".into()));
    assert_eq!(c[1], ("rb-validity".into(), Kind::Safety, false, "delivered 1 message(s) nobody broadcast".into()));
    assert_eq!(c[2], ("mutex-progress".into(), Kind::Liveness, false, "[\"n2\"] asked for the lock and never got it".into()));
    assert_eq!(c[3].0, "mutual-exclusion");
}

#[test]
fn every_correct_node_delivering_the_same_is_agreement() {
    let mut sc = Scenario::default();
    sc.nodes = 2;
    let c = checks("lab1", &[
        r#"{"t":5,"kind":"observe","src":"n0","body":{"type":"deliver","mid":"m1"}}"#,
        r#"{"t":6,"kind":"observe","src":"n1","body":{"type":"deliver","mid":"m1"}}"#,
    ], &sc);
    assert_eq!(c[0].3, "2 correct nodes each delivered 1");
    assert!(c[0].2);
}

#[test]
fn leaders_are_judged_after_the_effective_gst() {
    let mut sc = Scenario::default();
    sc.nodes = 3;
    sc.gst = 100;
    sc.faults = vec![Fault::Crash { at: 150, node: "n2".into() }];
    let c = checks("lab2", &[
        r#"{"t":10,"kind":"observe","src":"n0","body":{"type":"leader","id":"n2"}}"#,
        r#"{"t":20,"kind":"observe","src":"n0","body":{"type":"leader","id":"n1"}}"#,
        r#"{"t":30,"kind":"observe","src":"n1","body":{"type":"leader","id":"n1"}}"#,
        r#"{"t":150,"kind":"fault-crash","detail":{"node":"n2"}}"#,
    ], &sc);
    assert_eq!(c[0], ("omega-agreement".into(), Kind::Liveness, true,
        "final leaders {\"n0\": \"n1\", \"n1\": \"n1\"} (deadline dated from t=150)".into()));
    assert_eq!(c[1], ("omega-elects-correct".into(), Kind::Liveness, true, "leader n1 is alive".into()));
    let c = checks("lab2", &[], &sc);
    assert_eq!(c, vec![("omega-agreement".into(), Kind::Liveness, false, "nobody reported a leader".into())]);
}

#[test]
fn views_go_forward_and_one_is_heard_by_everyone() {
    let mut sc = Scenario::default();
    sc.nodes = 2;
    sc.gst = 0;
    let c = checks("lab3", &[
        r#"{"t":1,"kind":"observe","src":"n0","body":{"type":"view","v":2,"heard":2}}"#,
        r#"{"t":2,"kind":"observe","src":"n1","body":{"type":"view","v":2,"heard":2}}"#,
        r#"{"t":3,"kind":"observe","src":"n1","body":{"type":"view","v":1,"heard":1}}"#,
    ], &sc);
    assert_eq!(c[0], ("view-monotone".into(), Kind::Safety, false, "max view 2".into()));
    assert_eq!(c[1], ("view-co-presence".into(), Kind::Liveness, true, "1 good views after t=0 (first: 2)".into()));
}

#[test]
fn consensus_states_agreement_validity_and_termination() {
    let mut sc = Scenario::default();
    sc.nodes = 3;
    let c = checks("lab4", &[
        r#"{"t":1,"kind":"stimulus","dest":"n0","body":{"type":"propose","value":1}}"#,
        r#"{"t":1,"kind":"stimulus","dest":"n1","body":{"type":"propose","value":-2}}"#,
        r#"{"t":5,"kind":"observe","src":"n0","body":{"type":"decide","value":1}}"#,
        r#"{"t":6,"kind":"observe","src":"n1","body":{"type":"decide","value":7}}"#,
        r#"{"t":7,"kind":"observe","src":"n1","body":{"type":"decide","value":1}}"#,
    ], &sc);
    assert_eq!(c[0], ("otr-agreement".into(), Kind::Safety, false, "CONFLICTING decisions {\"n0\": 1, \"n1\": 7}".into()));
    assert_eq!(c[1], ("otr-validity".into(), Kind::Safety, false, "decided a value nobody proposed: [(\"n1\", 7)]".into()));
    assert_eq!(c[2], ("otr-termination".into(), Kind::Liveness, false, "2/3 correct nodes decided".into()));
    let c = checks("lab4", &[
        r#"{"t":1,"kind":"stimulus","dest":"n0","body":{"type":"propose","value":-2}}"#,
        r#"{"t":5,"kind":"observe","src":"n0","body":{"type":"decide","value":-2}}"#,
    ], &sc);
    assert_eq!(c[0].3, "1 nodes decided, all on {-2}");
    assert_eq!(c[1].3, "decisions lie in the proposals {-2}");
}

#[test]
fn a_report_with_only_liveness_failures_is_safe() {
    let mut sc = Scenario::default();
    sc.nodes = 3;
    let r = run("lab4", &journal(&[]), &sc).unwrap();
    assert!(!r.ok());
    assert!(r.safety_ok());
}

#[test]
fn sections_one_after_another_never_clash_and_touching_ones_do_not_overlap() {
    let c = checks("lab1", &[
        r#"{"t":10,"kind":"observe","src":"n0","body":{"type":"enter_cs"}}"#,
        r#"{"t":60,"kind":"observe","src":"n0","body":{"type":"exit_cs"}}"#,
        r#"{"t":70,"kind":"observe","src":"n1","body":{"type":"enter_cs"}}"#,
        r#"{"t":80,"kind":"observe","src":"n1","body":{"type":"exit_cs"}}"#,
        r#"{"t":90,"kind":"observe","src":"n2","body":{"type":"enter_cs"}}"#,
        r#"{"t":95,"kind":"observe","src":"n2","body":{"type":"exit_cs"}}"#,
    ], &Scenario::default());
    assert_eq!(c.last().unwrap(), &("mutual-exclusion".into(), Kind::Safety, true, "3 critical sections, none overlapping".into()));
    let c = checks("lab1", &[
        r#"{"t":10,"kind":"observe","src":"n0","body":{"type":"enter_cs"}}"#,
        r#"{"t":15,"kind":"observe","src":"n0","body":{"type":"exit_cs"}}"#,
        r#"{"t":15,"kind":"observe","src":"n1","body":{"type":"enter_cs"}}"#,
        r#"{"t":16,"kind":"observe","src":"n1","body":{"type":"exit_cs"}}"#,
    ], &Scenario::default());
    assert!(c.last().unwrap().2, "touching sections do not overlap");
}
