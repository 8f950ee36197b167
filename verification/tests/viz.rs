use cuelight::json::Json;
use cuelight::viz::{diagram, ASKED, BEFELL, REPORTED};

fn conv(v: &serde_json::Value) -> Json {
    match v {
        serde_json::Value::Null => Json::Null,
        serde_json::Value::Bool(b) => Json::Bool(*b),
        serde_json::Value::Number(n) => {
            if let Some(u) = n.as_u64() {
                Json::Uint(u)
            } else if let Some(i) = n.as_i64() {
                Json::Int(i)
            } else {
                Json::Float(n.as_f64().unwrap().to_bits())
            }
        }
        serde_json::Value::String(s) => Json::Str(s.clone()),
        serde_json::Value::Array(a) => Json::Array(a.iter().map(conv).collect()),
        serde_json::Value::Object(m) => Json::Object(m.iter().map(|(k, v)| (k.clone(), conv(v))).collect()),
    }
}

/// The diagram of a journal given as lines, skipping any that is not JSON, as the file reader does.
fn draw(lines: &[&str]) -> String {
    let entries: Vec<Json> = lines
        .iter()
        .filter_map(|l| serde_json::from_str::<serde_json::Value>(l).ok())
        .map(|v| conv(&v))
        .collect();
    diagram(&entries, 100).0
}

#[test]
fn a_stimulus_is_a_note_on_the_node_it_was_asked_of() {
    let d = draw(&[r#"{"t":10,"kind":"stimulus","src":"harness","dest":"n0","body":{"type":"shout"}}"#]);
    assert!(!d.contains("participant harness"), "the harness is not a process: {d}");
    assert!(d.contains(&format!("{ASKED}\n        Note over n0: asked shout @10")), "{d}");
}

#[test]
fn every_process_gets_a_lifeline_even_a_silent_one() {
    let d = draw(&[
        r#"{"t":0,"kind":"init","src":"harness","dest":"n0","body":{"type":"init"}}"#,
        r#"{"t":0,"kind":"init","src":"harness","dest":"n1","body":{"type":"init"}}"#,
        r#"{"t":0,"kind":"init","src":"harness","dest":"n2","body":{"type":"init"}}"#,
        r#"{"t":5,"kind":"recv","src":"n0","dest":"n1","body":{"type":"x"}}"#,
    ]);
    for n in ["n0", "n1", "n2"] {
        assert!(d.contains(&format!("participant {n}")), "{n} missing: {d}");
    }
}

#[test]
fn a_message_carries_when_it_left_and_when_it_landed() {
    let d = draw(&[
        r#"{"t":10,"kind":"send","src":"n0","dest":"n1","body":{"type":"rb"}}"#,
        r#"{"t":80,"kind":"recv","src":"n0","dest":"n1","body":{"type":"rb"}}"#,
    ]);
    assert!(d.contains("n0->>n1: rb 10 to 80"), "{d}");
}

#[test]
fn a_send_that_never_left_is_a_crossed_arrow_that_says_why() {
    let d = draw(&[r#"{"t":20,"kind":"never-sent","detail":{"src":"n0","dest":"n1"}}"#]);
    assert!(d.contains("n0-xn1: never left, n0 had died @20"), "{d}");
}

#[test]
fn a_partition_tells_every_node_which_side_it_is_on() {
    let d = draw(&[
        r#"{"t":1,"kind":"recv","src":"n0","dest":"n1","body":{"type":"x"}}"#,
        r#"{"t":2,"kind":"recv","src":"n2","dest":"n3","body":{"type":"x"}}"#,
        r#"{"t":40,"kind":"fault-partition","detail":{"side":["n0","n1"],"until":90}}"#,
    ]);
    for n in ["n0", "n1"] {
        assert!(d.contains(&format!("Note over {n}: SPLIT A")), "{n} missing in {d}");
    }
    for n in ["n2", "n3"] {
        assert!(d.contains(&format!("Note over {n}: SPLIT B")), "{n} missing in {d}");
    }
    assert!(d.contains("until @90"), "{d}");
}

#[test]
fn the_harness_is_on_no_side_of_a_split() {
    let d = draw(&[
        r#"{"t":1,"kind":"stimulus","src":"harness","dest":"n0","body":{"type":"go"}}"#,
        r#"{"t":40,"kind":"fault-partition","detail":{"side":["n0"],"until":90}}"#,
    ]);
    assert!(!d.contains("harness"), "the harness is not a process: {d}");
}

#[test]
fn a_pause_says_what_stops_and_until_when() {
    let d = draw(&[r#"{"t":5,"kind":"fault-pause","detail":{"node":"n1","until":300}}"#]);
    assert!(d.contains("Note over n1: frozen, handles nothing until @300"), "{d}");
}

#[test]
fn every_note_carries_the_colour_of_what_it_is() {
    let d = draw(&[
        r#"{"t":1,"kind":"stimulus","src":"harness","dest":"n0","body":{"type":"go"}}"#,
        r#"{"t":2,"kind":"observe","src":"n0","body":{"type":"deliver"}}"#,
        r#"{"t":3,"kind":"fault-crash","detail":{"node":"n0"}}"#,
    ]);
    assert!(d.contains(&format!("{ASKED}\n        Note over n0: asked go @1")), "{d}");
    assert!(d.contains(&format!("{REPORTED}\n        Note over n0: deliver @2")), "{d}");
    assert!(d.contains(&format!("{BEFELL}\n        Note over n0: CRASH @3")), "{d}");
    assert!(d.contains(r#""noteBkgColor": "transparent""#), "{d}");
}

#[test]
fn participants_are_listed_in_name_order() {
    let d = draw(&[
        r#"{"t":1,"kind":"recv","src":"n9","dest":"n2","body":{"type":"x"}}"#,
        r#"{"t":2,"kind":"stimulus","src":"harness","dest":"n9","body":{"type":"go"}}"#,
    ]);
    let order: Vec<&str> = d.lines().filter_map(|l| l.trim().strip_prefix("participant ")).collect();
    assert_eq!(order, vec!["n2", "n9"], "{d}");
}

#[test]
fn a_colon_in_a_label_does_not_truncate_it() {
    let d = draw(&[r#"{"t":1,"kind":"observe","src":"n0","body":{"type":"a:b"}}"#]);
    assert!(d.contains("Note over n0: a b @1"), "{d}");
}

#[test]
fn the_limit_caps_messages_and_reports_but_not_faults() {
    let entries: Vec<Json> = [
        r#"{"t":1,"kind":"recv","src":"n0","dest":"n1","body":{"type":"x"}}"#,
        r#"{"t":2,"kind":"observe","src":"n0","body":{"type":"y"}}"#,
        r#"{"t":3,"kind":"fault-crash","detail":{"node":"n1"}}"#,
    ]
    .iter()
    .map(|l| conv(&serde_json::from_str(l).unwrap()))
    .collect();
    let (d, shown) = diagram(&entries, 1);
    assert_eq!(shown, 1);
    assert!(!d.contains("y @2"), "{d}");
    assert!(d.contains("CRASH @3"), "{d}");
    assert!(d.starts_with("%%{init: {\"themeVariables\": {\"noteBkgColor\": \"transparent\", \"noteBorderColor\": \"transparent\", \"actorLineColor\": \"#d5d5d5\"}}}%%\nsequenceDiagram\n    participant n0\n    participant n1\n"), "{d}");
}

#[test]
fn messages_on_one_link_are_matched_oldest_first() {
    let d = draw(&[
        r#"{"t":1,"kind":"send","src":"n0","dest":"n1","body":{"type":"a"}}"#,
        r#"{"t":2,"kind":"send","src":"n0","dest":"n1","body":{"type":"b"}}"#,
        r#"{"t":9,"kind":"recv","src":"n0","dest":"n1","body":{"type":"a"}}"#,
        r#"{"t":9,"kind":"recv","src":"n0","dest":"n1","body":{"type":"b"}}"#,
        r#"{"t":9,"kind":"recv","src":"n0","dest":"n1","body":{"type":"c"}}"#,
    ]);
    assert!(d.contains("n0->>n1: a 1 to 9"), "{d}");
    assert!(d.contains("n0->>n1: b 2 to 9"), "{d}");
    assert!(d.contains("n0->>n1: c @9"), "{d}");
}
