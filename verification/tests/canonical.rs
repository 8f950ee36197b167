use cuelight::json::Json;

fn s(x: &str) -> Json {
    Json::Str(x.to_string())
}

fn obj(es: Vec<(&str, Json)>) -> Json {
    Json::Object(es.into_iter().map(|(k, v)| (k.to_string(), v)).collect())
}

/// Written in the order the value holds its entries, so the test sees the order canonical made.
fn text(v: &Json) -> String {
    match v {
        Json::Null => "null".into(),
        Json::Bool(b) => b.to_string(),
        Json::Uint(u) => u.to_string(),
        Json::Int(i) => i.to_string(),
        Json::Float(bits) => serde_json::Number::from_f64(f64::from_bits(*bits)).unwrap().to_string(),
        Json::Str(x) => serde_json::to_string(x).unwrap(),
        Json::Array(a) => format!("[{}]", a.iter().map(text).collect::<Vec<_>>().join(",")),
        Json::Object(es) => format!(
            "{{{}}}",
            es.iter().map(|(k, v)| format!("{}:{}", serde_json::to_string(k).unwrap(), text(v))).collect::<Vec<_>>().join(",")
        ),
    }
}

fn c(v: Json) -> String {
    text(&v.canonical())
}

#[test]
fn keys_come_out_sorted_whatever_order_they_went_in() {
    let a = c(obj(vec![("type", s("ping")), ("n", Json::Uint(1)), ("from", s("n0"))]));
    let b = c(obj(vec![("from", s("n0")), ("n", Json::Uint(1)), ("type", s("ping"))]));
    assert_eq!(a, b);
    assert_eq!(a, r#"{"from":"n0","n":1,"type":"ping"}"#);
}

#[test]
fn nested_objects_are_sorted_too() {
    assert_eq!(
        c(obj(vec![("b", obj(vec![("z", Json::Uint(1)), ("a", Json::Uint(2))])), ("a", Json::Uint(3))])),
        r#"{"a":3,"b":{"a":2,"z":1}}"#
    );
}

#[test]
fn objects_inside_arrays_are_sorted_too() {
    assert_eq!(
        c(obj(vec![("xs", Json::Array(vec![obj(vec![("b", Json::Uint(1)), ("a", Json::Uint(2))])]))])),
        r#"{"xs":[{"a":2,"b":1}]}"#
    );
}

#[test]
fn array_order_is_meaningful_and_left_alone() {
    assert_eq!(
        c(obj(vec![("xs", Json::Array(vec![Json::Uint(3), Json::Uint(1), Json::Uint(2)]))])),
        r#"{"xs":[3,1,2]}"#
    );
}

#[test]
fn everything_that_is_not_a_container_passes_through() {
    assert_eq!(
        c(obj(vec![("a", Json::Null), ("b", Json::Bool(true)), ("c", Json::Float(1.5f64.to_bits())), ("d", s("s"))])),
        r#"{"a":null,"b":true,"c":1.5,"d":"s"}"#
    );
}

#[test]
fn canonical_twice_is_canonical_once() {
    let v = obj(vec![("z", obj(vec![("y", Json::Int(-1)), ("x", Json::Array(vec![obj(vec![("q", Json::Null), ("p", s("u"))])]))])), ("a", Json::Bool(false))]);
    let once = v.canonical();
    assert_eq!(text(&once.canonical()), text(&once));
    assert_eq!(text(&once), r#"{"a":false,"z":{"x":[{"p":"u","q":null}],"y":-1}}"#);
}

#[test]
fn reading_a_field_finds_it_wherever_it_stands() {
    let v = obj(vec![("type", s("timer")), ("timer_id", Json::Uint(9))]);
    assert_eq!(v.u64_field("timer_id"), Some(9));
    assert_eq!(v.str_field("type"), "timer");
    assert_eq!(v.str_field("nope"), "");
    assert_eq!(Json::Int(-3).as_i64(), Some(-3));
    assert_eq!(Json::Uint(u64::MAX).as_i64(), None);
}

fn from_value(v: &serde_json::Value) -> Json {
    match v {
        serde_json::Value::Null => Json::Null,
        serde_json::Value::Bool(b) => Json::Bool(*b),
        serde_json::Value::Number(n) => match (n.as_u64(), n.as_i64()) {
            (Some(u), _) => Json::Uint(u),
            (None, Some(i)) => Json::Int(i),
            _ => Json::Float(n.as_f64().unwrap().to_bits()),
        },
        serde_json::Value::String(x) => Json::Str(x.clone()),
        serde_json::Value::Array(a) => Json::Array(a.iter().map(from_value).collect()),
        serde_json::Value::Object(m) => Json::Object(m.iter().map(|(k, v)| (k.clone(), from_value(v))).collect()),
    }
}

/// A space's fingerprint, over its canonical text when it reads as JSON.
fn fingerprint(space: &str) -> String {
    let t = match serde_json::from_str::<serde_json::Value>(space) {
        Ok(v) => text(&from_value(&v).canonical()),
        Err(_) => space.to_string(),
    };
    cuelight::scenario::fingerprint_of(t.as_bytes())
}

#[test]
fn the_fingerprint_follows_meaning_not_formatting() {
    let a = r#"{"f": 1, "fifo": true}"#;
    let reformatted = "{\n  \"fifo\"  : true,\n  \"f\": 1\n}";
    let changed = r#"{"f": 2, "fifo": true}"#;
    assert_eq!(fingerprint(a), fingerprint(reformatted));
    assert_ne!(fingerprint(a), fingerprint(changed));
}

#[test]
fn a_fingerprint_is_sixteen_hex_digits() {
    let f = fingerprint(r#"{"f": 1}"#);
    assert_eq!(f.len(), 16);
    assert!(f.chars().all(|c| c.is_ascii_hexdigit() && !c.is_ascii_uppercase()));
    // Text that is not JSON is fingerprinted as it stands.
    assert_ne!(fingerprint("not json"), fingerprint("not  json"));
}

#[test]
fn a_fingerprint_hashes_the_draw_version_then_the_text() {
    let mut h: u64 = 0xCBF2_9CE4_8422_2325;
    for b in 3u32.to_le_bytes().iter().chain(br#"{"f":1}"#.iter()) {
        h ^= *b as u64;
        h = h.wrapping_mul(0x1000_0000_01B3);
    }
    assert_eq!(cuelight::scenario::fingerprint_of(br#"{"f":1}"#), format!("{h:016x}"));
    assert_eq!(fingerprint(r#"{ "f" : 1 }"#), format!("{h:016x}"));
}

#[test]
fn keys_reordered_at_any_depth_give_one_canonical_form() {
    let one = obj(vec![
        ("b", Json::Array(vec![obj(vec![("y", Json::Uint(2)), ("x", Json::Uint(1))])])),
        ("a", obj(vec![("q", s("w")), ("p", Json::Null)])),
    ]);
    let other = obj(vec![
        ("a", obj(vec![("p", Json::Null), ("q", s("w"))])),
        ("b", Json::Array(vec![obj(vec![("x", Json::Uint(1)), ("y", Json::Uint(2))])])),
    ]);
    assert_eq!(c(one), c(other));
}
