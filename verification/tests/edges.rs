use cuelight::draw::{draw_plan, space_drawable, PlannedFault};
use cuelight::json::Json;
use cuelight::render::render;
use cuelight::rng::Rng;
use cuelight::scenario::{range_bool_error, range_bound_error, range_u64_error, Bound, Effect, Event, Frac, FracSpan, Scenario, Space, Span, Subject};
use cuelight::suite::{list_lines, replay_case, Parametric, ReplayCase, Written};

fn top_space() -> Space {
    let mut sp = Space::default();
    sp.f = Span::Pinned(1);
    sp.emit_gap = Span::Range(u64::MAX, u64::MAX);
    sp.events = vec![Event {
        nodes: Some(Subject::All),
        count: None,
        at_frac: Some(FracSpan::Fixed(Frac { bits: 0.1f64.to_bits() })),
        delay: None,
        effect: Effect::Pause { duration: Span::Range(u64::MAX, u64::MAX) },
        children: vec![],
    }];
    sp
}

#[test]
fn a_width_zero_range_at_the_top_is_its_value_and_draws_nothing() {
    let mut r = Rng::new(5);
    assert_eq!(Span::Range(u64::MAX, u64::MAX).draw(&mut r), u64::MAX);
    assert_eq!(Span::Pinned(u64::MAX).draw(&mut r), u64::MAX);
    assert_eq!(r.next_u64(), Rng::new(5).next_u64());
}

#[test]
fn spans_that_sit_at_the_top_can_be_drawn() {
    let sp = top_space();
    assert!(space_drawable(&sp));
    let plan = draw_plan(3, &sp);
    assert_eq!(plan.emit_gap, u64::MAX);
    assert_eq!(plan.faults.len(), 4);
    for f in &plan.faults {
        match f {
            PlannedFault::Pause { duration, .. } => assert_eq!(*duration, u64::MAX),
            other => panic!("not a pause: {other:?}"),
        }
    }
}

#[test]
fn a_range_wider_than_a_point_that_ends_at_the_top_is_refused() {
    let mut sp = top_space();
    sp.emit_gap = Span::Range(5, u64::MAX);
    assert!(!space_drawable(&sp));
}

#[test]
fn a_rand_with_both_ends_at_the_top_gives_the_top() {
    let t = Json::Object(vec![("$rand".to_string(), Json::Array(vec![Json::Uint(u64::MAX), Json::Uint(u64::MAX)]))]);
    let mut r = Rng::new(9);
    let out = render(&t, 0, &mut r);
    assert_eq!(out.as_u64(), Some(u64::MAX));
    assert_eq!(r.next_u64(), Rng::new(9).next_u64());
}

#[test]
fn the_first_send_leaves_at_once_whatever_the_gap() {
    let mut sc = Scenario::default();
    sc.nodes = 2;
    sc.emit_gap = u64::MAX;
    assert_eq!(sc.emit_at(0, 1, 0), 0);
    assert_eq!(sc.emit_at(1, 7, 0), 0);
}

#[test]
fn a_link_that_fits_is_delayed_though_another_could_not_be() {
    let mut sc = Scenario::default();
    sc.nodes = 3;
    sc.gst = 100;
    sc.jitter_pct = 0;
    sc.delay_pre = vec![vec![0, 40, u64::MAX], vec![40, 0, 7], vec![u64::MAX, 9, 0]];
    sc.delay_post = vec![vec![0, 4, 6], vec![4, 0, 5], vec![6, 8, 0]];
    assert_eq!(sc.delay(0, 1, 3, 10), 40);
    assert_eq!(sc.delay(0, 2, 3, 10), u64::MAX);
    assert_eq!(sc.delay(2, 1, 3, 10), 9);
}

#[test]
fn keys_reordered_deep_in_a_body_render_and_draw_alike() {
    let rand = |lo: u64, hi: u64| Json::Object(vec![("$rand".to_string(), Json::Array(vec![Json::Uint(lo), Json::Uint(hi)]))]);
    let one = Json::Object(vec![
        ("outer".to_string(), Json::Object(vec![("a".to_string(), rand(0, 999)), ("b".to_string(), rand(5, 50))])),
        ("id".to_string(), Json::Str("m<i>".to_string())),
    ]);
    let other = Json::Object(vec![
        ("id".to_string(), Json::Str("m<i>".to_string())),
        ("outer".to_string(), Json::Object(vec![("b".to_string(), rand(5, 50)), ("a".to_string(), rand(0, 999))])),
    ]);
    let (mut r1, mut r2) = (Rng::new(11), Rng::new(11));
    let x = render(&one, 3, &mut r1);
    let y = render(&other, 3, &mut r2);
    assert_eq!(format!("{x:?}"), format!("{y:?}"));
    assert_eq!(r1.next_u64(), r2.next_u64());
    assert_eq!(x.str_field("id"), "m3");
}

#[test]
fn a_child_is_named_by_its_place_under_its_parent() {
    let child = Event {
        nodes: None,
        count: None,
        at_frac: Some(FracSpan::Fixed(Frac { bits: 0.2f64.to_bits() })),
        delay: None,
        effect: Effect::Crash,
        children: vec![],
    };
    let ok_child = Event { nodes: None, count: None, at_frac: None, delay: Some(Span::Pinned(1)), effect: Effect::Crash, children: vec![] };
    let mut sp = top_space();
    sp.events[0].children = vec![ok_child, child];
    let err = sp.validate().expect_err("a placed child");
    assert!(err.starts_with("events[0][1]: `at_frac` places a root"), "{err}");
}

#[test]
fn a_backwards_range_is_refused_in_its_own_words() {
    assert_eq!(
        range_u64_error(5, 3).as_deref(),
        Some("range [5, 3] runs backwards; write it [low, high], inclusive")
    );
    assert_eq!(range_u64_error(3, 3), None);
    assert_eq!(range_u64_error(3, 5), None);
    assert_eq!(
        range_bool_error(true, false).as_deref(),
        Some("range [true, false] runs backwards; write it [low, high], inclusive")
    );
    assert_eq!(range_bool_error(false, true), None);
    assert_eq!(range_bound_error(Bound::Fixed(0), Bound::F), None);
    assert_eq!(
        range_bound_error(Bound::F, Bound::Fixed(0)).as_deref(),
        Some("range [F, Fixed(0)] runs backwards; write it [low, high], inclusive")
    );
    assert_eq!(
        range_bound_error(Bound::Fixed(4), Bound::Fixed(2)).as_deref(),
        Some("range [Fixed(4), Fixed(2)] runs backwards; write it [low, high], inclusive")
    );
}

#[test]
fn the_replay_is_of_a_drawn_case_when_there_is_one() {
    let ps = [Parametric { space: "spaces/a.json", seeds: 10 }];
    let ws = [Written { path: "written/w.json", expect_fail: &[], why: "w" }];
    assert_eq!(replay_case(&ps, &ws), Some(ReplayCase::Drawn { index: 0, seed: 1 }));
    assert_eq!(replay_case(&[], &ws), Some(ReplayCase::Written { index: 0 }));
    assert_eq!(replay_case(&[], &[]), None);
}

#[test]
fn list_columns_are_as_wide_as_the_longest_name_in_bytes() {
    let ps = [Parametric { space: "spaces/\u{00fc}n\u{00ef}code.json", seeds: 3 }];
    let ws = [Written { path: "written/ab.json", expect_fail: &[], why: "short" }];
    let lines = list_lines(&ps, &ws);
    // Seven characters, nine bytes: padded to nine characters.
    assert_eq!(lines[1], "  \u{00fc}n\u{00ef}code   3 seeds from spaces/\u{00fc}n\u{00ef}code.json");
    assert_eq!(lines[3], "  ab        short");
}
