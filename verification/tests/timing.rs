use cuelight::scenario::Scenario;

/// The hash the jitter and the stagger take, computed here independently.
fn hash3(a: u64, b: u64, c: u64) -> u64 {
    let mut h = a
        .wrapping_mul(0x9E37_79B9_7F4A_7C15)
        .wrapping_add(b.wrapping_mul(0xC2B2_AE3D_27D4_EB4F))
        .wrapping_add(c.wrapping_mul(0x1656_67B1_9E37_79F9));
    h ^= h >> 29;
    h = h.wrapping_mul(0xBF58_476D_1CE4_E5B9);
    h ^= h >> 32;
    h
}

fn scenario() -> Scenario {
    let mut sc = Scenario::default();
    sc.nodes = 3;
    sc.gst = 100;
    sc.jitter_pct = 50;
    sc.emit_gap = 7;
    sc.delay_pre = vec![vec![0, 40, 60], vec![40, 0, 0], vec![60, 80, 0]];
    sc.delay_post = vec![vec![0, 4, 6], vec![4, 0, 5], vec![6, 8, 0]];
    sc
}

#[test]
fn a_delay_is_its_link_base_plus_a_hashed_share_of_the_jitter() {
    let sc = scenario();
    // Before GST the pre-GST matrix, after it the post-GST one.
    assert_eq!(sc.delay(0, 1, 3, 10), 40 + hash3(0, 1, 3) % 20);
    assert_eq!(sc.delay(0, 1, 3, 100), 4 + hash3(0, 1, 3) % 2);
    // A zero off the diagonal is not a delay: the default stands in for it.
    assert_eq!(sc.delay(1, 2, 1, 10), 200 + hash3(1, 2, 1) % 100);
    // A link the matrix does not cover takes the default too.
    assert_eq!(sc.delay(2, 5, 1, 150), 10 + hash3(2, 5, 1) % 5);
}

#[test]
fn no_jitter_means_exactly_the_base() {
    let mut sc = scenario();
    sc.jitter_pct = 0;
    assert_eq!(sc.delay(2, 1, 9, 0), 80);
    assert_eq!(sc.delay(2, 1, 9, 500), 8);
}

#[test]
fn a_stagger_is_the_running_sum_of_hashed_gaps() {
    let sc = scenario();
    let want = |rank: u64| -> u64 { (1..=rank).map(|i| hash3(2, 9, i) % 8).sum() };
    for rank in 0..6 {
        assert_eq!(sc.emit_at(2, 9, rank), want(rank), "rank {rank}");
    }
}
