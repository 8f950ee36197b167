use cuelight::rng::Rng;

#[test]
fn stream_is_pinned() {
    let mut r = Rng::new(1);
    let got: Vec<u64> = (0..5).map(|_| r.next_u64()).collect();
    assert_eq!(
        got,
        vec![
            10451216379200822465,
            13757245211066428519,
            17911839290282890590,
            8196980753821780235,
            8195237237126968761,
        ]
    );
}

#[test]
fn same_seed_same_stream() {
    let (mut a, mut b) = (Rng::new(42), Rng::new(42));
    for _ in 0..100 {
        assert_eq!(a.next_u64(), b.next_u64());
    }
}

#[test]
fn range_stays_inside_bounds() {
    let mut r = Rng::new(7);
    for _ in 0..1000 {
        let v = r.range(10, 20);
        assert!((10..20).contains(&v), "{v} outside 10..20");
    }
}

#[test]
fn a_range_is_the_next_output_reduced_to_its_width() {
    let mut a = Rng::new(1);
    let mut b = Rng::new(1);
    assert_eq!(a.range(10, 20), 10 + b.next_u64() % 10);
    assert_eq!(a.range(0, 1), 0);
}
