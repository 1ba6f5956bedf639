use enigma_firmware::debounce::Median;

#[test]
fn fresh_filter_reports_zero() {
    let mut m = Median::<5>::new();
    assert_eq!(m.insert(10), 0);
}

#[test]
fn reports_rank_one_of_five() {
    let mut m = Median::<5>::new();
    assert_eq!(m.insert(10), 0);
    assert_eq!(m.insert(20), 0);
    assert_eq!(m.insert(30), 0);
    // window 0, 10, 20, 30, 40: rank 1 is 10
    assert_eq!(m.insert(40), 10);
    // window 10, 20, 30, 40, 50
    assert_eq!(m.insert(50), 20);
    // window 20, 30, 40, 50, 5: ascending 5, 20, 30, 40, 50
    assert_eq!(m.insert(5), 20);
    // window 30, 40, 50, 5, 1: ascending 1, 5, 30, 40, 50
    assert_eq!(m.insert(1), 5);
}

#[test]
fn oldest_sample_leaves_first() {
    let mut m = Median::<5>::new();
    for v in [100, 1, 1, 1, 1] {
        m.insert(v);
    }
    // window 100, 1, 1, 1, 1: the 100 leaves first
    assert_eq!(m.insert(1), 1);
    // window 1, 1, 1, 1, 200
    assert_eq!(m.insert(200), 1);
    // window 1, 1, 1, 200, 300
    assert_eq!(m.insert(300), 1);
    // window 1, 1, 200, 300, 400
    assert_eq!(m.insert(400), 1);
    // window 1, 200, 300, 400, 500
    assert_eq!(m.insert(500), 200);
}

#[test]
fn single_slot_filter_passes_samples_through() {
    let mut m = Median::<1>::new();
    assert_eq!(m.insert(7), 7);
    assert_eq!(m.insert(3), 3);
    assert_eq!(m.insert(9), 9);
}

#[test]
fn four_slot_filter_reports_rank_one() {
    let mut m = Median::<4>::new();
    m.insert(8);
    m.insert(6);
    m.insert(4);
    // window 8, 6, 4, 2: ascending 2, 4, 6, 8
    assert_eq!(m.insert(2), 4);
}

#[test]
fn eight_slot_filter_reports_rank_two() {
    let mut m = Median::<8>::new();
    let mut last = 0;
    for v in [80, 70, 60, 50, 40, 30, 20, 10] {
        last = m.insert(v);
    }
    // ascending 10, 20, ..., 80: rank 2 is 30
    assert_eq!(last, 30);
}

#[test]
fn constant_input_is_reported_once_window_is_full() {
    let mut m = Median::<5>::new();
    let mut last = 0;
    for _ in 0..5 {
        last = m.insert(42);
    }
    assert_eq!(last, 42);
}

#[test]
fn history_is_forgotten_after_a_full_window() {
    let mut a = Median::<5>::new();
    let mut b = Median::<5>::new();
    for v in [9, 8, 7, 6, 5, 4] {
        a.insert(v);
    }
    for v in [1000, 2000] {
        b.insert(v);
    }
    let samples = [3, 14, 15, 92, 65];
    let mut ra = 0;
    let mut rb = 0;
    for v in samples {
        ra = a.insert(v);
        rb = b.insert(v);
    }
    assert_eq!(ra, rb);
    assert_eq!(ra, 14);
}

#[test]
fn order_of_arrival_does_not_matter() {
    let mut a = Median::<5>::new();
    let mut b = Median::<5>::new();
    let mut ra = 0;
    let mut rb = 0;
    for v in [5, 1, 4, 2, 3] {
        ra = a.insert(v);
    }
    for v in [3, 2, 1, 5, 4] {
        rb = b.insert(v);
    }
    assert_eq!(ra, 2);
    assert_eq!(rb, 2);
}

#[test]
fn copies_run_independently() {
    let mut a = Median::<3>::new();
    a.insert(5);
    let mut b = a;
    a.insert(1);
    b.insert(9);
    // rank 3 >> 2 = 0: the least sample. a: 5, 1, 1; b: 5, 9, 9
    assert_eq!(a.insert(1), 1);
    assert_eq!(b.insert(9), 5);
}

#[test]
fn float_samples_rank_by_their_bits() {
    let mut m = Median::<5>::new();
    let mut last = 0;
    for v in [0.5f32, 0.25, 1.0, 0.75, 0.125] {
        last = m.insert(v.to_bits());
    }
    // ascending 0.125, 0.25, 0.5, 0.75, 1.0: rank 1 is 0.25
    assert_eq!(f32::from_bits(last), 0.25);
}

#[test]
fn larger_sample_never_lowers_the_report() {
    let mut base = Median::<5>::new();
    for v in [40, 10, 30, 20] {
        base.insert(v);
    }
    let mut last = 0;
    for v in [0, 5, 15, 25, 35, 45, 1000] {
        let mut m = base;
        let r = m.insert(v);
        assert!(r >= last);
        last = r;
    }
    // window 40, 10, 30, 20, 1000: rank 1 of 10, 20, 30, 40, 1000
    assert_eq!(last, 20);
}
