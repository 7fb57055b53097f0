use pwline::PwLine;
use pwline::Rat;
use pwline::POINT_BOUND;

#[test]
fn test_const() {
    let x = PwLine::from_const(Rat::new(2, 1));
    // test interior
    for i in 0..21 {
        assert_eq!(x.get(i as i64), Rat::new(2, 1));
    }
}

#[test]
fn test_oob() {
    let mut x = PwLine::new();
    x.add_pt(-10, Rat::new(2, 1));
    x.add_pt(20, Rat::new(-2, 1));

    // Immediately OOB
    assert_eq!(x.get(-11), Rat::new(2, 1));
    assert_eq!(x.get(21), Rat::new(-2, 1));

    // Farther OOB
    assert_eq!(x.get(-999), Rat::new(2, 1));
    assert_eq!(x.get(999), Rat::new(-2, 1));
}

#[test]
fn test_empty() {
    let x = PwLine::new();
    // Empty functions default to Zero
    assert_eq!(x.get(11), Rat::zero());
}

#[test]
fn test_two_seg() {
    let mut x = PwLine::new();
    x.add_pt(0, Rat::new(2, 1));
    x.add_pt(20, Rat::new(4, 1));
    x.add_pt(40, Rat::new(3, 1));

    assert_eq!(x.get(0), Rat::new(2, 1));
    assert_eq!(x.get(5), Rat::new(5, 2));
    assert_eq!(x.get(10), Rat::new(3, 1));
    assert_eq!(x.get(15), Rat::new(7, 2));
    assert_eq!(x.get(20), Rat::new(4, 1));
    assert_eq!(x.get(25), Rat::new(15, 4));
    assert_eq!(x.get(30), Rat::new(7, 2));
    assert_eq!(x.get(35), Rat::new(13, 4));
    assert_eq!(x.get(40), Rat::new(3, 1));
}

#[test]
fn test_get_consec() {
    let mut x = PwLine::new();
    x.add_pt(0, Rat::new(2, 1));
    x.add_pt(2, Rat::new(4, 1));
    x.add_pt(4, Rat::new(3, 1));
    x.add_pt(6, Rat::new(0, 1));
    let mut it = x.get_consec(1);
    let mut got = Vec::new();
    for _ in 0..6 {
        got.push(it.next());
    }
    let want = vec![
        /* 1 */ Rat::new(3, 1),
        /* 2 */ Rat::new(4, 1),
        /* 3 */ Rat::new(7, 2),
        /* 4 */ Rat::new(3, 1),
        /* 5 */ Rat::new(3, 2),
        /* 6 */ Rat::new(0, 1),
    ];
    assert_eq!(got, want);
}

#[test]
fn test_flat_segment() {
    let mut x = PwLine::new();
    x.add_pt(0, Rat::new(2, 1));
    x.add_pt(20, Rat::new(2, 1));
    for at in [0, 5, 10, 15, 20] {
        assert_eq!(x.get(at), Rat::new(2, 1));
    }
}

#[test]
fn test_identity_at_control_points() {
    let mut x = PwLine::new();
    x.add_pt(-7, Rat::new(1, 3));
    x.add_pt(0, Rat::new(-5, 2));
    x.add_pt(13, Rat::new(9, 4));
    x.add_pt(100, Rat::new(11, 7));
    assert_eq!(x.get(-7), Rat::new(1, 3));
    assert_eq!(x.get(0), Rat::new(-5, 2));
    assert_eq!(x.get(13), Rat::new(9, 4));
    assert_eq!(x.get(100), Rat::new(11, 7));
}

#[test]
fn test_overwrite_last_write_wins() {
    let mut x = PwLine::new();
    x.add_pt(10, Rat::new(1, 1));
    x.add_pt(20, Rat::new(3, 1));
    x.add_pt(10, Rat::new(5, 2));
    assert_eq!(x.get(10), Rat::new(5, 2));
    // the other point is untouched, and the segment uses the new value
    assert_eq!(x.get(20), Rat::new(3, 1));
    assert_eq!(x.get(15), Rat::new(11, 4));
}

#[test]
fn test_single_point_clamps_everywhere() {
    let mut x = PwLine::new();
    x.add_pt(5, Rat::new(-3, 4));
    assert_eq!(x.get(-1000), Rat::new(-3, 4));
    assert_eq!(x.get(5), Rat::new(-3, 4));
    assert_eq!(x.get(1000), Rat::new(-3, 4));
}

#[test]
fn test_interior_with_negative_keys() {
    let mut x = PwLine::new();
    x.add_pt(-10, Rat::new(2, 1));
    x.add_pt(20, Rat::new(-2, 1));
    // slope -4/30 starting from (-10, 2)
    assert_eq!(x.get(-10), Rat::new(2, 1));
    assert_eq!(x.get(5), Rat::new(0, 1));
    assert_eq!(x.get(20), Rat::new(-2, 1));
}

#[test]
fn test_cursor_matches_direct_evaluation() {
    let mut x = PwLine::new();
    x.add_pt(-3, Rat::new(1, 2));
    x.add_pt(4, Rat::new(8, 3));
    x.add_pt(9, Rat::new(-1, 1));
    let mut it = x.get_consec(-5);
    for at in -5..12 {
        assert_eq!(it.next(), x.get(at));
    }
}

#[test]
fn test_get_consecutive_run() {
    let mut x = PwLine::new();
    x.add_pt(0, Rat::new(2, 1));
    x.add_pt(2, Rat::new(4, 1));
    x.add_pt(4, Rat::new(3, 1));
    x.add_pt(6, Rat::new(0, 1));
    let mut got = vec![Rat::zero(); 6];
    x.get_consecutive(1, &mut got);
    let want = vec![
        Rat::new(3, 1),
        Rat::new(4, 1),
        Rat::new(7, 2),
        Rat::new(3, 1),
        Rat::new(3, 2),
        Rat::new(0, 1),
    ];
    assert_eq!(got, want);
    let mut empty: Vec<Rat> = Vec::new();
    x.get_consecutive(3, &mut empty);
    assert!(empty.is_empty());
}

#[test]
fn test_rat_equality_is_of_numbers() {
    assert_eq!(Rat::new(1, 2), Rat::new(2, 4));
    assert_eq!(Rat::new(-3, 1), Rat::new(-6, 2));
    assert_ne!(Rat::new(1, 2), Rat::new(2, 3));
    assert_eq!(Rat::zero(), Rat::new(0, 7));
    assert_eq!(Rat::from_int(-4), Rat::new(-8, 2));
}

#[test]
fn test_rat_accessors() {
    let r = Rat::new(9, 5);
    assert_eq!(r.num(), 9);
    assert_eq!(r.den(), 5);
}

#[test]
fn test_extreme_bounds() {
    let mut x = PwLine::new();
    x.add_pt(-POINT_BOUND, Rat::new(POINT_BOUND, 1));
    x.add_pt(POINT_BOUND, Rat::new(-POINT_BOUND, 1));
    assert_eq!(x.get(-POINT_BOUND), Rat::new(POINT_BOUND, 1));
    assert_eq!(x.get(0), Rat::zero());
    assert_eq!(x.get(POINT_BOUND), Rat::new(-POINT_BOUND, 1));

    let mut y = PwLine::new();
    y.add_pt(0, Rat::new(1, POINT_BOUND));
    y.add_pt(2, Rat::new(3, POINT_BOUND));
    assert_eq!(y.get(1), Rat::new(2, POINT_BOUND));
}

#[test]
fn test_from_const_clamps_left_of_zero() {
    let x = PwLine::from_const(Rat::new(7, 3));
    assert_eq!(x.get(-50), Rat::new(7, 3));
    assert_eq!(x.get(0), Rat::new(7, 3));
    assert_eq!(x.get(123), Rat::new(7, 3));
}
