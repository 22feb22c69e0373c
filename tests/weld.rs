use arcweld::weld::{fit_mid, orient_mid, step, turn, weld_chain, Piece, Probe, Turn, Walk};

#[test]
fn two_points_make_one_line() {
    let r = weld_chain(2, 3, |_x: usize, _y: usize| false, |_a: usize, _i: usize| true).ok().unwrap();
    assert_eq!(r, vec![Piece::Line { start: 0 }]);
}

#[test]
fn short_chain_never_makes_an_arc() {
    let r = weld_chain(4, 5, |_x: usize, _y: usize| false, |_a: usize, _i: usize| true).ok().unwrap();
    assert_eq!(r, vec![Piece::Line { start: 0 }, Piece::Line { start: 1 }, Piece::Line { start: 2 }]);
}

#[test]
fn straight_chain_stays_lines() {
    let r = weld_chain(4, 3, |_x: usize, _y: usize| false, |_a: usize, _i: usize| false).ok().unwrap();
    assert_eq!(r, vec![Piece::Line { start: 0 }, Piece::Line { start: 1 }, Piece::Line { start: 2 }]);
}

#[test]
fn open_run_makes_one_arc() {
    let r = weld_chain(9, 3, |_x: usize, _y: usize| false, |_a: usize, _i: usize| true).ok().unwrap();
    assert_eq!(r, vec![Piece::Arc { start: 0, end: 8 }]);
}

#[test]
fn closed_polygon_makes_one_circle() {
    // 17 points, the last one back on the first
    let n: usize = 17;
    let same = |x: usize, y: usize| x == y || (x == 0 && y == n - 1);
    let r = weld_chain(n, 3, same, |_a: usize, _i: usize| true).ok().unwrap();
    assert_eq!(r, vec![Piece::Circle { start: 0, fit_end: 15, end: 16 }]);
}

#[test]
fn arc_then_lines() {
    // points 0..=8 on an arc, 9..=11 on a tangent line
    let r = weld_chain(12, 3, |_x: usize, _y: usize| false, |a: usize, i: usize| a == 0 && i <= 8 || a >= 8 && i <= a + 1)
        .ok()
        .unwrap();
    assert_eq!(
        r,
        vec![
            Piece::Arc { start: 0, end: 8 },
            Piece::Line { start: 8 },
            Piece::Line { start: 9 },
            Piece::Line { start: 10 },
        ]
    );
}

#[test]
fn repeated_point_is_skipped() {
    let r = weld_chain(6, 3, |x: usize, y: usize| x == 2 && y == 3, |_a: usize, _i: usize| true).ok().unwrap();
    assert_eq!(r, vec![Piece::Arc { start: 0, end: 5 }]);
}

#[test]
fn config_errors() {
    assert!(weld_chain(5, 2, |_x: usize, _y: usize| false, |_a: usize, _i: usize| true).is_err());
    assert!(weld_chain(1, 3, |_x: usize, _y: usize| false, |_a: usize, _i: usize| true).is_err());
    assert!(weld_chain(0, 3, |_x: usize, _y: usize| false, |_a: usize, _i: usize| true).is_err());
    let e = weld_chain(5, 2, |_x: usize, _y: usize| false, |_a: usize, _i: usize| true).err().unwrap();
    assert_eq!(e.message, "min_segments must be >= 3");
}

#[test]
fn middle_indices() {
    assert_eq!(fit_mid(0, 2), 1);
    assert_eq!(fit_mid(0, 8), 4);
    assert_eq!(fit_mid(3, 10), 6);
    assert_eq!(orient_mid(0, 2), 1);
    assert_eq!(orient_mid(0, 8), 4);
    assert_eq!(orient_mid(3, 10), 7);
}

#[test]
fn step_never_moves_window_back() {
    let w = Walk { a: 2, i: 9, live: Some(8) };
    let fail = Probe { repeat: false, closes: false, fits: false };
    let (next, out) = step(w, fail, 20, 3);
    assert_eq!(out, Some(Piece::Arc { start: 2, end: 8 }));
    assert_eq!(next, Walk { a: 8, i: 10, live: None });
    assert!(next.a >= w.a);
    let close = Probe { repeat: false, closes: true, fits: true };
    let (next, out) = step(w, close, 20, 3);
    assert_eq!(out, Some(Piece::Circle { start: 2, fit_end: 8, end: 9 }));
    assert_eq!(next, Walk { a: 10, i: 12, live: None });
    let w = Walk { a: 0, i: 5, live: None };
    let (next, out) = step(w, fail, 20, 3);
    assert_eq!(out, Some(Piece::Line { start: 0 }));
    assert_eq!(next, Walk { a: 1, i: 5, live: None });
    let w = Walk { a: 0, i: 2, live: None };
    let (next, _) = step(w, fail, 20, 3);
    assert_eq!(next, Walk { a: 1, i: 3, live: None });
    let rep = Probe { repeat: true, closes: false, fits: false };
    let (next, out) = step(w, rep, 20, 3);
    assert_eq!(out, None);
    assert_eq!(next, Walk { a: 0, i: 3, live: None });
}

fn order(s: f64, m: f64, e: f64) -> arcweld::weld::AngleOrder {
    let full = 2.0 * std::f64::consts::PI;
    arcweld::weld::AngleOrder {
        s_lt_e: s < e,
        e_lt_s: e < s,
        s_lt_m: s < m,
        m_lt_s: m < s,
        e_lt_m: e < m,
        m_lt_e: m < e,
        m_nonneg: 0.0 <= m,
        m_pos: 0.0 < m,
        m_below_full: m < full,
    }
}

#[test]
fn arc_turn_from_angle_order() {
    let cases = [
        (0.0, 0.7, 1.5, Turn::CounterClockwise),
        (1.5, 0.7, 0.0, Turn::Clockwise),
        (5.0, 6.0, 1.0, Turn::CounterClockwise),
        (1.0, 6.0, 5.0, Turn::Clockwise),
        (1.0, 0.5, 5.0, Turn::Clockwise),
        (5.0, 3.0, 1.0, Turn::Clockwise),
        (2.0, 1.0, 2.0, Turn::Unknown),
        (5.0, 0.0, 1.0, Turn::Unknown),
    ];
    for (s, m, e, want) in cases.iter() {
        assert_eq!(turn(order(*s, *m, *e)), *want);
    }
}
