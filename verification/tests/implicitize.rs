use bezier_implicitizer::{
    bezier_curve, calc_deviation, implicitize_bezier, reduce_rank, ImplicitizeError,
    LinearFormVector, Rat, ResultantMatrix,
};

fn pt(x: i64, y: i64, z: i64) -> LinearFormVector {
    LinearFormVector::from_ints(x, y, z)
}

fn cubic_polygon() -> Vec<LinearFormVector> {
    vec![pt(0, 0, 1), pt(0, 1, 1), pt(1, 2, 1), pt(3, 0, 1)]
}

fn quartic_polygon() -> Vec<LinearFormVector> {
    vec![pt(0, 0, 1), pt(0, 1, 1), pt(1, 2, 1), pt(3, 2, 1), pt(2, 0, 1)]
}

/// |value of r| > 1/1000.
fn clearly_nonzero(r: &Rat) -> bool {
    (r.num as i128).abs() * 1000 > r.den as i128
}

#[test]
fn cubic_scenario() {
    let p = cubic_polygon();
    let m = implicitize_bezier(&p).unwrap();
    assert_eq!(m.num_rows(), 3);
    assert_eq!(m.num_cols(), 3);

    let half = Rat::new(1, 2).unwrap();
    let on_curve = bezier_curve(&p, &half).unwrap();
    let dev = calc_deviation(&m, &on_curve).unwrap();
    assert_eq!(dev.num, 0);

    let off = pt(5, 5, 1);
    let dev_off = calc_deviation(&m, &off).unwrap();
    assert!(clearly_nonzero(&dev_off));
    assert_eq!(dev_off.num, 1485);
    assert_eq!(dev_off.den, 1);
}

#[test]
fn quartic_scenario() {
    let p = quartic_polygon();
    let m = implicitize_bezier(&p).unwrap();
    assert_eq!(m.num_rows(), 4);
    assert_eq!(m.num_cols(), 4);

    let r = reduce_rank(&m).unwrap();
    assert_eq!(r.num_rows(), 2);
    assert_eq!(r.num_cols(), 3);

    let third = Rat::new(1, 3).unwrap();
    let on_curve = bezier_curve(&p, &third).unwrap();
    let dev = calc_deviation(&r, &on_curve).unwrap();
    assert_eq!(dev.num, 0);

    let off = pt(-1, -1, 1);
    let dev_off = calc_deviation(&r, &off).unwrap();
    assert!(clearly_nonzero(&dev_off));
    assert_eq!(dev_off.num, -22016);
    assert_eq!(dev_off.den, 9);
}

#[test]
fn on_curve_deviation_degree_two() {
    let p = vec![pt(0, 0, 1), pt(1, 3, 1), pt(4, 1, 1)];
    let m = implicitize_bezier(&p).unwrap();
    assert_eq!(m.num_rows(), 2);
    for k in 0..=20 {
        let t = Rat::new(k, 20).unwrap();
        let q = bezier_curve(&p, &t).unwrap();
        let dev = calc_deviation(&m, &q).unwrap();
        assert_eq!(dev.num, 0, "deviation not zero at t = {}/20", k);
    }
}

#[test]
fn on_curve_deviation_degree_three() {
    let p = cubic_polygon();
    let m = implicitize_bezier(&p).unwrap();
    for k in 0..=20 {
        let t = Rat::new(k, 20).unwrap();
        let q = bezier_curve(&p, &t).unwrap();
        let dev = calc_deviation(&m, &q).unwrap();
        assert_eq!(dev.num, 0, "deviation not zero at t = {}/20", k);
    }
}

#[test]
fn on_curve_deviation_degree_four_reduced() {
    let p = quartic_polygon();
    let r = reduce_rank(&implicitize_bezier(&p).unwrap()).unwrap();
    for k in 0..=20 {
        let t = Rat::new(k, 20).unwrap();
        let q = bezier_curve(&p, &t).unwrap();
        let dev = calc_deviation(&r, &q).unwrap();
        assert_eq!(dev.num, 0, "deviation not zero at t = {}/20", k);
    }
}

#[test]
fn determinism_bitwise() {
    let p = quartic_polygon();
    let m1 = implicitize_bezier(&p).unwrap();
    let m2 = implicitize_bezier(&p).unwrap();
    assert_eq!(m1.num_rows(), m2.num_rows());
    assert_eq!(m1.num_cols(), m2.num_cols());
    for i in 0..m1.num_rows() {
        for j in 0..m1.num_cols() {
            assert_eq!(m1.entry(i, j), m2.entry(i, j));
        }
    }
    let q = pt(7, -3, 1);
    let d1 = calc_deviation(&m1, &q).unwrap();
    let d2 = calc_deviation(&m2, &q).unwrap();
    assert_eq!(d1.num, d2.num);
    assert_eq!(d1.den, d2.den);
}

#[test]
fn collinear_degenerate_zero_matrix() {
    // Three equally spaced collinear control points: the degenerate curve is
    // a line segment, and the resultant's determinant vanishes everywhere.
    let p = vec![pt(0, 0, 1), pt(1, 1, 1), pt(2, 2, 1)];
    let m = implicitize_bezier(&p).unwrap();
    for q in [pt(5, 7, 1), pt(-2, 3, 1), pt(1, 1, 1), pt(0, 100, 1)] {
        let dev = calc_deviation(&m, &q).unwrap();
        assert_eq!(dev.num, 0);
    }
}

#[test]
fn collinear_quartic_singular_block() {
    let p = vec![pt(0, 0, 1), pt(1, 1, 1), pt(2, 2, 1), pt(3, 3, 1), pt(4, 4, 1)];
    let m = implicitize_bezier(&p).unwrap();
    assert_eq!(reduce_rank(&m).unwrap_err(), ImplicitizeError::SingularBlock);
}

#[test]
fn reduce_rank_odd_order_unsupported() {
    let p = cubic_polygon();
    let m = implicitize_bezier(&p).unwrap();
    assert_eq!(m.num_rows(), 3);
    assert_eq!(reduce_rank(&m).unwrap_err(), ImplicitizeError::UnsupportedOrder);
}

#[test]
fn reduce_rank_order_two_is_identity() {
    let p = vec![pt(0, 0, 1), pt(1, 3, 1), pt(4, 1, 1)];
    let m = implicitize_bezier(&p).unwrap();
    let r = reduce_rank(&m).unwrap();
    assert_eq!(r.num_rows(), 2);
    assert_eq!(r.num_cols(), 2);
    for i in 0..2 {
        for j in 0..2 {
            assert_eq!(r.entry(i, j), m.entry(i, j));
        }
    }
}

#[test]
fn calc_deviation_unsupported_shape() {
    let row = vec![pt(1, 0, 0), pt(0, 1, 0), pt(0, 0, 1), pt(1, 1, 1)];
    let m = ResultantMatrix::from_entries(vec![row.clone(), row]).unwrap();
    let e = calc_deviation(&m, &pt(1, 1, 1)).unwrap_err();
    assert_eq!(e, ImplicitizeError::UnsupportedOrder);
}

#[test]
fn from_entries_dimension_mismatch() {
    let ragged = vec![vec![pt(1, 0, 0), pt(0, 1, 0)], vec![pt(0, 0, 1)]];
    assert_eq!(
        ResultantMatrix::from_entries(ragged).unwrap_err(),
        ImplicitizeError::DimensionMismatch
    );
    assert_eq!(
        ResultantMatrix::from_entries(vec![]).unwrap_err(),
        ImplicitizeError::DimensionMismatch
    );
}

#[test]
fn implicitize_overflow() {
    let big = 4_000_000_000_000_000_000;
    let p = vec![pt(big, 0, 1), pt(0, big, 1)];
    assert_eq!(implicitize_bezier(&p).unwrap_err(), ImplicitizeError::Overflow);
}

#[test]
fn resultant_entry_exact() {
    // For the cubic polygon, entry (0,0) is 3 * (P0 x P1) = (-3, 0, 0).
    let m = implicitize_bezier(&cubic_polygon()).unwrap();
    let e = m.entry(0, 0);
    assert_eq!(e.x, Rat::new(-3, 1).unwrap());
    assert_eq!(e.y, Rat::new(0, 1).unwrap());
    assert_eq!(e.z, Rat::new(0, 1).unwrap());
}

#[test]
fn bezier_curve_midpoint() {
    let p = cubic_polygon();
    let half = Rat::new(1, 2).unwrap();
    let q = bezier_curve(&p, &half).unwrap();
    assert_eq!(q.x, Rat::new(3, 4).unwrap());
    assert_eq!(q.y, Rat::new(9, 8).unwrap());
    assert_eq!(q.z, Rat::new(1, 1).unwrap());
}

#[test]
fn resultant_matrix_symmetric() {
    // The resultant matrix is symmetric: the terms that distinguish entry
    // (i, j) from entry (j, i) pair up and cancel by antisymmetry of the
    // cross product.
    for p in [cubic_polygon(), quartic_polygon()] {
        let m = implicitize_bezier(&p).unwrap();
        let n = m.num_rows();
        for i in 0..n {
            for j in 0..n {
                assert_eq!(m.entry(i, j), m.entry(j, i));
            }
        }
    }
}

#[test]
fn bezier_curve_overflow_is_reported() {
    let p = vec![
        pt(4_000_000_000_000_000_000, 0, 1),
        pt(0, 4_000_000_000_000_000_000, 1),
        pt(1, 1, 1),
    ];
    let t = Rat::new(1, 3).unwrap();
    assert!(bezier_curve(&p, &t).is_none());
}
