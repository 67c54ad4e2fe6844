use bezier_implicitizer::{binary_coef, factorial, Rat};

#[test]
fn factorial_values() {
    assert_eq!(factorial(0), 1);
    assert_eq!(factorial(1), 1);
    assert_eq!(factorial(5), 120);
    assert_eq!(factorial(10), 3628800);
}

#[test]
fn binary_coef_values() {
    assert_eq!(binary_coef(4, 2), 6);
    assert_eq!(binary_coef(5, 0), 1);
    assert_eq!(binary_coef(5, 5), 1);
    assert_eq!(binary_coef(10, 3), 120);
    assert_eq!(binary_coef(20, 10), 184756);
}

#[test]
fn rat_new_reduces() {
    let r = Rat::new(2, 4).unwrap();
    assert_eq!((r.num, r.den), (1, 2));
    let r = Rat::new(0, 7).unwrap();
    assert_eq!((r.num, r.den), (0, 1));
    let r = Rat::new(-6, 4).unwrap();
    assert_eq!((r.num, r.den), (-3, 2));
}

#[test]
fn rat_new_zero_denominator() {
    assert!(Rat::new(1, 0).is_none());
}

#[test]
fn rat_new_negative_denominator() {
    let r = Rat::new(3, -6).unwrap();
    assert_eq!((r.num, r.den), (-1, 2));
    let r = Rat::new(-3, -6).unwrap();
    assert_eq!((r.num, r.den), (1, 2));
}

#[test]
fn rat_add_sub_mul_div() {
    let a = Rat::new(1, 2).unwrap();
    let b = Rat::new(1, 3).unwrap();
    let s = a.add(&b).unwrap();
    assert_eq!((s.num, s.den), (5, 6));
    let d = a.sub(&b).unwrap();
    assert_eq!((d.num, d.den), (1, 6));
    let m = a.mul(&b).unwrap();
    assert_eq!((m.num, m.den), (1, 6));
    let q = a.div(&b).unwrap();
    assert_eq!((q.num, q.den), (3, 2));
}

#[test]
fn rat_neg_and_zero() {
    let a = Rat::new(3, 4).unwrap();
    let n = a.neg();
    assert_eq!((n.num, n.den), (-3, 4));
    assert!(!a.is_zero());
    assert!(Rat::zero().is_zero());
    let z = a.sub(&a).unwrap();
    assert!(z.is_zero());
}

#[test]
fn rat_overflow_is_reported() {
    let big = Rat::new(i64::MAX, 1).unwrap();
    assert!(big.mul(&big).is_none());
    assert!(big.add(&Rat::new(1, 1).unwrap()).is_none());
    // A product whose reduced form fits is still exact.
    let half = Rat::new(1, 2).unwrap();
    let h = big.mul(&half).unwrap();
    assert_eq!((h.num, h.den), (i64::MAX, 2));
}

#[test]
fn rat_mixed_denominators_reduce() {
    let a = Rat::new(4, 6).unwrap();
    let b = Rat::new(9, 6).unwrap();
    let m = a.mul(&b).unwrap();
    assert_eq!((m.num, m.den), (1, 1));
}
