//! Exact rational scalars.
//!
//! Every numeric quantity of the implicitizer — control-point coordinates,
//! matrix entries, determinants, deviations — is an exact rational number
//! `num / den` held in an `i64` pair with a positive denominator.  Each
//! operation reduces its result to lowest terms; when even the reduced result
//! does not fit in `i64` the operation reports that instead of returning a
//! wrong value.

use vstd::prelude::*;
use vstd::arithmetic::div_mod::{lemma_fundamental_div_mod, lemma_div_multiples_vanish};
use vstd::arithmetic::mul::{lemma_mul_is_commutative, lemma_mul_equality_converse};

verus! {

/// Greatest common divisor, by Euclid's recursion.
pub open spec fn gcd(a: nat, b: nat) -> nat
    decreases b,
{
    if b == 0 {
        a
    } else {
        gcd(b, a % b)
    }
}

/// `g` divides `x` exactly.
pub open spec fn divides(g: nat, x: nat) -> bool {
    exists|k: nat| x == #[trigger] (k * g)
}

pub proof fn lemma_gcd_pos(a: nat, b: nat)
    requires
        a > 0 || b > 0,
    ensures
        gcd(a, b) > 0,
    decreases b,
{
    if b > 0 {
        lemma_gcd_pos(b, a % b);
    }
}

pub proof fn lemma_gcd_divides(a: nat, b: nat)
    ensures
        divides(gcd(a, b), a),
        divides(gcd(a, b), b),
    decreases b,
{
    if b == 0 {
        assert(a == 1nat * gcd(a, b));
        assert(b == 0nat * gcd(a, b));
    } else {
        lemma_gcd_divides(b, a % b);
        let g = gcd(a, b);
        let k1 = choose|k: nat| b == #[trigger] (k * g);
        let k2 = choose|k: nat| (a % b) == #[trigger] (k * g);
        lemma_fundamental_div_mod(a as int, b as int);
        assert(a == b * (a as int / b as int) + a % b);
        let q = (a as int / b as int) as nat;
        assert(a == (k1 * q) * g + k2 * g) by (nonlinear_arith)
            requires
                a == b * q + a % b,
                b == k1 * g,
                (a % b) == k2 * g,
                q == a as int / b as int,
        ;
        assert(a == (k1 * q + k2) * g) by (nonlinear_arith)
            requires
                a == (k1 * q) * g + k2 * g,
        ;
    }
}

/// A positive divisor of a positive number is no larger than it.
pub proof fn lemma_divisor_le(g: nat, x: nat)
    requires
        divides(g, x),
        g > 0,
        x > 0,
    ensures
        g <= x,
{
    let k = choose|k: nat| x == #[trigger] (k * g);
    assert(k >= 1 ==> k * g >= g) by (nonlinear_arith);
    assert(k == 0 ==> k * g == 0) by (nonlinear_arith);
}

/// Exact division: when `g` divides `x`, the integer quotient recovers `x`.
pub proof fn lemma_div_exact(x: nat, g: nat)
    requires
        g > 0,
        divides(g, x),
    ensures
        (x as int / g as int) * g == x,
{
    let k = choose|k: nat| x == #[trigger] (k * g);
    lemma_mul_is_commutative(k as int, g as int);
    lemma_div_multiples_vanish(k as int, g as int);
    assert(x as int / g as int == k);
}

/// Magnitude of an integer.
pub open spec fn abs_int(n: int) -> nat {
    if n >= 0 {
        n as nat
    } else {
        (-n) as nat
    }
}

/// An exact rational scalar `num / den`, `den >= 1`.
#[derive(Clone, Copy, Debug, PartialEq, Eq, Structural)]
pub struct Rat {
    pub num: i64,
    pub den: i64,
}

impl Rat {
    /// Validity: positive denominator, and a numerator whose negation also
    /// fits (so that negation and cross products never leave `i64`).
    pub open spec fn wf(self) -> bool {
        1 <= self.den && -i64::MAX <= self.num
    }

    /// The value of `self` is exactly the fraction `n / d`.
    pub open spec fn is_frac(self, n: int, d: int) -> bool {
        self.num * d == n * self.den
    }

    pub open spec fn spec_zero() -> Rat {
        Rat { num: 0, den: 1 }
    }

    pub open spec fn spec_one() -> Rat {
        Rat { num: 1, den: 1 }
    }

    /// The rational `0/1`.
    pub fn zero() -> (r: Rat)
        ensures
            r == Self::spec_zero(),
            r.wf(),
    {
        Rat { num: 0, den: 1 }
    }

    /// The rational `1/1`.
    pub fn one() -> (r: Rat)
        ensures
            r == Self::spec_one(),
            r.wf(),
    {
        Rat { num: 1, den: 1 }
    }

    /// Whether the value of `self` is zero.
    pub fn is_zero(&self) -> (r: bool)
        requires
            self.wf(),
        ensures
            r == (self.num == 0),
            r == self.is_frac(0, 1),
    {
        proof {
            assert(self.num * 1 == self.num);
            assert(0 * self.den == 0);
        }
        self.num == 0
    }
}

/// Numerator of `n / d` in lowest terms (`d >= 1`).
pub open spec fn lowest_num(n: int, d: int) -> int {
    let g = gcd(abs_int(n), d as nat) as int;
    if n >= 0 {
        n / g
    } else {
        -((-n) / g)
    }
}

/// Denominator of `n / d` in lowest terms (`d >= 1`).
pub open spec fn lowest_den(n: int, d: int) -> int {
    let g = gcd(abs_int(n), d as nat) as int;
    d / g
}

/// The fraction `n / d` (`d >= 1`) in lowest terms, if it fits in `i64`.
pub open spec fn rat_from_frac(n: int, d: int) -> Option<Rat> {
    let ln = lowest_num(n, d);
    let ld = lowest_den(n, d);
    if -(i64::MAX as int) <= ln <= i64::MAX as int && 1 <= ld <= i64::MAX as int {
        Some(Rat { num: ln as i64, den: ld as i64 })
    } else {
        None
    }
}

/// Like `rat_from_frac`, for a denominator of either sign (`d != 0`).
pub open spec fn rat_from_frac_signed(n: int, d: int) -> Option<Rat> {
    if d >= 1 {
        rat_from_frac(n, d)
    } else {
        rat_from_frac(-n, -d)
    }
}

/// Reduction keeps the exact value: what `rat_from_frac` returns stands for
/// precisely the fraction it was given.
pub proof fn lemma_rat_from_frac_value(n: int, d: int)
    requires
        d >= 1,
        rat_from_frac(n, d) is Some,
    ensures
        rat_from_frac(n, d).unwrap().wf(),
        rat_from_frac(n, d).unwrap().is_frac(n, d),
{
    let a = abs_int(n);
    let g = gcd(a, d as nat);
    lemma_gcd_pos(a, d as nat);
    lemma_gcd_divides(a, d as nat);
    lemma_div_exact(a, g);
    lemma_div_exact(d as nat, g);
    let qa = a as int / g as int;
    let qd = d / g as int;
    assert(qa * g == a);
    assert(qd * g == d);
    // (a/g) * d == a * (d/g): both sides equal qa * qd * g.
    assert(qa * d == a * qd) by (nonlinear_arith)
        requires
            qa * g as int == a as int,
            qd * g as int == d,
    ;
    let r = rat_from_frac(n, d).unwrap();
    if n >= 0 {
        assert(r.num * d == n * r.den);
    } else {
        assert(r.num == -qa && r.den == qd);
        assert((-qa) * d == n * qd) by (nonlinear_arith)
            requires
                qa * d == a * qd,
                a == -n,
        ;
    }
}

/// The sum of `a` and `b`, reduced, if it fits.
pub open spec fn spec_add(a: Rat, b: Rat) -> Option<Rat> {
    rat_from_frac(a.num * b.den + b.num * a.den, a.den * b.den)
}

/// The difference of `a` and `b`, reduced, if it fits.
pub open spec fn spec_sub(a: Rat, b: Rat) -> Option<Rat> {
    rat_from_frac(a.num * b.den - b.num * a.den, a.den * b.den)
}

/// The product of `a` and `b`, reduced, if it fits.
pub open spec fn spec_mul(a: Rat, b: Rat) -> Option<Rat> {
    rat_from_frac(a.num * b.num, a.den * b.den)
}

/// The quotient of `a` by `b` (`b` nonzero), reduced, if it fits.
pub open spec fn spec_div(a: Rat, b: Rat) -> Option<Rat>
    recommends
        b.num != 0,
{
    rat_from_frac_signed(a.num * b.den, a.den * b.num)
}

/// Euclid's algorithm.
fn gcd_u128(a0: u128, b0: u128) -> (g: u128)
    ensures
        g == gcd(a0 as nat, b0 as nat),
{
    let mut a = a0;
    let mut b = b0;
    while b != 0
        invariant
            gcd(a as nat, b as nat) == gcd(a0 as nat, b0 as nat),
        decreases b,
    {
        let r = a % b;
        a = b;
        b = r;
    }
    a
}

/// Reduce the raw fraction `num / den` to lowest terms and pack it in `i64`,
/// or report `None` when even the reduced pair does not fit.
fn rat_reduce(num: i128, den: i128) -> (r: Option<Rat>)
    requires
        den >= 1,
        num > i128::MIN,
    ensures
        r == rat_from_frac(num as int, den as int),
        r matches Some(v) ==> v.wf() && v.is_frac(num as int, den as int),
{
    let neg = num < 0;
    let mag: u128 = if neg {
        (-num) as u128
    } else {
        num as u128
    };
    let d: u128 = den as u128;
    assert(mag as nat == abs_int(num as int));
    proof {
        lemma_gcd_pos(mag as nat, d as nat);
        lemma_gcd_divides(mag as nat, d as nat);
        lemma_div_exact(d as nat, gcd(mag as nat, d as nat));
        if mag > 0 {
            lemma_div_exact(mag as nat, gcd(mag as nat, d as nat));
            lemma_divisor_le(gcd(mag as nat, d as nat), mag as nat);
        }
        lemma_divisor_le(gcd(mag as nat, d as nat), d as nat);
    }
    let g = gcd_u128(mag, d);
    let rn = mag / g;
    let rd = d / g;
    assert(rd >= 1) by {
        assert(rd * g == d && g <= d);
        assert(rd == 0 ==> rd * g == 0) by (nonlinear_arith);
    }
    if rn <= i64::MAX as u128 && rd <= i64::MAX as u128 {
        let n64: i64 = if neg {
            -(rn as i64)
        } else {
            rn as i64
        };
        let res = Rat { num: n64, den: rd as i64 };
        proof {
            assert(rat_from_frac(num as int, den as int) == Some(res));
            lemma_rat_from_frac_value(num as int, den as int);
        }
        Some(res)
    } else {
        assert(rat_from_frac(num as int, den as int) is None);
        None
    }
}

/// Bound on a product of bounded factors.
proof fn lemma_abs_mul_le(x: int, y: int, bx: int, by: int)
    requires
        -bx <= x <= bx,
        -by <= y <= by,
    ensures
        -(bx * by) <= x * y <= bx * by,
{
    assert(-(bx * by) <= x * y <= bx * by) by (nonlinear_arith)
        requires
            -bx <= x <= bx,
            -by <= y <= by,
    ;
}

/// Positive factors give a positive, bounded product.
proof fn lemma_den_mul(x: int, y: int)
    requires
        1 <= x <= i64::MAX,
        1 <= y <= i64::MAX,
    ensures
        1 <= x * y <= i64::MAX * i64::MAX,
{
    assert(1 <= x * y <= i64::MAX * i64::MAX) by (nonlinear_arith)
        requires
            1 <= x <= i64::MAX,
            1 <= y <= i64::MAX,
    ;
}

impl Rat {
    /// The rational `n / 1`.
    pub fn from_int(n: i64) -> (r: Rat)
        requires
            n > i64::MIN,
        ensures
            r == (Rat { num: n, den: 1 }),
            r.wf(),
            r.is_frac(n as int, 1),
    {
        proof {
            assert(n * 1 == n);
        }
        Rat { num: n, den: 1 }
    }

    /// The rational `n / d`, reduced; `None` when `d` is zero or the reduced
    /// fraction does not fit.
    pub fn new(n: i64, d: i64) -> (r: Option<Rat>)
        ensures
            d == 0 ==> r is None,
            d != 0 ==> r == rat_from_frac_signed(n as int, d as int),
            r matches Some(v) ==> v.wf() && v.is_frac(n as int, d as int),
    {
        if d == 0 {
            None
        } else if d > 0 {
            let r = rat_reduce(n as i128, d as i128);
            proof {
                if r is Some {
                    lemma_rat_from_frac_value(n as int, d as int);
                }
            }
            r
        } else {
            let r = rat_reduce(-(n as i128), -(d as i128));
            proof {
                if r is Some {
                    lemma_rat_from_frac_value(-(n as int), -(d as int));
                    let v = r.unwrap();
                    assert(v.num * (d as int) == n * v.den) by (nonlinear_arith)
                        requires
                            v.num * (-(d as int)) == (-(n as int)) * v.den,
                    ;
                }
            }
            r
        }
    }

    /// Negation; exact, since `wf` keeps numerators symmetric.
    pub fn neg(&self) -> (r: Rat)
        requires
            self.wf(),
        ensures
            r.num == -(self.num as int) && r.den == self.den,
            r.wf(),
            r.is_frac(-(self.num as int), self.den as int),
    {
        proof {
            assert((-self.num) * self.den == (-(self.num as int)) * self.den);
        }
        Rat { num: -self.num, den: self.den }
    }

    /// Sum; `None` exactly when the reduced result leaves `i64`.
    pub fn add(&self, b: &Rat) -> (r: Option<Rat>)
        requires
            self.wf(),
            b.wf(),
        ensures
            r == spec_add(*self, *b),
            r matches Some(v) ==> v.wf(),
    {
        proof {
            lemma_abs_mul_le(self.num as int, b.den as int, i64::MAX as int, i64::MAX as int);
            lemma_abs_mul_le(b.num as int, self.den as int, i64::MAX as int, i64::MAX as int);
            lemma_den_mul(self.den as int, b.den as int);
        }
        let n1 = (self.num as i128) * (b.den as i128);
        let n2 = (b.num as i128) * (self.den as i128);
        let d = (self.den as i128) * (b.den as i128);
        rat_reduce(n1 + n2, d)
    }

    /// Difference; `None` exactly when the reduced result leaves `i64`.
    pub fn sub(&self, b: &Rat) -> (r: Option<Rat>)
        requires
            self.wf(),
            b.wf(),
        ensures
            r == spec_sub(*self, *b),
            r matches Some(v) ==> v.wf(),
    {
        proof {
            lemma_abs_mul_le(self.num as int, b.den as int, i64::MAX as int, i64::MAX as int);
            lemma_abs_mul_le(b.num as int, self.den as int, i64::MAX as int, i64::MAX as int);
            lemma_den_mul(self.den as int, b.den as int);
        }
        let n1 = (self.num as i128) * (b.den as i128);
        let n2 = (b.num as i128) * (self.den as i128);
        let d = (self.den as i128) * (b.den as i128);
        rat_reduce(n1 - n2, d)
    }

    /// Product; `None` exactly when the reduced result leaves `i64`.
    pub fn mul(&self, b: &Rat) -> (r: Option<Rat>)
        requires
            self.wf(),
            b.wf(),
        ensures
            r == spec_mul(*self, *b),
            r matches Some(v) ==> v.wf(),
    {
        proof {
            lemma_abs_mul_le(self.num as int, b.num as int, i64::MAX as int, i64::MAX as int);
            lemma_den_mul(self.den as int, b.den as int);
        }
        let n = (self.num as i128) * (b.num as i128);
        let d = (self.den as i128) * (b.den as i128);
        rat_reduce(n, d)
    }

    /// Quotient by a nonzero rational; `None` exactly when the reduced result
    /// leaves `i64`.
    pub fn div(&self, b: &Rat) -> (r: Option<Rat>)
        requires
            self.wf(),
            b.wf(),
            b.num != 0,
        ensures
            r == spec_div(*self, *b),
            r matches Some(v) ==> v.wf(),
    {
        proof {
            lemma_abs_mul_le(self.num as int, b.den as int, i64::MAX as int, i64::MAX as int);
            lemma_abs_mul_le(self.den as int, b.num as int, i64::MAX as int, i64::MAX as int);
            assert(self.den as int * b.num as int != 0) by (nonlinear_arith)
                requires
                    self.den >= 1,
                    b.num != 0,
            ;
        }
        let n = (self.num as i128) * (b.den as i128);
        let d = (self.den as i128) * (b.num as i128);
        if d > 0 {
            rat_reduce(n, d)
        } else {
            rat_reduce(-n, -d)
        }
    }
}

// What follows is the value theory of the exact arithmetic: every operation's
// result, seen as a fraction, equals the exact fraction the operation stands
// for.  The elimination law of the rank reduction is proved from these facts.

/// The fractions `n1 / d1` and `n2 / d2` are equal, cross-multiplied.
pub open spec fn frac_eq(n1: int, d1: int, n2: int, d2: int) -> bool {
    n1 * d2 == n2 * d1
}

/// Fraction equality is transitive through a fraction with nonzero
/// denominator.
pub proof fn lemma_frac_eq_trans(n1: int, d1: int, n2: int, d2: int, n3: int, d3: int)
    requires
        frac_eq(n1, d1, n2, d2),
        frac_eq(n2, d2, n3, d3),
        d2 != 0,
    ensures
        frac_eq(n1, d1, n3, d3),
{
    assert(d2 * (n1 * d3) == d2 * (n3 * d1)) by (nonlinear_arith)
        requires
            n1 * d2 == n2 * d1,
            n2 * d3 == n3 * d2,
    ;
    lemma_mul_equality_converse(d2, n1 * d3, n3 * d1);
}

/// A common factor of numerator and denominator drops out.
pub proof fn lemma_frac_scale(n: int, d: int, k: int)
    ensures
        frac_eq(n * k, d * k, n, d),
{
    assert((n * k) * d == n * (d * k)) by (nonlinear_arith);
}

/// Replacing both operands of a difference of fractions by equal fractions
/// keeps the value.
pub proof fn lemma_frac_sub_subst(
    na: int,
    da: int,
    nb: int,
    db: int,
    n1: int,
    d1: int,
    n2: int,
    d2: int,
)
    requires
        frac_eq(na, da, n1, d1),
        frac_eq(nb, db, n2, d2),
    ensures
        frac_eq(na * db - nb * da, da * db, n1 * d2 - n2 * d1, d1 * d2),
{
    assert((na * d1) * (db * d2) == (n1 * da) * (db * d2));
    assert((na * db) * (d1 * d2) == (na * d1) * (db * d2)) by (nonlinear_arith);
    assert((n1 * d2) * (da * db) == (n1 * da) * (db * d2)) by (nonlinear_arith);
    assert((nb * d2) * (da * d1) == (n2 * db) * (da * d1));
    assert((nb * da) * (d1 * d2) == (nb * d2) * (da * d1)) by (nonlinear_arith);
    assert((n2 * d1) * (da * db) == (n2 * db) * (da * d1)) by (nonlinear_arith);
    assert((na * db - nb * da) * (d1 * d2) == (na * db) * (d1 * d2) - (nb * da) * (d1 * d2))
        by (nonlinear_arith);
    assert((n1 * d2 - n2 * d1) * (da * db) == (n1 * d2) * (da * db) - (n2 * d1) * (da * db))
        by (nonlinear_arith);
}

/// Replacing both operands of a sum of fractions by equal fractions keeps
/// the value.
pub proof fn lemma_frac_add_subst(
    na: int,
    da: int,
    nb: int,
    db: int,
    n1: int,
    d1: int,
    n2: int,
    d2: int,
)
    requires
        frac_eq(na, da, n1, d1),
        frac_eq(nb, db, n2, d2),
    ensures
        frac_eq(na * db + nb * da, da * db, n1 * d2 + n2 * d1, d1 * d2),
{
    assert((na * d1) * (db * d2) == (n1 * da) * (db * d2));
    assert((na * db) * (d1 * d2) == (na * d1) * (db * d2)) by (nonlinear_arith);
    assert((n1 * d2) * (da * db) == (n1 * da) * (db * d2)) by (nonlinear_arith);
    assert((nb * d2) * (da * d1) == (n2 * db) * (da * d1));
    assert((nb * da) * (d1 * d2) == (nb * d2) * (da * d1)) by (nonlinear_arith);
    assert((n2 * d1) * (da * db) == (n2 * db) * (da * d1)) by (nonlinear_arith);
    assert((na * db + nb * da) * (d1 * d2) == (na * db) * (d1 * d2) + (nb * da) * (d1 * d2))
        by (nonlinear_arith);
    assert((n1 * d2 + n2 * d1) * (da * db) == (n1 * d2) * (da * db) + (n2 * d1) * (da * db))
        by (nonlinear_arith);
}

/// Replacing both factors of a product of fractions by equal fractions keeps
/// the value.
pub proof fn lemma_frac_mul_subst(
    na: int,
    da: int,
    nb: int,
    db: int,
    n1: int,
    d1: int,
    n2: int,
    d2: int,
)
    requires
        frac_eq(na, da, n1, d1),
        frac_eq(nb, db, n2, d2),
    ensures
        frac_eq(na * nb, da * db, n1 * n2, d1 * d2),
{
    assert((na * nb) * (d1 * d2) == (n1 * n2) * (da * db)) by (nonlinear_arith)
        requires
            na * d1 == n1 * da,
            nb * d2 == n2 * db,
    ;
}

/// The value of a product: `spec_mul(a, b)` stands exactly for the fraction
/// `(a.num * b.num) / (a.den * b.den)`.
pub proof fn lemma_mul_value(a: Rat, b: Rat)
    requires
        a.wf(),
        b.wf(),
        spec_mul(a, b) is Some,
    ensures
        spec_mul(a, b).unwrap().wf(),
        frac_eq(
            spec_mul(a, b).unwrap().num as int,
            spec_mul(a, b).unwrap().den as int,
            a.num * b.num,
            a.den * b.den,
        ),
{
    assert(a.den * b.den >= 1) by (nonlinear_arith)
        requires
            a.den >= 1,
            b.den >= 1,
    ;
    lemma_rat_from_frac_value(a.num * b.num, a.den * b.den);
}

/// The value of a difference: `spec_sub(a, b)` stands exactly for
/// `(a.num * b.den - b.num * a.den) / (a.den * b.den)`.
pub proof fn lemma_sub_value(a: Rat, b: Rat)
    requires
        a.wf(),
        b.wf(),
        spec_sub(a, b) is Some,
    ensures
        spec_sub(a, b).unwrap().wf(),
        frac_eq(
            spec_sub(a, b).unwrap().num as int,
            spec_sub(a, b).unwrap().den as int,
            a.num * b.den - b.num * a.den,
            a.den * b.den,
        ),
{
    assert(a.den * b.den >= 1) by (nonlinear_arith)
        requires
            a.den >= 1,
            b.den >= 1,
    ;
    lemma_rat_from_frac_value(a.num * b.den - b.num * a.den, a.den * b.den);
}

/// The value of a quotient: `spec_div(a, b)` (`b` nonzero) stands exactly
/// for `(a.num * b.den) / (a.den * b.num)`.
pub proof fn lemma_div_value(a: Rat, b: Rat)
    requires
        a.wf(),
        b.wf(),
        b.num != 0,
        spec_div(a, b) is Some,
    ensures
        spec_div(a, b).unwrap().wf(),
        frac_eq(
            spec_div(a, b).unwrap().num as int,
            spec_div(a, b).unwrap().den as int,
            a.num * b.den,
            a.den * b.num,
        ),
{
    let n = a.num * b.den;
    let d = a.den * b.num;
    let r = spec_div(a, b).unwrap();
    if d >= 1 {
        lemma_rat_from_frac_value(n, d);
    } else {
        assert(d != 0) by (nonlinear_arith)
            requires
                a.den >= 1,
                b.num != 0,
                d == a.den * b.num,
        ;
        lemma_rat_from_frac_value(-n, -d);
        assert(r.num * (-d) == (-n) * r.den);
        assert(r.num * d == n * r.den) by (nonlinear_arith)
            requires
                r.num * (-d) == (-n) * r.den,
        ;
    }
}

} // verus!
