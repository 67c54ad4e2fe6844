//! Combinatorics for the Bezier machinery: factorials and binomial
//! coefficients, and (further down, once the vector algebra exists) the
//! evaluation of a Bezier curve point itself.

use vstd::prelude::*;
use crate::rational::{Rat, spec_mul, spec_sub};
use crate::linear_form::{LinearFormVector, spec_vec_add, spec_scale};

verus! {

/// Mathematical factorial.
pub open spec fn spec_factorial(n: nat) -> nat
    decreases n,
{
    if n == 0 {
        1
    } else {
        n * spec_factorial((n - 1) as nat)
    }
}

/// Mathematical binomial coefficient, as the usual factorial quotient.
pub open spec fn spec_binom(n: nat, k: nat) -> nat
    recommends
        k <= n,
{
    spec_factorial(n) / (spec_factorial((n - k) as nat) * spec_factorial(k))
}

pub proof fn lemma_factorial_pos(n: nat)
    ensures
        spec_factorial(n) >= 1,
    decreases n,
{
    if n > 0 {
        lemma_factorial_pos((n - 1) as nat);
        assert(n * spec_factorial((n - 1) as nat) >= 1) by (nonlinear_arith)
            requires
                n >= 1,
                spec_factorial((n - 1) as nat) >= 1,
        ;
    }
}

/// Factorials grow with their argument.
pub proof fn lemma_factorial_monotonic(i: nat, n: nat)
    requires
        i <= n,
    ensures
        spec_factorial(i) <= spec_factorial(n),
    decreases n - i,
{
    if i < n {
        lemma_factorial_monotonic(i, (n - 1) as nat);
        lemma_factorial_pos((n - 1) as nat);
        assert(spec_factorial((n - 1) as nat) <= n * spec_factorial((n - 1) as nat))
            by (nonlinear_arith)
            requires
                n >= 1,
                spec_factorial((n - 1) as nat) >= 1,
        ;
    }
}

/// A product of factorials is bounded by the factorial of the sum.
pub proof fn lemma_factorial_mul_le(a: nat, b: nat)
    ensures
        spec_factorial(a) * spec_factorial(b) <= spec_factorial(a + b),
    decreases b,
{
    if b == 0 {
        assert(spec_factorial(a) * 1 == spec_factorial(a));
    } else {
        lemma_factorial_mul_le(a, (b - 1) as nat);
        lemma_factorial_pos(a);
        lemma_factorial_pos((b - 1) as nat);
        lemma_factorial_pos((a + b - 1) as nat);
        assert(spec_factorial(b) == b * spec_factorial((b - 1) as nat));
        assert(spec_factorial(a + b) == (a + b) * spec_factorial((a + b - 1) as nat));
        assert(spec_factorial(a) * spec_factorial(b) <= spec_factorial(a + b))
            by (nonlinear_arith)
            requires
                spec_factorial(a) * spec_factorial((b - 1) as nat) <= spec_factorial((a + b - 1) as nat),
                spec_factorial(b) == b * spec_factorial((b - 1) as nat),
                spec_factorial(a + b) == (a + b) * spec_factorial((a + b - 1) as nat),
                b >= 1,
                spec_factorial(a) >= 1,
                spec_factorial((b - 1) as nat) >= 1,
                spec_factorial((a + b - 1) as nat) >= 1,
        ;
    }
}

/// From four on, the factorial dominates the square.
pub proof fn lemma_factorial_ge_sq(n: nat)
    requires
        n >= 4,
    ensures
        spec_factorial(n) >= n * n,
    decreases n,
{
    if n == 4 {
        assert(spec_factorial(0) == 1);
        assert(spec_factorial(1) == 1);
        assert(spec_factorial(2) == 2);
        assert(spec_factorial(3) == 6);
        assert(spec_factorial(4) == 24);
    } else {
        lemma_factorial_ge_sq((n - 1) as nat);
        assert(n * spec_factorial((n - 1) as nat) >= n * n) by (nonlinear_arith)
            requires
                n >= 5,
                spec_factorial((n - 1) as nat) >= (n - 1) * (n - 1),
        ;
    }
}

/// Iterative factorial.
pub fn factorial(n: usize) -> (f: usize)
    requires
        spec_factorial(n as nat) <= usize::MAX,
    ensures
        f == spec_factorial(n as nat),
{
    let mut f: usize = 1;
    let mut i: usize = 0;
    while i < n
        invariant
            0 <= i <= n,
            f == spec_factorial(i as nat),
            spec_factorial(n as nat) <= usize::MAX,
        decreases n - i,
    {
        i = i + 1;
        proof {
            lemma_factorial_monotonic(i as nat, n as nat);
            assert(spec_factorial(i as nat) == i * spec_factorial((i - 1) as nat));
            assert(f * i == spec_factorial(i as nat)) by (nonlinear_arith)
                requires
                    f == spec_factorial((i - 1) as nat),
                    spec_factorial(i as nat) == i * spec_factorial((i - 1) as nat),
            ;
        }
        f = f * i;
    }
    f
}

/// Binomial coefficient `C(n, k)`, computed from factorials.
pub fn binary_coef(n: usize, k: usize) -> (c: usize)
    requires
        k <= n,
        spec_factorial(n as nat) <= usize::MAX,
    ensures
        c == spec_binom(n as nat, k as nat),
{
    proof {
        lemma_factorial_mul_le((n - k) as nat, k as nat);
        lemma_factorial_monotonic((n - k) as nat, n as nat);
        lemma_factorial_monotonic(k as nat, n as nat);
        lemma_factorial_pos((n - k) as nat);
        lemma_factorial_pos(k as nat);
        assert(spec_factorial((n - k) as nat) * spec_factorial(k as nat) >= 1)
            by (nonlinear_arith)
            requires
                spec_factorial((n - k) as nat) >= 1,
                spec_factorial(k as nat) >= 1,
        ;
    }
    factorial(n) / (factorial(n - k) * factorial(k))
}

/// `r` to the `k`-th power, if every step fits.
pub open spec fn spec_pow(r: Rat, k: nat) -> Option<Rat>
    decreases k,
{
    if k == 0 {
        Some(Rat::spec_one())
    } else {
        match spec_pow(r, (k - 1) as nat) {
            Some(p) => spec_mul(p, r),
            None => None,
        }
    }
}

/// A power that leaves `i64` never comes back: every higher power is `None`
/// as well.
proof fn lemma_pow_none(r: Rat, m: nat, k: nat)
    requires
        m <= k,
        spec_pow(r, m) is None,
    ensures
        spec_pow(r, k) is None,
    decreases k - m,
{
    if k > m {
        lemma_pow_none(r, m, (k - 1) as nat);
    }
}

/// `r` to the `k`-th power by repeated multiplication.
pub fn rat_pow(r: &Rat, k: usize) -> (p: Option<Rat>)
    requires
        r.wf(),
    ensures
        p == spec_pow(*r, k as nat),
        p matches Some(v) ==> v.wf(),
{
    let mut acc = Rat::one();
    let mut i: usize = 0;
    while i < k
        invariant
            0 <= i <= k,
            r.wf(),
            acc.wf(),
            Some(acc) == spec_pow(*r, i as nat),
        decreases k - i,
    {
        acc = match acc.mul(r) {
            Some(v) => v,
            None => {
                proof {
                    lemma_pow_none(*r, (i + 1) as nat, k as nat);
                }
                return None;
            },
        };
        i = i + 1;
    }
    Some(acc)
}

/// The `i`-th Bernstein term of the blend: `C(n-1, i) * (1-t)^(n-1-i) * t^i * pts[i]`.
pub open spec fn spec_bezier_term(pts: Seq<LinearFormVector>, omt: Rat, t: Rat, i: int) -> Option<
    LinearFormVector,
>
    recommends
        0 <= i < pts.len(),
{
    let n = pts.len() as int;
    let c = Rat { num: spec_binom((n - 1) as nat, i as nat) as i64, den: 1 };
    match (spec_pow(omt, (n - 1 - i) as nat), spec_pow(t, i as nat)) {
        (Some(u), Some(v)) => match spec_mul(u, v) {
            Some(w) => match spec_mul(w, c) {
                Some(wc) => spec_scale(wc, pts[i]),
                None => None,
            },
            None => None,
        },
        _ => None,
    }
}

/// The Bernstein blend of the terms `from..` onto the accumulator `acc`.
pub open spec fn spec_bezier_sum(
    pts: Seq<LinearFormVector>,
    omt: Rat,
    t: Rat,
    from: int,
    acc: LinearFormVector,
) -> Option<LinearFormVector>
    decreases pts.len() - from,
{
    if from < 0 || from >= pts.len() {
        Some(acc)
    } else {
        match spec_bezier_term(pts, omt, t, from) {
            Some(term) => match spec_vec_add(acc, term) {
                Some(acc2) => spec_bezier_sum(pts, omt, t, from + 1, acc2),
                None => None,
            },
            None => None,
        }
    }
}

/// The point of the Bezier curve with control polygon `pts` at parameter `t`:
/// the standard Bernstein blend, in exact arithmetic.
pub open spec fn spec_bezier_curve(pts: Seq<LinearFormVector>, t: Rat) -> Option<
    LinearFormVector,
> {
    match spec_sub(Rat::spec_one(), t) {
        Some(omt) => spec_bezier_sum(pts, omt, t, 0, LinearFormVector::spec_zero()),
        None => None,
    }
}

/// The point of the Bezier curve with control polygon `p` at parameter `t`,
/// in homogeneous coordinates; `None` exactly when a step of the exact
/// arithmetic leaves `i64`.
pub fn bezier_curve(p: &Vec<LinearFormVector>, t: &Rat) -> (r: Option<LinearFormVector>)
    requires
        p.len() >= 1,
        forall|i: int| 0 <= i < p.len() ==> #[trigger] p[i].wf(),
        t.wf(),
        spec_factorial((p.len() - 1) as nat) <= usize::MAX,
        spec_factorial((p.len() - 1) as nat) <= i64::MAX,
    ensures
        r == spec_bezier_curve(p@, *t),
        r matches Some(v) ==> v.wf(),
{
    let n = p.len();
    let one = Rat::one();
    let omt = match one.sub(t) {
        Some(v) => v,
        None => {
            return None;
        },
    };
    let mut s = LinearFormVector::zero();
    let mut i: usize = 0;
    while i < n
        invariant
            0 <= i <= n,
            n == p.len(),
            forall|k: int| 0 <= k < p.len() ==> #[trigger] p[k].wf(),
            t.wf(),
            omt.wf(),
            s.wf(),
            spec_factorial((n - 1) as nat) <= usize::MAX,
            spec_factorial((n - 1) as nat) <= i64::MAX,
            Some(omt) == spec_sub(Rat::spec_one(), *t),
            spec_bezier_sum(p@, omt, *t, i as int, s) == spec_bezier_curve(p@, *t),
        decreases n - i,
    {
        proof {
            lemma_factorial_monotonic(i as nat, (n - 1) as nat);
            lemma_factorial_mul_le((n - 1 - i) as nat, i as nat);
            lemma_factorial_pos((n - 1 - i) as nat);
            lemma_factorial_pos(i as nat);
            assert(spec_factorial((n - 1 - i) as nat) * spec_factorial(i as nat) >= 1)
                by (nonlinear_arith)
                requires
                    spec_factorial((n - 1 - i) as nat) >= 1,
                    spec_factorial(i as nat) >= 1,
            ;
            vstd::arithmetic::div_mod::lemma_div_nonincreasing(
                spec_factorial((n - 1) as nat) as int,
                (spec_factorial((n - 1 - i) as nat) * spec_factorial(i as nat)) as int,
            );
        }
        let c = binary_coef(n - 1, i);
        let c_rat = Rat::from_int(c as i64);
        let u = match rat_pow(&omt, n - 1 - i) {
            Some(v) => v,
            None => {
                return None;
            },
        };
        let v = match rat_pow(t, i) {
            Some(v) => v,
            None => {
                return None;
            },
        };
        let w = match u.mul(&v) {
            Some(v) => v,
            None => {
                return None;
            },
        };
        let wc = match w.mul(&c_rat) {
            Some(v) => v,
            None => {
                return None;
            },
        };
        let term = match p[i].scale(&wc) {
            Some(v) => v,
            None => {
                return None;
            },
        };
        s = match s.vec_add(&term) {
            Some(v) => v,
            None => {
                return None;
            },
        };
        i = i + 1;
    }
    Some(s)
}

} // verus!
