//! Three-component vectors of exact rationals.
//!
//! A `LinearFormVector` plays two roles, as in the underlying theory: it is a
//! homogeneous point `(x, y, w)` of the projective plane, and it is the
//! coefficient vector of a linear form in `X`, `Y`, `W` (the entries of the
//! resultant matrix, produced as cross products of control points).

use vstd::prelude::*;
use crate::rational::{Rat, spec_add, spec_sub, spec_mul};

verus! {

/// A 3-vector of exact rationals.
#[derive(Clone, Copy, Debug, PartialEq, Eq, Structural)]
pub struct LinearFormVector {
    pub x: Rat,
    pub y: Rat,
    pub z: Rat,
}

impl LinearFormVector {
    pub open spec fn wf(self) -> bool {
        self.x.wf() && self.y.wf() && self.z.wf()
    }

    pub open spec fn spec_zero() -> LinearFormVector {
        LinearFormVector { x: Rat::spec_zero(), y: Rat::spec_zero(), z: Rat::spec_zero() }
    }

    /// The zero vector.
    pub fn zero() -> (r: LinearFormVector)
        ensures
            r == Self::spec_zero(),
            r.wf(),
    {
        LinearFormVector { x: Rat::zero(), y: Rat::zero(), z: Rat::zero() }
    }

    /// A vector of three integers.
    pub fn from_ints(x: i64, y: i64, z: i64) -> (r: LinearFormVector)
        requires
            x > i64::MIN,
            y > i64::MIN,
            z > i64::MIN,
        ensures
            r.x == (Rat { num: x, den: 1 }),
            r.y == (Rat { num: y, den: 1 }),
            r.z == (Rat { num: z, den: 1 }),
            r.wf(),
    {
        LinearFormVector { x: Rat::from_int(x), y: Rat::from_int(y), z: Rat::from_int(z) }
    }
}

/// `p * q - r * s`, if every step fits.
pub open spec fn spec_mul_sub(p: Rat, q: Rat, r: Rat, s: Rat) -> Option<Rat> {
    match (spec_mul(p, q), spec_mul(r, s)) {
        (Some(m1), Some(m2)) => spec_sub(m1, m2),
        _ => None,
    }
}

/// `p * q - r * s` in exec form.
pub fn mul_sub(p: &Rat, q: &Rat, r: &Rat, s: &Rat) -> (res: Option<Rat>)
    requires
        p.wf(),
        q.wf(),
        r.wf(),
        s.wf(),
    ensures
        res == spec_mul_sub(*p, *q, *r, *s),
        res matches Some(v) ==> v.wf(),
{
    let m1 = match p.mul(q) {
        Some(v) => v,
        None => {
            return None;
        },
    };
    let m2 = match r.mul(s) {
        Some(v) => v,
        None => {
            return None;
        },
    };
    m1.sub(&m2)
}

/// Cross product of two 3-vectors, if every step fits.
pub open spec fn spec_cross(a: LinearFormVector, b: LinearFormVector) -> Option<LinearFormVector> {
    match (
        spec_mul_sub(a.y, b.z, a.z, b.y),
        spec_mul_sub(a.z, b.x, a.x, b.z),
        spec_mul_sub(a.x, b.y, a.y, b.x),
    ) {
        (Some(x), Some(y), Some(z)) => Some(LinearFormVector { x, y, z }),
        _ => None,
    }
}

/// Dot product of two 3-vectors, if every step fits.
pub open spec fn spec_dot(a: LinearFormVector, b: LinearFormVector) -> Option<Rat> {
    match (spec_mul(a.x, b.x), spec_mul(a.y, b.y), spec_mul(a.z, b.z)) {
        (Some(xx), Some(yy), Some(zz)) => match spec_add(xx, yy) {
            Some(s) => spec_add(s, zz),
            None => None,
        },
        _ => None,
    }
}

/// Componentwise sum, if every step fits.
pub open spec fn spec_vec_add(a: LinearFormVector, b: LinearFormVector) -> Option<
    LinearFormVector,
> {
    match (spec_add(a.x, b.x), spec_add(a.y, b.y), spec_add(a.z, b.z)) {
        (Some(x), Some(y), Some(z)) => Some(LinearFormVector { x, y, z }),
        _ => None,
    }
}

/// The vector scaled by `c`, if every step fits.
pub open spec fn spec_scale(c: Rat, a: LinearFormVector) -> Option<LinearFormVector> {
    match (spec_mul(c, a.x), spec_mul(c, a.y), spec_mul(c, a.z)) {
        (Some(x), Some(y), Some(z)) => Some(LinearFormVector { x, y, z }),
        _ => None,
    }
}

/// One component of an elimination step: `w - u * s - v * t`.
pub open spec fn spec_elim_comp(w: Rat, u: Rat, v: Rat, s: Rat, t: Rat) -> Option<Rat> {
    match spec_mul(u, s) {
        Some(us) => match spec_sub(w, us) {
            Some(d1) => match spec_mul(v, t) {
                Some(vt) => spec_sub(d1, vt),
                None => None,
            },
            None => None,
        },
        None => None,
    }
}

/// Elimination step on whole vectors: `w - u * s - v * t`.
pub open spec fn spec_elim_vec(
    w: LinearFormVector,
    u: LinearFormVector,
    v: LinearFormVector,
    s: Rat,
    t: Rat,
) -> Option<LinearFormVector> {
    match (
        spec_elim_comp(w.x, u.x, v.x, s, t),
        spec_elim_comp(w.y, u.y, v.y, s, t),
        spec_elim_comp(w.z, u.z, v.z, s, t),
    ) {
        (Some(x), Some(y), Some(z)) => Some(LinearFormVector { x, y, z }),
        _ => None,
    }
}

impl LinearFormVector {
    /// Cross product with `b`.
    pub fn cross(&self, b: &LinearFormVector) -> (r: Option<LinearFormVector>)
        requires
            self.wf(),
            b.wf(),
        ensures
            r == spec_cross(*self, *b),
            r matches Some(v) ==> v.wf(),
    {
        let x = match mul_sub(&self.y, &b.z, &self.z, &b.y) {
            Some(v) => v,
            None => {
                return None;
            },
        };
        let y = match mul_sub(&self.z, &b.x, &self.x, &b.z) {
            Some(v) => v,
            None => {
                return None;
            },
        };
        let z = match mul_sub(&self.x, &b.y, &self.y, &b.x) {
            Some(v) => v,
            None => {
                return None;
            },
        };
        Some(LinearFormVector { x, y, z })
    }

    /// Dot product with `b`.
    pub fn dot(&self, b: &LinearFormVector) -> (r: Option<Rat>)
        requires
            self.wf(),
            b.wf(),
        ensures
            r == spec_dot(*self, *b),
            r matches Some(v) ==> v.wf(),
    {
        let xx = match self.x.mul(&b.x) {
            Some(v) => v,
            None => {
                return None;
            },
        };
        let yy = match self.y.mul(&b.y) {
            Some(v) => v,
            None => {
                return None;
            },
        };
        let zz = match self.z.mul(&b.z) {
            Some(v) => v,
            None => {
                return None;
            },
        };
        let s = match xx.add(&yy) {
            Some(v) => v,
            None => {
                return None;
            },
        };
        s.add(&zz)
    }

    /// Componentwise sum with `b`.
    pub fn vec_add(&self, b: &LinearFormVector) -> (r: Option<LinearFormVector>)
        requires
            self.wf(),
            b.wf(),
        ensures
            r == spec_vec_add(*self, *b),
            r matches Some(v) ==> v.wf(),
    {
        let x = match self.x.add(&b.x) {
            Some(v) => v,
            None => {
                return None;
            },
        };
        let y = match self.y.add(&b.y) {
            Some(v) => v,
            None => {
                return None;
            },
        };
        let z = match self.z.add(&b.z) {
            Some(v) => v,
            None => {
                return None;
            },
        };
        Some(LinearFormVector { x, y, z })
    }

    /// The vector scaled by `c`.
    pub fn scale(&self, c: &Rat) -> (r: Option<LinearFormVector>)
        requires
            self.wf(),
            c.wf(),
        ensures
            r == spec_scale(*c, *self),
            r matches Some(v) ==> v.wf(),
    {
        let x = match c.mul(&self.x) {
            Some(v) => v,
            None => {
                return None;
            },
        };
        let y = match c.mul(&self.y) {
            Some(v) => v,
            None => {
                return None;
            },
        };
        let z = match c.mul(&self.z) {
            Some(v) => v,
            None => {
                return None;
            },
        };
        Some(LinearFormVector { x, y, z })
    }

    /// Elimination step: `self - u * s - v * t`.
    pub fn elim(&self, u: &LinearFormVector, v: &LinearFormVector, s: &Rat, t: &Rat) -> (r: Option<
        LinearFormVector,
    >)
        requires
            self.wf(),
            u.wf(),
            v.wf(),
            s.wf(),
            t.wf(),
        ensures
            r == spec_elim_vec(*self, *u, *v, *s, *t),
            r matches Some(w) ==> w.wf(),
    {
        let x = match elim_comp(&self.x, &u.x, &v.x, s, t) {
            Some(c) => c,
            None => {
                return None;
            },
        };
        let y = match elim_comp(&self.y, &u.y, &v.y, s, t) {
            Some(c) => c,
            None => {
                return None;
            },
        };
        let z = match elim_comp(&self.z, &u.z, &v.z, s, t) {
            Some(c) => c,
            None => {
                return None;
            },
        };
        Some(LinearFormVector { x, y, z })
    }
}

/// One component of an elimination step.
pub fn elim_comp(w: &Rat, u: &Rat, v: &Rat, s: &Rat, t: &Rat) -> (r: Option<Rat>)
    requires
        w.wf(),
        u.wf(),
        v.wf(),
        s.wf(),
        t.wf(),
    ensures
        r == spec_elim_comp(*w, *u, *v, *s, *t),
        r matches Some(c) ==> c.wf(),
{
    let us = match u.mul(s) {
        Some(c) => c,
        None => {
            return None;
        },
    };
    let d1 = match w.sub(&us) {
        Some(c) => c,
        None => {
            return None;
        },
    };
    let vt = match v.mul(t) {
        Some(c) => c,
        None => {
            return None;
        },
    };
    d1.sub(&vt)
}

} // verus!
