//! Determinant of a square matrix of exact rationals, by Laplace expansion
//! along the first row.  The orders arising here are the small ones of the
//! resultant pipeline, where the expansion is exact and cheap.

use vstd::prelude::*;
use crate::rational::{Rat, spec_mul, spec_sub, spec_add};

verus! {

/// A square matrix of valid rationals.
pub open spec fn wf_square(m: Seq<Seq<Rat>>) -> bool {
    &&& forall|i: int| 0 <= i < m.len() ==> #[trigger] m[i].len() == m.len()
    &&& forall|i: int, j: int|
        0 <= i < m.len() && 0 <= j < m.len() ==> (#[trigger] m[i][j]).wf()
}

/// The minor of `m`: drop row 0 and column `col`.
pub open spec fn spec_minor(m: Seq<Seq<Rat>>, col: int) -> Seq<Seq<Rat>> {
    Seq::new((m.len() - 1) as nat, |r: int| m[r + 1].remove(col))
}

/// The determinant of `m`, if every step of the exact arithmetic fits;
/// the empty matrix has determinant one.
pub open spec fn spec_det(m: Seq<Seq<Rat>>) -> Option<Rat>
    decreases m.len(), m[0].len() + 1,
{
    if m.len() == 0 {
        Some(Rat::spec_one())
    } else {
        spec_det_sum(m, 0, Rat::spec_zero())
    }
}

/// The cofactor expansion of `spec_det` from column `j` on, folded onto
/// `acc`: `acc + sum_{c >= j} (-1)^c * m[0][c] * det(minor(m, c))`.
pub open spec fn spec_det_sum(m: Seq<Seq<Rat>>, j: int, acc: Rat) -> Option<Rat>
    decreases m.len(), m[0].len() - j,
{
    if m.len() == 0 || j < 0 || j >= m[0].len() {
        Some(acc)
    } else {
        match spec_det(spec_minor(m, j)) {
            Some(sub_det) => match spec_mul(m[0][j], sub_det) {
                Some(term) => {
                    let acc2 = if j % 2 == 0 {
                        spec_add(acc, term)
                    } else {
                        spec_sub(acc, term)
                    };
                    match acc2 {
                        Some(a) => spec_det_sum(m, j + 1, a),
                        None => None,
                    }
                },
                None => None,
            },
            None => None,
        }
    }
}

/// Deep view of an exec matrix.
pub open spec fn mat_view(m: Seq<Vec<Rat>>) -> Seq<Seq<Rat>> {
    m.map_values(|row: Vec<Rat>| row@)
}

/// Determinant by Laplace expansion along the first row; `None` exactly when
/// a step of the exact arithmetic leaves `i64`.
pub fn det(m: &Vec<Vec<Rat>>) -> (r: Option<Rat>)
    requires
        wf_square(mat_view(m@)),
    ensures
        r == spec_det(mat_view(m@)),
        r matches Some(v) ==> v.wf(),
    decreases m@.len(),
{
    let ghost mv = mat_view(m@);
    let n = m.len();
    if n == 0 {
        return Some(Rat::one());
    }
    let mut acc = Rat::zero();
    let mut j: usize = 0;
    while j < n
        invariant
            n == m@.len(),
            n >= 1,
            mv == mat_view(m@),
            wf_square(mv),
            mv[0].len() == n,
            0 <= j <= n,
            acc.wf(),
            spec_det_sum(mv, j as int, acc) == spec_det(mv),
        decreases n - j,
    {
        // Build the minor: rows 1.., column j dropped.
        let mut minor: Vec<Vec<Rat>> = Vec::new();
        let mut r: usize = 1;
        while r < n
            invariant
                n == m@.len(),
                mv == mat_view(m@),
                wf_square(mv),
                0 <= j < n,
                1 <= r <= n,
                minor@.len() == r - 1,
                forall|a: int|
                    0 <= a < r - 1 ==> #[trigger] minor@[a]@ == mv[a + 1].remove(j as int),
            decreases n - r,
        {
            let mut row: Vec<Rat> = Vec::new();
            let mut c: usize = 0;
            while c < n
                invariant
                    n == m@.len(),
                    mv == mat_view(m@),
                    wf_square(mv),
                    0 <= j < n,
                    1 <= r < n,
                    0 <= c <= n,
                    mv[r as int].len() == n,
                    row@.len() == (if c <= j {
                        c as int
                    } else {
                        c - 1
                    }),
                    forall|b: int|
                        0 <= b < row@.len() ==> #[trigger] row@[b] == mv[r as int].remove(
                            j as int,
                        )[b],
                decreases n - c,
            {
                if c != j {
                    proof {
                        let rr = r as int;
                        assert(mv[rr].remove(j as int)[row@.len() as int] == mv[rr][c as int]);
                    }
                    row.push(m[r][c]);
                }
                c = c + 1;
            }
            proof {
                assert(row@ =~= mv[r as int].remove(j as int));
            }
            minor.push(row);
            r = r + 1;
        }
        proof {
            assert(mat_view(minor@) =~= spec_minor(mv, j as int));
            assert forall|a: int|
                0 <= a < minor@.len() implies (#[trigger] mat_view(minor@)[a]).len()
                    == minor@.len() by {
                assert(mv[a + 1].len() == n);
            };
            assert forall|a: int, b: int|
                0 <= a < minor@.len() && 0 <= b < minor@.len() implies (#[trigger] mat_view(
                minor@,
            )[a][b]).wf() by {
                assert(mv[a + 1].len() == n);
                if b < j {
                    assert(mat_view(minor@)[a][b] == mv[a + 1][b]);
                } else {
                    assert(mat_view(minor@)[a][b] == mv[a + 1][b + 1]);
                }
            };
            assert(wf_square(mat_view(minor@)));
        }
        let sub_det = match det(&minor) {
            Some(v) => v,
            None => {
                return None;
            },
        };
        let term = match m[0][j].mul(&sub_det) {
            Some(v) => v,
            None => {
                return None;
            },
        };
        let acc2 = if j % 2 == 0 {
            acc.add(&term)
        } else {
            acc.sub(&term)
        };
        acc = match acc2 {
            Some(v) => v,
            None => {
                return None;
            },
        };
        j = j + 1;
    }
    Some(acc)
}

} // verus!
