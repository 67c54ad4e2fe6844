//! The implicitization pipeline: building the resultant matrix of a control
//! polygon, reducing the rank of an even-order matrix, and evaluating the
//! full or reduced matrix at a query point.

use vstd::prelude::*;
use crate::rational::{
    Rat, spec_div, frac_eq, spec_mul, spec_sub, lemma_mul_value, lemma_sub_value, lemma_div_value,
    lemma_frac_eq_trans, lemma_frac_scale, lemma_frac_sub_subst, lemma_frac_add_subst,
    lemma_frac_mul_subst,
};
use crate::linear_form::{
    LinearFormVector, spec_cross, spec_scale, spec_vec_add, spec_dot, spec_mul_sub, mul_sub,
    spec_elim_vec,
};
use crate::bezier_curve::{spec_binom, spec_factorial, binary_coef, lemma_factorial_ge_sq};
use crate::determinant::{spec_det, det, mat_view, wf_square};

verus! {

/// The failures of the pipeline.  The first three reflect genuinely singular
/// geometric configurations or caller misuse; `Overflow` is the machine
/// limit of the exact arithmetic — a reduced rational left `i64`.
#[derive(Clone, Copy, Debug, PartialEq, Eq, Structural)]
pub enum ImplicitizeError {
    /// The matrix is neither square nor of the reduced two-row shape the
    /// evaluator handles, or rank reduction was asked of an odd order.
    UnsupportedOrder,
    /// The leading 2x2 block of an elimination round is not invertible.
    SingularBlock,
    /// The rows of the given entries do not form a rectangular matrix.
    DimensionMismatch,
    /// A step of the exact rational arithmetic left the range of `i64`.
    Overflow,
}

/// A matrix of linear forms: the resultant of a control polygon (square,
/// order n) or its rank-reduced form (2 x (n/2 + 1)).
#[derive(Clone, Debug)]
pub struct ResultantMatrix {
    pub entries: Vec<Vec<LinearFormVector>>,
}

/// Deep view of a sequence of exec rows.
pub open spec fn lfv_mat_view(s: Seq<Vec<LinearFormVector>>) -> Seq<Seq<LinearFormVector>> {
    s.map_values(|r: Vec<LinearFormVector>| r@)
}

impl ResultantMatrix {
    /// The matrix as a sequence of rows.
    pub open spec fn rows(self) -> Seq<Seq<LinearFormVector>> {
        lfv_mat_view(self.entries@)
    }

    pub open spec fn nrows(self) -> int {
        self.entries@.len() as int
    }

    pub open spec fn ncols(self) -> int {
        self.entries@[0]@.len() as int
    }

    /// Validity: at least one row and one column, rectangular, every entry a
    /// valid rational vector.
    pub open spec fn wf(self) -> bool {
        &&& self.nrows() >= 1
        &&& self.ncols() >= 1
        &&& forall|i: int|
            0 <= i < self.nrows() ==> #[trigger] self.entries@[i]@.len() == self.ncols()
        &&& forall|i: int, j: int|
            0 <= i < self.nrows() && 0 <= j < self.ncols() ==> (
            #[trigger] self.entries@[i]@[j]).wf()
    }

    /// Number of rows.
    pub fn num_rows(&self) -> (r: usize)
        ensures
            r == self.nrows(),
    {
        self.entries.len()
    }

    /// Number of columns.
    pub fn num_cols(&self) -> (r: usize)
        requires
            self.wf(),
        ensures
            r == self.ncols(),
    {
        self.entries[0].len()
    }

    /// The entry in row `i`, column `j`.
    pub fn entry(&self, i: usize, j: usize) -> (r: LinearFormVector)
        requires
            self.wf(),
            i < self.nrows(),
            j < self.ncols(),
        ensures
            r == self.rows()[i as int][j as int],
            r.wf(),
    {
        self.entries[i][j]
    }

    /// Wrap the given rows as a matrix; `DimensionMismatch` exactly when they
    /// are empty or not rectangular.
    pub fn from_entries(entries: Vec<Vec<LinearFormVector>>) -> (r: Result<
        ResultantMatrix,
        ImplicitizeError,
    >)
        requires
            forall|i: int, j: int|
                0 <= i < entries@.len() && 0 <= j < entries@[i]@.len() ==> (
                #[trigger] entries@[i]@[j]).wf(),
        ensures
            r matches Ok(m) ==> m.wf() && m.entries@ == entries@,
            r is Ok <==> (entries@.len() >= 1 && entries@[0]@.len() >= 1 && forall|i: int|
                0 <= i < entries@.len() ==> #[trigger] entries@[i]@.len()
                    == entries@[0]@.len()),
            r is Err ==> r == Err::<ResultantMatrix, ImplicitizeError>(
                ImplicitizeError::DimensionMismatch,
            ),
    {
        if entries.len() == 0 {
            return Err(ImplicitizeError::DimensionMismatch);
        }
        let cols = entries[0].len();
        if cols == 0 {
            return Err(ImplicitizeError::DimensionMismatch);
        }
        let mut i: usize = 0;
        while i < entries.len()
            invariant
                0 <= i <= entries@.len(),
                entries@[0]@.len() == cols >= 1,
                forall|k: int| 0 <= k < i ==> #[trigger] entries@[k]@.len() == cols,
            decreases entries@.len() - i,
        {
            if entries[i].len() != cols {
                return Err(ImplicitizeError::DimensionMismatch);
            }
            i = i + 1;
        }
        Ok(ResultantMatrix { entries })
    }
}

/// One term of a resultant entry: `C(n,l) * C(n,m) * (P[l] x P[m])`, where
/// `n` is the curve degree; `None` when a step of the arithmetic leaves
/// `i64`.
pub open spec fn spec_resultant_term(ctrl: Seq<LinearFormVector>, l: int, m: int) -> Option<
    LinearFormVector,
>
    recommends
        ctrl.len() >= 2,
        0 <= l < ctrl.len(),
        0 <= m < ctrl.len(),
{
    let n = (ctrl.len() - 1) as nat;
    let c = spec_binom(n, l as nat) * spec_binom(n, m as nat);
    if c > i64::MAX {
        None
    } else {
        match spec_cross(ctrl[l], ctrl[m]) {
            Some(cr) => spec_scale(Rat { num: c as i64, den: 1 }, cr),
            None => None,
        }
    }
}

/// The terms `l..` of entry `(i, j)` of the resultant, folded onto `acc`:
/// term `l` pairs `P[l]` with `P[m]`, `m = i + j + 1 - l`, and contributes
/// only when `0 <= l <= i` and `m <= n`.
pub open spec fn spec_resultant_entry_sum(
    ctrl: Seq<LinearFormVector>,
    i: int,
    j: int,
    l: int,
    acc: LinearFormVector,
) -> Option<LinearFormVector>
    decreases ctrl.len() - l,
{
    let n = ctrl.len() - 1;
    if l < 0 || l >= n {
        Some(acc)
    } else {
        let s = i + j + 1;
        let m = s - l;
        if l < s && m <= n && l <= i {
            match spec_resultant_term(ctrl, l, m) {
                Some(term) => match spec_vec_add(acc, term) {
                    Some(acc2) => spec_resultant_entry_sum(ctrl, i, j, l + 1, acc2),
                    None => None,
                },
                None => None,
            }
        } else {
            spec_resultant_entry_sum(ctrl, i, j, l + 1, acc)
        }
    }
}

/// Entry `(i, j)` of the resultant matrix of the control polygon `ctrl`.
pub open spec fn spec_resultant_entry(ctrl: Seq<LinearFormVector>, i: int, j: int) -> Option<
    LinearFormVector,
> {
    spec_resultant_entry_sum(ctrl, i, j, 0, LinearFormVector::spec_zero())
}

/// Entry `(i, j)` of the resultant matrix, computed.
fn resultant_entry(ctrl: &Vec<LinearFormVector>, i: usize, j: usize) -> (r: Option<
    LinearFormVector,
>)
    requires
        ctrl.len() >= 2,
        forall|k: int| 0 <= k < ctrl.len() ==> #[trigger] ctrl[k].wf(),
        i < ctrl.len() - 1,
        j < ctrl.len() - 1,
        spec_factorial((ctrl.len() - 1) as nat) <= usize::MAX,
    ensures
        r == spec_resultant_entry(ctrl@, i as int, j as int),
        r matches Some(v) ==> v.wf(),
{
    let n = ctrl.len() - 1;
    proof {
        if n >= 4 {
            lemma_factorial_ge_sq(n as nat);
            assert(n * n >= 2 * n) by (nonlinear_arith)
                requires
                    n >= 2,
            ;
        }
    }
    let s = i + j + 1;
    let mut acc = LinearFormVector::zero();
    let mut l: usize = 0;
    while l < n
        invariant
            n == ctrl.len() - 1,
            ctrl.len() >= 2,
            forall|k: int| 0 <= k < ctrl.len() ==> #[trigger] ctrl[k].wf(),
            i < n,
            j < n,
            s == i + j + 1,
            s < usize::MAX,
            0 <= l <= n,
            acc.wf(),
            spec_factorial(n as nat) <= usize::MAX,
            spec_resultant_entry_sum(ctrl@, i as int, j as int, l as int, acc)
                == spec_resultant_entry(ctrl@, i as int, j as int),
        decreases n - l,
    {
        if l < s && s - l <= n && l <= i {
            let m = s - l;
            let cl = binary_coef(n, l);
            let cm = binary_coef(n, m);
            proof {
                assert((cl as int) * (cm as int) <= u128::MAX) by (nonlinear_arith)
                    requires
                        0 <= cl as int <= u64::MAX as int,
                        0 <= cm as int <= u64::MAX as int,
                ;
            }
            let c_wide = (cl as u128) * (cm as u128);
            if c_wide > i64::MAX as u128 {
                return None;
            }
            let c_rat = Rat { num: c_wide as i64, den: 1 };
            assert(c_rat.wf());
            let cr = match ctrl[l].cross(&ctrl[m]) {
                Some(v) => v,
                None => {
                    return None;
                },
            };
            let term = match cr.scale(&c_rat) {
                Some(v) => v,
                None => {
                    return None;
                },
            };
            acc = match acc.vec_add(&term) {
                Some(v) => v,
                None => {
                    return None;
                },
            };
        }
        l = l + 1;
    }
    Some(acc)
}

/// Build the resultant matrix of a Bezier control polygon of degree
/// `n = ctrl.len() - 1`: the n x n matrix whose entry `(i, j)` is
/// `sum C(n,l) * C(n,m) * (P[l] x P[m])` over `0 <= l <= i`,
/// `m = i + j + 1 - l <= n`.  Collinear or duplicate control points yield a
/// rank-deficient or zero matrix, not an error; the only failure is
/// `Overflow`, exactly when some entry's exact arithmetic leaves `i64`.
pub fn implicitize_bezier(ctrl: &Vec<LinearFormVector>) -> (r: Result<
    ResultantMatrix,
    ImplicitizeError,
>)
    requires
        ctrl.len() >= 2,
        forall|k: int| 0 <= k < ctrl.len() ==> #[trigger] ctrl[k].wf(),
        spec_factorial((ctrl.len() - 1) as nat) <= usize::MAX,
    ensures
        r is Ok <==> (forall|i: int, j: int|
            0 <= i < ctrl.len() - 1 && 0 <= j < ctrl.len() - 1
                ==> #[trigger] spec_resultant_entry(ctrl@, i, j) is Some),
        r matches Ok(m) ==> {
            &&& m.wf()
            &&& m.nrows() == ctrl.len() - 1
            &&& m.ncols() == ctrl.len() - 1
            &&& forall|i: int, j: int|
                0 <= i < ctrl.len() - 1 && 0 <= j < ctrl.len() - 1 ==> Some(
                    #[trigger] m.rows()[i][j],
                ) == spec_resultant_entry(ctrl@, i, j)
        },
        r is Err ==> r == Err::<ResultantMatrix, ImplicitizeError>(ImplicitizeError::Overflow),
{
    let n = ctrl.len() - 1;
    let mut rows: Vec<Vec<LinearFormVector>> = Vec::new();
    let mut i: usize = 0;
    while i < n
        invariant
            n == ctrl.len() - 1,
            ctrl.len() >= 2,
            forall|k: int| 0 <= k < ctrl.len() ==> #[trigger] ctrl[k].wf(),
            spec_factorial(n as nat) <= usize::MAX,
            0 <= i <= n,
            rows@.len() == i,
            forall|a: int| 0 <= a < i ==> #[trigger] rows@[a]@.len() == n,
            forall|a: int, b: int|
                0 <= a < i && 0 <= b < n ==> Some(#[trigger] rows@[a]@[b])
                    == spec_resultant_entry(ctrl@, a, b),
            forall|a: int, b: int|
                0 <= a < i && 0 <= b < n ==> (#[trigger] rows@[a]@[b]).wf(),
        decreases n - i,
    {
        let mut row: Vec<LinearFormVector> = Vec::new();
        let mut j: usize = 0;
        while j < n
            invariant
                n == ctrl.len() - 1,
                ctrl.len() >= 2,
                forall|k: int| 0 <= k < ctrl.len() ==> #[trigger] ctrl[k].wf(),
                spec_factorial(n as nat) <= usize::MAX,
                0 <= i < n,
                0 <= j <= n,
                row@.len() == j,
                forall|b: int|
                    0 <= b < j ==> Some(#[trigger] row@[b]) == spec_resultant_entry(
                        ctrl@,
                        i as int,
                        b,
                    ),
                forall|b: int| 0 <= b < j ==> (#[trigger] row@[b]).wf(),
            decreases n - j,
        {
            let e = match resultant_entry(ctrl, i, j) {
                Some(v) => v,
                None => {
                    return Err(ImplicitizeError::Overflow);
                },
            };
            row.push(e);
            j = j + 1;
        }
        rows.push(row);
        i = i + 1;
    }
    let ghost grows = rows@;
    let m = ResultantMatrix { entries: rows };
    proof {
        assert(m.entries@ == grows);
        assert forall|a: int, b: int| 0 <= a < n && 0 <= b < n implies Some(
            #[trigger] m.rows()[a][b],
        ) == spec_resultant_entry(ctrl@, a, b) by {
            assert(grows[a]@.len() == n);
            assert(Some(grows[a]@[b]) == spec_resultant_entry(ctrl@, a, b));
            assert(m.rows()[a] == m.entries@[a]@);
        };
        assert(m.wf());
        assert forall|a: int, b: int|
            0 <= a < ctrl.len() - 1 && 0 <= b < ctrl.len()
                - 1 implies #[trigger] spec_resultant_entry(ctrl@, a, b) is Some by {
            assert(Some(m.rows()[a][b]) == spec_resultant_entry(ctrl@, a, b));
        };
    }
    Ok(m)
}

/// A sequence of rows that forms an `nr` x `nc` rectangle.
pub open spec fn spec_rect(w: Seq<Seq<LinearFormVector>>, nr: int, nc: int) -> bool {
    &&& w.len() == nr
    &&& forall|i: int| 0 <= i < nr ==> #[trigger] w[i].len() == nc
}

/// Every entry of the rows is a valid rational vector.
pub open spec fn spec_entries_wf(w: Seq<Seq<LinearFormVector>>) -> bool {
    forall|i: int, j: int|
        0 <= i < w.len() && 0 <= j < w[i].len() ==> (#[trigger] w[i][j]).wf()
}

/// What one elimination round of the rank reduction comes to.
pub enum ReduceStep {
    /// A step of the exact arithmetic left `i64`.
    Overflow,
    /// The leading 2x2 block is not invertible.
    Singular,
    /// The round succeeded; the working matrix that remains.
    Next(Seq<Seq<LinearFormVector>>),
}

/// The determinant of the leading 2x2 numeric block: the x and y components
/// of the first two entries of column 0.
pub open spec fn spec_block_det(w: Seq<Seq<LinearFormVector>>) -> Option<Rat> {
    spec_mul_sub(w[0][0].x, w[1][0].y, w[1][0].x, w[0][0].y)
}

/// The coefficients `(s, t)` with `s * w[0][0] + t * w[1][0] = w[i][0]` in
/// the x and y components, by Cramer's rule on the 2x2 block with
/// determinant `d`.
pub open spec fn spec_row_coeffs(w: Seq<Seq<LinearFormVector>>, d: Rat, i: int) -> Option<
    (Rat, Rat),
>
    recommends
        d.num != 0,
{
    match (
        spec_mul_sub(w[i][0].x, w[1][0].y, w[1][0].x, w[i][0].y),
        spec_mul_sub(w[0][0].x, w[i][0].y, w[i][0].x, w[0][0].y),
    ) {
        (Some(sn), Some(tn)) => match (spec_div(sn, d), spec_div(tn, d)) {
            (Some(s), Some(t)) => Some((s, t)),
            _ => None,
        },
        _ => None,
    }
}

/// Entry `(i, j)` after eliminating row `i`'s dependence on rows 0 and 1.
pub open spec fn spec_elim_entry(w: Seq<Seq<LinearFormVector>>, d: Rat, i: int, j: int) -> Option<
    LinearFormVector,
> {
    match spec_row_coeffs(w, d, i) {
        Some((s, t)) => spec_elim_vec(w[i][j], w[0][j], w[1][j], s, t),
        None => None,
    }
}

/// One round of rank reduction on the working matrix `w`: invert the leading
/// 2x2 numeric block, eliminate every row below the first two against rows 0
/// and 1, then drop rows 0 and 1 and column 0.
pub open spec fn spec_round(w: Seq<Seq<LinearFormVector>>) -> ReduceStep {
    match spec_block_det(w) {
        None => ReduceStep::Overflow,
        Some(d) => if d.num == 0 {
            ReduceStep::Singular
        } else if exists|i: int|
            2 <= i < w.len() && #[trigger] spec_row_coeffs(w, d, i) is None {
            ReduceStep::Overflow
        } else if exists|i: int, j: int|
            2 <= i < w.len() && 1 <= j < w[0].len() && #[trigger] spec_elim_entry(w, d, i, j)
                is None {
            ReduceStep::Overflow
        } else {
            ReduceStep::Next(
                Seq::new(
                    (w.len() - 2) as nat,
                    |i: int|
                        Seq::new(
                            (w[0].len() - 1) as nat,
                            |j: int| spec_elim_entry(w, d, i + 2, j + 1).unwrap(),
                        ),
                ),
            )
        },
    }
}

/// `rounds` rounds of rank reduction.
pub open spec fn spec_reduce(w: Seq<Seq<LinearFormVector>>, rounds: nat) -> ReduceStep
    decreases rounds,
{
    if rounds == 0 {
        ReduceStep::Next(w)
    } else {
        match spec_round(w) {
            ReduceStep::Next(w2) => spec_reduce(w2, (rounds - 1) as nat),
            step => step,
        }
    }
}

/// One round of block elimination on the working matrix, computed: returns
/// the remaining working matrix (rows 0 and 1 and column 0 dropped).
#[verifier::loop_isolation(false)]
fn reduce_round(w: &Vec<Vec<LinearFormVector>>) -> (r: Result<
    Vec<Vec<LinearFormVector>>,
    ImplicitizeError,
>)
    requires
        w@.len() >= 2,
        spec_rect(lfv_mat_view(w@), w@.len() as int, w@[0]@.len() as int),
        w@[0]@.len() >= 2,
        spec_entries_wf(lfv_mat_view(w@)),
    ensures
        match spec_round(lfv_mat_view(w@)) {
            ReduceStep::Next(w2) => r matches Ok(nw) && lfv_mat_view(nw@) == w2 && spec_rect(
                w2,
                w@.len() - 2,
                w@[0]@.len() - 1,
            ) && spec_entries_wf(w2),
            ReduceStep::Singular => r == Err::<Vec<Vec<LinearFormVector>>, ImplicitizeError>(
                ImplicitizeError::SingularBlock,
            ),
            ReduceStep::Overflow => r == Err::<Vec<Vec<LinearFormVector>>, ImplicitizeError>(
                ImplicitizeError::Overflow,
            ),
        },
{
    let ghost wv = lfv_mat_view(w@);
    let cur_r = w.len();
    let cur_c = w[0].len();
    let w00 = w[0][0];
    let w10 = w[1][0];
    proof {
        assert(w00 == wv[0][0] && w00.wf());
        assert(w10 == wv[1][0] && w10.wf());
    }
    let dd = match mul_sub(&w00.x, &w10.y, &w10.x, &w00.y) {
        Some(v) => v,
        None => {
            return Err(ImplicitizeError::Overflow);
        },
    };
    assert(Some(dd) == spec_block_det(wv));
    if dd.is_zero() {
        return Err(ImplicitizeError::SingularBlock);
    }
    let mut new_w: Vec<Vec<LinearFormVector>> = Vec::new();
    let mut i: usize = 2;
    while i < cur_r
        invariant
            2 <= i <= cur_r,
            new_w@.len() == i - 2,
            forall|a: int| 2 <= a < i ==> #[trigger] spec_row_coeffs(wv, dd, a) is Some,
            forall|a: int| 0 <= a < i - 2 ==> #[trigger] new_w@[a]@.len() == cur_c - 1,
            forall|a: int, b: int|
                0 <= a < i - 2 && 0 <= b < cur_c - 1 ==> Some(#[trigger] new_w@[a]@[b])
                    == spec_elim_entry(wv, dd, a + 2, b + 1),
            forall|a: int, b: int|
                0 <= a < i - 2 && 0 <= b < cur_c - 1 ==> (#[trigger] new_w@[a]@[b]).wf(),
        decreases cur_r - i,
    {
        let wi0 = w[i][0];
        proof {
            assert(wi0 == wv[i as int][0] && wi0.wf());
        }
        let sn = match mul_sub(&wi0.x, &w10.y, &w10.x, &wi0.y) {
            Some(v) => v,
            None => {
                return Err(ImplicitizeError::Overflow);
            },
        };
        let tn = match mul_sub(&w00.x, &wi0.y, &wi0.x, &w00.y) {
            Some(v) => v,
            None => {
                return Err(ImplicitizeError::Overflow);
            },
        };
        let s = match sn.div(&dd) {
            Some(v) => v,
            None => {
                return Err(ImplicitizeError::Overflow);
            },
        };
        let t = match tn.div(&dd) {
            Some(v) => v,
            None => {
                return Err(ImplicitizeError::Overflow);
            },
        };
        assert(Some((s, t)) == spec_row_coeffs(wv, dd, i as int));
        let mut row: Vec<LinearFormVector> = Vec::new();
        let mut j: usize = 1;
        while j < cur_c
            invariant
                2 <= i < cur_r,
                Some((s, t)) == spec_row_coeffs(wv, dd, i as int),
                s.wf(),
                t.wf(),
                1 <= j <= cur_c,
                row@.len() == j - 1,
                forall|b: int|
                    0 <= b < j - 1 ==> Some(#[trigger] row@[b]) == spec_elim_entry(
                        wv,
                        dd,
                        i as int,
                        b + 1,
                    ),
                forall|b: int| 0 <= b < j - 1 ==> (#[trigger] row@[b]).wf(),
            decreases cur_c - j,
        {
            let wij = w[i][j];
            let w0j = w[0][j];
            let w1j = w[1][j];
            proof {
                assert(wij == wv[i as int][j as int] && wij.wf());
                assert(w0j == wv[0][j as int] && w0j.wf());
                assert(w1j == wv[1][j as int] && w1j.wf());
            }
            let e = match wij.elim(&w0j, &w1j, &s, &t) {
                Some(v) => v,
                None => {
                    assert(spec_elim_entry(wv, dd, i as int, j as int) is None);
                    return Err(ImplicitizeError::Overflow);
                },
            };
            assert(Some(e) == spec_elim_entry(wv, dd, i as int, j as int));
            row.push(e);
            j = j + 1;
        }
        new_w.push(row);
        i = i + 1;
    }
    proof {
        assert(!(exists|a: int|
            2 <= a < wv.len() && #[trigger] spec_row_coeffs(wv, dd, a) is None));
        assert forall|a: int, b: int|
            2 <= a < wv.len() && 1 <= b < wv[0].len() implies #[trigger] spec_elim_entry(
            wv,
            dd,
            a,
            b,
        ) is Some by {
            assert(Some(new_w@[a - 2]@[b - 1]) == spec_elim_entry(wv, dd, a, b));
        };
        assert(spec_round(wv) is Next);
        let next = spec_round(wv)->Next_0;
        assert forall|a: int| 0 <= a < cur_r - 2 implies #[trigger] lfv_mat_view(new_w@)[a]
            =~= next[a] by {
            assert(new_w@[a]@.len() == cur_c - 1);
            assert forall|b: int| 0 <= b < cur_c - 1 implies #[trigger] new_w@[a]@[b]
                == next[a][b] by {
                assert(Some(new_w@[a]@[b]) == spec_elim_entry(wv, dd, a + 2, b + 1));
            };
        };
        assert(lfv_mat_view(new_w@) =~~= next);
    }
    Ok(new_w)
}

/// Reduce an even-order resultant matrix to its canonical 2 x (n/2 + 1)
/// form by `n/2 - 1` rounds of block elimination.  A singular leading block
/// (typically from collinear or degenerate control points) is
/// `SingularBlock`; an odd or non-square matrix is not handled by this
/// routine and is `UnsupportedOrder`; `Overflow` comes exactly when the
/// exact arithmetic leaves `i64`.
pub fn reduce_rank(m: &ResultantMatrix) -> (r: Result<ResultantMatrix, ImplicitizeError>)
    requires
        m.wf(),
    ensures
        !(m.nrows() == m.ncols() && m.nrows() % 2 == 0) ==> r == Err::<
            ResultantMatrix,
            ImplicitizeError,
        >(ImplicitizeError::UnsupportedOrder),
        m.nrows() == m.ncols() && m.nrows() % 2 == 0 ==> (match spec_reduce(
            m.rows(),
            (m.nrows() / 2 - 1) as nat,
        ) {
            ReduceStep::Next(w) => r matches Ok(mm) && mm.wf() && mm.rows() == w && mm.nrows() == 2
                && mm.ncols() == m.nrows() / 2 + 1,
            ReduceStep::Singular => r == Err::<ResultantMatrix, ImplicitizeError>(
                ImplicitizeError::SingularBlock,
            ),
            ReduceStep::Overflow => r == Err::<ResultantMatrix, ImplicitizeError>(
                ImplicitizeError::Overflow,
            ),
        }),
{
    let nr = m.num_rows();
    let nc = m.num_cols();
    if !(nr == nc && nr % 2 == 0) {
        return Err(ImplicitizeError::UnsupportedOrder);
    }
    let rounds = nr / 2 - 1;
    // Copy the entries into the working matrix.
    let mut w: Vec<Vec<LinearFormVector>> = Vec::new();
    let mut i: usize = 0;
    while i < nr
        invariant
            m.wf(),
            nr == m.nrows() == m.ncols() == nc,
            0 <= i <= nr,
            w@.len() == i,
            forall|a: int| 0 <= a < i ==> #[trigger] w@[a]@ == m.rows()[a],
        decreases nr - i,
    {
        let mut row: Vec<LinearFormVector> = Vec::new();
        let mut j: usize = 0;
        while j < nc
            invariant
                m.wf(),
                nr == m.nrows() == m.ncols() == nc,
                0 <= i < nr,
                0 <= j <= nc,
                row@.len() == j,
                forall|b: int| 0 <= b < j ==> #[trigger] row@[b] == m.rows()[i as int][b],
            decreases nc - j,
        {
            row.push(m.entry(i, j));
            j = j + 1;
        }
        proof {
            assert(row@ =~= m.rows()[i as int]);
        }
        w.push(row);
        i = i + 1;
    }
    proof {
        assert(lfv_mat_view(w@) =~~= m.rows());
        assert(spec_rect(m.rows(), nr as int, nc as int));
        assert forall|a: int, b: int|
            0 <= a < m.rows().len() && 0 <= b < m.rows()[a].len() implies (
        #[trigger] m.rows()[a][b]).wf() by {
            assert(m.rows()[a].len() == nc);
        };
        assert(spec_entries_wf(m.rows()));
    }
    let mut k: usize = 0;
    while k < rounds
        invariant
            m.wf(),
            nr == m.nrows() == m.ncols() == nc,
            nr % 2 == 0,
            nr >= 2,
            rounds == nr / 2 - 1,
            0 <= k <= rounds,
            spec_rect(lfv_mat_view(w@), nr - 2 * k, nc - k),
            w@.len() == nr - 2 * k,
            w@.len() >= 2,
            spec_entries_wf(lfv_mat_view(w@)),
            spec_reduce(m.rows(), rounds as nat) == spec_reduce(
                lfv_mat_view(w@),
                (rounds - k) as nat,
            ),
        decreases rounds - k,
    {
        proof {
            assert(lfv_mat_view(w@)[0] == w@[0]@);
            assert(lfv_mat_view(w@)[0].len() == nc - k);
        }
        let ghost wv = lfv_mat_view(w@);
        let new_w = match reduce_round(&w) {
            Ok(v) => v,
            Err(e) => {
                proof {
                    assert(spec_reduce(wv, (rounds - k) as nat) == spec_round(wv));
                }
                return Err(e);
            },
        };
        proof {
            let next = spec_round(wv)->Next_0;
            assert(spec_reduce(wv, (rounds - k) as nat) == spec_reduce(
                next,
                (rounds - k - 1) as nat,
            ));
        }
        w = new_w;
        k = k + 1;
    }
    let ghost wfinal = lfv_mat_view(w@);
    let mm = ResultantMatrix { entries: w };
    proof {
        assert(mm.rows() == wfinal);
        assert(spec_reduce(m.rows(), rounds as nat) == ReduceStep::Next(wfinal));
        assert(wfinal[0].len() == nc - rounds);
        assert(mm.ncols() == wfinal[0].len());
        assert forall|a: int|
            0 <= a < mm.nrows() implies #[trigger] mm.entries@[a]@.len() == mm.ncols() by {
            assert(wfinal[a].len() == nc - rounds);
        };
        assert forall|a: int, b: int|
            0 <= a < mm.nrows() && 0 <= b < mm.ncols() implies (
        #[trigger] mm.entries@[a]@[b]).wf() by {
            assert(wfinal[a].len() == nc - rounds);
            assert(wfinal[a][b].wf());
        };
        assert(mm.wf());
    }
    Ok(mm)
}

/// Every entry of the matrix, dotted with `p`, fits in the exact arithmetic.
pub open spec fn spec_all_dots_fit(rows: Seq<Seq<LinearFormVector>>, p: LinearFormVector) -> bool {
    forall|i: int, j: int|
        0 <= i < rows.len() && 0 <= j < rows[0].len() ==> #[trigger] spec_dot(rows[i][j], p)
            is Some
}

/// The numeric matrix of the linear forms evaluated at `p`: entry `(i, j)`
/// is the dot product of `rows[i][j]` with `p`.
pub open spec fn spec_numeric_matrix(rows: Seq<Seq<LinearFormVector>>, p: LinearFormVector) -> Seq<
    Seq<Rat>,
> {
    Seq::new(
        rows.len(),
        |i: int| Seq::new(rows[0].len(), |j: int| spec_dot(rows[i][j], p).unwrap()),
    )
}

/// The deviation of a reduced 2x3 matrix at `p`: dot every entry with `p`,
/// take the three signed 2x2 minors (dropping the last, middle and first
/// column), and return the determinant of the 2x2 matrix they form.
pub open spec fn spec_reduced_deviation(rows: Seq<Seq<LinearFormVector>>, p: LinearFormVector)
    -> Option<Rat>
    recommends
        rows.len() == 2,
        rows[0].len() == 3,
        rows[1].len() == 3,
{
    match (
        spec_dot(rows[0][0], p),
        spec_dot(rows[0][1], p),
        spec_dot(rows[0][2], p),
        spec_dot(rows[1][0], p),
        spec_dot(rows[1][1], p),
        spec_dot(rows[1][2], p),
    ) {
        (Some(a), Some(b), Some(c), Some(d), Some(e), Some(f)) => {
            match (spec_mul_sub(a, e, b, d), spec_mul_sub(a, f, c, d), spec_mul_sub(b, f, c, e)) {
                (Some(d00), Some(d01), Some(d11)) => spec_mul_sub(d00, d11, d01, d01),
                _ => None,
            }
        },
        _ => None,
    }
}

/// Evaluate the matrix at the homogeneous point `p` and return the scalar
/// deviation: for a square matrix, the determinant of the numeric matrix of
/// dot products; for a reduced 2x3 matrix, the 2x2-minor contraction.  The
/// deviation vanishes exactly where `p` satisfies the implicit equation the
/// matrix represents.  Any other shape is `UnsupportedOrder`; `Overflow`
/// comes exactly when the exact arithmetic leaves `i64`.
pub fn calc_deviation(m: &ResultantMatrix, p: &LinearFormVector) -> (r: Result<
    Rat,
    ImplicitizeError,
>)
    requires
        m.wf(),
        p.wf(),
    ensures
        m.nrows() == m.ncols() && !spec_all_dots_fit(m.rows(), *p) ==> r == Err::<
            Rat,
            ImplicitizeError,
        >(ImplicitizeError::Overflow),
        m.nrows() == m.ncols() && spec_all_dots_fit(m.rows(), *p) ==> r == (match spec_det(
            spec_numeric_matrix(m.rows(), *p),
        ) {
            Some(d) => Ok::<Rat, ImplicitizeError>(d),
            None => Err::<Rat, ImplicitizeError>(ImplicitizeError::Overflow),
        }),
        m.nrows() != m.ncols() && m.nrows() == 2 && m.ncols() == 3 ==> r == (
        match spec_reduced_deviation(m.rows(), *p) {
            Some(d) => Ok::<Rat, ImplicitizeError>(d),
            None => Err::<Rat, ImplicitizeError>(ImplicitizeError::Overflow),
        }),
        m.nrows() != m.ncols() && !(m.nrows() == 2 && m.ncols() == 3) ==> r == Err::<
            Rat,
            ImplicitizeError,
        >(ImplicitizeError::UnsupportedOrder),
        r matches Ok(v) ==> v.wf(),
{
    let nr = m.num_rows();
    let nc = m.num_cols();
    if nr == nc {
        let ghost rows = m.rows();
        let mut nm: Vec<Vec<Rat>> = Vec::new();
        let mut i: usize = 0;
        while i < nr
            invariant
                m.wf(),
                p.wf(),
                rows == m.rows(),
                nr == m.nrows() == m.ncols() == nc,
                0 <= i <= nr,
                nm@.len() == i,
                forall|a: int| 0 <= a < i ==> #[trigger] nm@[a]@.len() == nr,
                forall|a: int, b: int|
                    0 <= a < i && 0 <= b < nr ==> Some(#[trigger] nm@[a]@[b]) == spec_dot(
                        rows[a][b],
                        *p,
                    ),
                forall|a: int, b: int| 0 <= a < i && 0 <= b < nr ==> (#[trigger] nm@[a]@[b]).wf(),
            decreases nr - i,
        {
            let mut row: Vec<Rat> = Vec::new();
            let mut j: usize = 0;
            while j < nc
                invariant
                    m.wf(),
                    p.wf(),
                    rows == m.rows(),
                    nr == m.nrows() == m.ncols() == nc,
                    0 <= i < nr,
                    0 <= j <= nc,
                    row@.len() == j,
                    forall|b: int|
                        0 <= b < j ==> Some(#[trigger] row@[b]) == spec_dot(
                            rows[i as int][b],
                            *p,
                        ),
                    forall|b: int| 0 <= b < j ==> (#[trigger] row@[b]).wf(),
                decreases nc - j,
            {
                let e = match m.entry(i, j).dot(p) {
                    Some(v) => v,
                    None => {
                        return Err(ImplicitizeError::Overflow);
                    },
                };
                row.push(e);
                j = j + 1;
            }
            nm.push(row);
            i = i + 1;
        }
        proof {
            assert forall|a: int, b: int|
                0 <= a < rows.len() && 0 <= b < rows[0].len() implies #[trigger] spec_dot(
                rows[a][b],
                *p,
            ) is Some by {
                assert(Some(nm@[a]@[b]) == spec_dot(rows[a][b], *p));
            };
            assert(spec_all_dots_fit(rows, *p));
            assert forall|a: int| 0 <= a < nr implies #[trigger] mat_view(nm@)[a]
                =~= spec_numeric_matrix(rows, *p)[a] by {
                assert(nm@[a]@.len() == nr);
            };
            assert(mat_view(nm@) =~~= spec_numeric_matrix(rows, *p));
            assert(wf_square(mat_view(nm@)));
        }
        match det(&nm) {
            Some(d) => Ok(d),
            None => Err(ImplicitizeError::Overflow),
        }
    } else if nr == 2 && nc == 3 {
        let a = match m.entry(0, 0).dot(p) {
            Some(v) => v,
            None => {
                return Err(ImplicitizeError::Overflow);
            },
        };
        let b = match m.entry(0, 1).dot(p) {
            Some(v) => v,
            None => {
                return Err(ImplicitizeError::Overflow);
            },
        };
        let c = match m.entry(0, 2).dot(p) {
            Some(v) => v,
            None => {
                return Err(ImplicitizeError::Overflow);
            },
        };
        let d = match m.entry(1, 0).dot(p) {
            Some(v) => v,
            None => {
                return Err(ImplicitizeError::Overflow);
            },
        };
        let e = match m.entry(1, 1).dot(p) {
            Some(v) => v,
            None => {
                return Err(ImplicitizeError::Overflow);
            },
        };
        let f = match m.entry(1, 2).dot(p) {
            Some(v) => v,
            None => {
                return Err(ImplicitizeError::Overflow);
            },
        };
        let d00 = match mul_sub(&a, &e, &b, &d) {
            Some(v) => v,
            None => {
                return Err(ImplicitizeError::Overflow);
            },
        };
        let d01 = match mul_sub(&a, &f, &c, &d) {
            Some(v) => v,
            None => {
                return Err(ImplicitizeError::Overflow);
            },
        };
        let d11 = match mul_sub(&b, &f, &c, &e) {
            Some(v) => v,
            None => {
                return Err(ImplicitizeError::Overflow);
            },
        };
        match mul_sub(&d00, &d11, &d01, &d01) {
            Some(v) => Ok(v),
            None => Err(ImplicitizeError::Overflow),
        }
    } else {
        Err(ImplicitizeError::UnsupportedOrder)
    }
}

/// The exact rational identity `s * a + t * b == c`, stated over the
/// fraction pairs.
pub open spec fn spec_combination_is(s: Rat, t: Rat, a: Rat, b: Rat, c: Rat) -> bool {
    frac_eq(
        s.num * a.num * (t.den * b.den) + t.num * b.num * (s.den * a.den),
        (s.den * a.den) * (t.den * b.den),
        c.num as int,
        c.den as int,
    )
}

/// The value of `spec_mul_sub(p, q, r, s)` against scaled targets: when each
/// operand stands for `pp/ll`, `qq/ll`, `rr/ll`, `ss/ll`, the result stands
/// for `(pp*qq - rr*ss) / (ll*ll)`.
proof fn lemma_mul_sub_scaled(
    p: Rat,
    q: Rat,
    r: Rat,
    s: Rat,
    pp: int,
    qq: int,
    rr: int,
    ss: int,
    ll: int,
)
    requires
        p.wf(),
        q.wf(),
        r.wf(),
        s.wf(),
        ll >= 1,
        frac_eq(p.num as int, p.den as int, pp, ll),
        frac_eq(q.num as int, q.den as int, qq, ll),
        frac_eq(r.num as int, r.den as int, rr, ll),
        frac_eq(s.num as int, s.den as int, ss, ll),
        spec_mul_sub(p, q, r, s) is Some,
    ensures
        spec_mul_sub(p, q, r, s).unwrap().wf(),
        frac_eq(
            spec_mul_sub(p, q, r, s).unwrap().num as int,
            spec_mul_sub(p, q, r, s).unwrap().den as int,
            pp * qq - rr * ss,
            ll * ll,
        ),
{
    let m1 = spec_mul(p, q).unwrap();
    let m2 = spec_mul(r, s).unwrap();
    lemma_mul_value(p, q);
    lemma_mul_value(r, s);
    lemma_frac_mul_subst(
        p.num as int, p.den as int, q.num as int, q.den as int, pp, ll, qq, ll);
    lemma_frac_mul_subst(
        r.num as int, r.den as int, s.num as int, s.den as int, rr, ll, ss, ll);
    assert(p.den * q.den != 0 && r.den * s.den != 0 && m1.den * m2.den != 0 && ll * ll != 0
        && (ll * ll) * (ll * ll) != 0) by (nonlinear_arith)
        requires
            p.den >= 1,
            q.den >= 1,
            r.den >= 1,
            s.den >= 1,
            m1.den >= 1,
            m2.den >= 1,
            ll >= 1,
    ;
    lemma_frac_eq_trans(
        m1.num as int,
        m1.den as int,
        p.num * q.num,
        p.den * q.den,
        pp * qq,
        ll * ll,
    );
    lemma_frac_eq_trans(
        m2.num as int,
        m2.den as int,
        r.num * s.num,
        r.den * s.den,
        rr * ss,
        ll * ll,
    );
    let m = spec_sub(m1, m2).unwrap();
    lemma_sub_value(m1, m2);
    lemma_frac_sub_subst(
        m1.num as int,
        m1.den as int,
        m2.num as int,
        m2.den as int,
        pp * qq,
        ll * ll,
        rr * ss,
        ll * ll,
    );
    lemma_frac_eq_trans(
        m.num as int,
        m.den as int,
        m1.num * m2.den - m2.num * m1.den,
        m1.den * m2.den,
        (pp * qq) * (ll * ll) - (rr * ss) * (ll * ll),
        (ll * ll) * (ll * ll),
    );
    assert((pp * qq) * (ll * ll) - (rr * ss) * (ll * ll) == (pp * qq - rr * ss) * (ll * ll))
        by (nonlinear_arith);
    lemma_frac_scale(pp * qq - rr * ss, ll * ll, ll * ll);
    lemma_frac_eq_trans(
        m.num as int,
        m.den as int,
        (pp * qq - rr * ss) * (ll * ll),
        (ll * ll) * (ll * ll),
        pp * qq - rr * ss,
        ll * ll,
    );
}

/// The value of `spec_div(a, b)` against targets over a common denominator:
/// when `a` stands for `na/dd` and `b` for `nb/dd`, the quotient stands for
/// `na/nb`.
proof fn lemma_div_scaled(a: Rat, b: Rat, na: int, nb: int, dd: int)
    requires
        a.wf(),
        b.wf(),
        b.num != 0,
        spec_div(a, b) is Some,
        dd >= 1,
        nb != 0,
        frac_eq(a.num as int, a.den as int, na, dd),
        frac_eq(b.num as int, b.den as int, nb, dd),
    ensures
        spec_div(a, b).unwrap().wf(),
        frac_eq(spec_div(a, b).unwrap().num as int, spec_div(a, b).unwrap().den as int, na, nb),
{
    let q = spec_div(a, b).unwrap();
    lemma_div_value(a, b);
    assert(frac_eq(b.den as int, b.num as int, dd, nb)) by (nonlinear_arith)
        requires
            b.num * dd == nb * b.den,
    ;
    lemma_frac_mul_subst(a.num as int, a.den as int, b.den as int, b.num as int, na, dd, dd, nb);
    assert(a.den * b.num != 0 && dd * nb != 0) by (nonlinear_arith)
        requires
            a.den >= 1,
            b.num != 0,
            dd >= 1,
            nb != 0,
    ;
    lemma_frac_eq_trans(
        q.num as int,
        q.den as int,
        a.num * b.den,
        a.den * b.num,
        na * dd,
        dd * nb,
    );
    assert(frac_eq(na * dd, dd * nb, na, nb)) by (nonlinear_arith);
    lemma_frac_eq_trans(q.num as int, q.den as int, na * dd, dd * nb, na, nb);
}

/// When `s`, `t` stand for `ns/dd`, `nt/dd`, the vectors' components for
/// `aa0/ll`, `aa1/ll`, `aai/ll`, and the scaled identity
/// `ns*aa0 + nt*aa1 == aai*dd` holds, then `s*a0 + t*a1 == ai` exactly.
proof fn lemma_combination_value(
    s: Rat,
    t: Rat,
    a0: Rat,
    a1: Rat,
    ai: Rat,
    ns: int,
    nt: int,
    dd: int,
    aa0: int,
    aa1: int,
    aai: int,
    ll: int,
)
    requires
        s.wf(),
        t.wf(),
        a0.wf(),
        a1.wf(),
        ai.wf(),
        dd != 0,
        ll >= 1,
        frac_eq(s.num as int, s.den as int, ns, dd),
        frac_eq(t.num as int, t.den as int, nt, dd),
        frac_eq(a0.num as int, a0.den as int, aa0, ll),
        frac_eq(a1.num as int, a1.den as int, aa1, ll),
        frac_eq(ai.num as int, ai.den as int, aai, ll),
        ns * aa0 + nt * aa1 == aai * dd,
    ensures
        spec_combination_is(s, t, a0, a1, ai),
{
    lemma_frac_mul_subst(s.num as int, s.den as int, a0.num as int, a0.den as int, ns, dd, aa0, ll);
    lemma_frac_mul_subst(t.num as int, t.den as int, a1.num as int, a1.den as int, nt, dd, aa1, ll);
    lemma_frac_add_subst(
        s.num * a0.num,
        s.den * a0.den,
        t.num * a1.num,
        t.den * a1.den,
        ns * aa0,
        dd * ll,
        nt * aa1,
        dd * ll,
    );
    assert((ns * aa0) * (dd * ll) + (nt * aa1) * (dd * ll) == (aai * dd) * (dd * ll))
        by (nonlinear_arith)
        requires
            ns * aa0 + nt * aa1 == aai * dd,
    ;
    assert(frac_eq((aai * dd) * (dd * ll), (dd * ll) * (dd * ll), aai, ll)) by (nonlinear_arith);
    assert((dd * ll) * (dd * ll) != 0 && ll != 0) by (nonlinear_arith)
        requires
            dd != 0,
            ll >= 1,
    ;
    lemma_frac_eq_trans(
        s.num * a0.num * (t.den * a1.den) + t.num * a1.num * (s.den * a0.den),
        (s.den * a0.den) * (t.den * a1.den),
        (aai * dd) * (dd * ll),
        (dd * ll) * (dd * ll),
        aai,
        ll,
    );
    assert(frac_eq(aai, ll, ai.num as int, ai.den as int));
    lemma_frac_eq_trans(
        s.num * a0.num * (t.den * a1.den) + t.num * a1.num * (s.den * a0.den),
        (s.den * a0.den) * (t.den * a1.den),
        aai,
        ll,
        ai.num as int,
        ai.den as int,
    );
}

/// The invariant of the rank reducer: the coefficients `(s, t)` of an
/// elimination round solve the leading 2x2 system exactly, so the x and y
/// components of `w[i][0] - s * w[0][0] - t * w[1][0]` — the entries of the
/// eliminated column in the eliminated rows — are exactly zero.
pub proof fn lemma_eliminated_column_zero(
    w: Seq<Seq<LinearFormVector>>,
    d: Rat,
    i: int,
    s: Rat,
    t: Rat,
)
    requires
        w.len() >= 2,
        2 <= i < w.len(),
        w[0].len() >= 1,
        w[1].len() >= 1,
        w[i].len() >= 1,
        w[0][0].wf(),
        w[1][0].wf(),
        w[i][0].wf(),
        spec_block_det(w) == Some(d),
        d.num != 0,
        spec_row_coeffs(w, d, i) == Some((s, t)),
    ensures
        spec_combination_is(s, t, w[0][0].x, w[1][0].x, w[i][0].x),
        spec_combination_is(s, t, w[0][0].y, w[1][0].y, w[i][0].y),
{
    let x0 = w[0][0].x;
    let y0 = w[0][0].y;
    let x1 = w[1][0].x;
    let y1 = w[1][0].y;
    let xi = w[i][0].x;
    let yi = w[i][0].y;
    let dpair0 = x0.den as int * y0.den;
    let dpair1 = x1.den as int * y1.den;
    let dpairi = xi.den as int * yi.den;
    let ll = dpair0 * (dpair1 * dpairi);
    assert(dpair0 >= 1 && dpair1 >= 1 && dpairi >= 1) by (nonlinear_arith)
        requires
            x0.den >= 1,
            y0.den >= 1,
            x1.den >= 1,
            y1.den >= 1,
            xi.den >= 1,
            yi.den >= 1,
            dpair0 == x0.den as int * y0.den,
            dpair1 == x1.den as int * y1.den,
            dpairi == xi.den as int * yi.den,
    ;
    assert(ll >= 1) by (nonlinear_arith)
        requires
            dpair0 >= 1,
            dpair1 >= 1,
            dpairi >= 1,
            ll == dpair0 * (dpair1 * dpairi),
    ;
    // The six coordinates over the common denominator ll.
    let xx0 = x0.num * (y0.den * (dpair1 * dpairi));
    let yy0 = y0.num * (x0.den * (dpair1 * dpairi));
    let xx1 = x1.num * (y1.den * (dpair0 * dpairi));
    let yy1 = y1.num * (x1.den * (dpair0 * dpairi));
    let xxi = xi.num * (yi.den * (dpair0 * dpair1));
    let yyi = yi.num * (xi.den * (dpair0 * dpair1));
    assert(frac_eq(x0.num as int, x0.den as int, xx0, ll)) by (nonlinear_arith)
        requires
            ll == (x0.den as int * y0.den) * (dpair1 * dpairi),
            xx0 == x0.num * (y0.den * (dpair1 * dpairi)),
    ;
    assert(frac_eq(y0.num as int, y0.den as int, yy0, ll)) by (nonlinear_arith)
        requires
            ll == (x0.den as int * y0.den) * (dpair1 * dpairi),
            yy0 == y0.num * (x0.den * (dpair1 * dpairi)),
    ;
    assert(frac_eq(x1.num as int, x1.den as int, xx1, ll)) by (nonlinear_arith)
        requires
            ll == dpair0 * ((x1.den as int * y1.den) * dpairi),
            xx1 == x1.num * (y1.den * (dpair0 * dpairi)),
    ;
    assert(frac_eq(y1.num as int, y1.den as int, yy1, ll)) by (nonlinear_arith)
        requires
            ll == dpair0 * ((x1.den as int * y1.den) * dpairi),
            yy1 == y1.num * (x1.den * (dpair0 * dpairi)),
    ;
    assert(frac_eq(xi.num as int, xi.den as int, xxi, ll)) by (nonlinear_arith)
        requires
            ll == dpair0 * (dpair1 * (xi.den as int * yi.den)),
            xxi == xi.num * (yi.den * (dpair0 * dpair1)),
    ;
    assert(frac_eq(yi.num as int, yi.den as int, yyi, ll)) by (nonlinear_arith)
        requires
            ll == dpair0 * (dpair1 * (xi.den as int * yi.den)),
            yyi == yi.num * (xi.den * (dpair0 * dpair1)),
    ;
    // Values of the two Cramer numerators and the block determinant.
    let sn = spec_mul_sub(xi, y1, x1, yi).unwrap();
    let tn = spec_mul_sub(x0, yi, xi, y0).unwrap();
    let nss = xxi * yy1 - xx1 * yyi;
    let ntt = xx0 * yyi - xxi * yy0;
    let ddd = xx0 * yy1 - xx1 * yy0;
    lemma_mul_sub_scaled(xi, y1, x1, yi, xxi, yy1, xx1, yyi, ll);
    lemma_mul_sub_scaled(x0, yi, xi, y0, xx0, yyi, xxi, yy0, ll);
    lemma_mul_sub_scaled(x0, y1, x1, y0, xx0, yy1, xx1, yy0, ll);
    // The block determinant is nonzero in scaled terms too.
    assert(ddd != 0) by (nonlinear_arith)
        requires
            d.num * (ll * ll) == ddd * d.den,
            d.num != 0,
            d.den >= 1,
            ll >= 1,
    ;
    assert(ll * ll >= 1) by (nonlinear_arith)
        requires
            ll >= 1,
    ;
    lemma_div_scaled(sn, d, nss, ddd, ll * ll);
    lemma_div_scaled(tn, d, ntt, ddd, ll * ll);
    // Cramer's identities over the scaled coordinates.
    assert(nss * xx0 + ntt * xx1 == xxi * ddd) by (nonlinear_arith)
        requires
            nss == xxi * yy1 - xx1 * yyi,
            ntt == xx0 * yyi - xxi * yy0,
            ddd == xx0 * yy1 - xx1 * yy0,
    ;
    assert(nss * yy0 + ntt * yy1 == yyi * ddd) by (nonlinear_arith)
        requires
            nss == xxi * yy1 - xx1 * yyi,
            ntt == xx0 * yyi - xxi * yy0,
            ddd == xx0 * yy1 - xx1 * yy0,
    ;
    lemma_combination_value(s, t, x0, x1, xi, nss, ntt, ddd, xx0, xx1, xxi, ll);
    lemma_combination_value(s, t, y0, y1, yi, nss, ntt, ddd, yy0, yy1, yyi, ll);
}

/// Purity of the builder: the entries of the resultant matrix are functions
/// of the control points alone, and the contract of `implicitize_bezier`
/// pins its result to them entry by entry, so identical inputs yield
/// bit-identical matrices.
pub proof fn lemma_implicitize_deterministic(
    c1: Seq<LinearFormVector>,
    c2: Seq<LinearFormVector>,
    i: int,
    j: int,
)
    requires
        c1 == c2,
    ensures
        spec_resultant_entry(c1, i, j) == spec_resultant_entry(c2, i, j),
{
}

/// Purity of the evaluator: the deviation is a function of the matrix and
/// the query point alone, and the contract of `calc_deviation` pins its
/// result to it, so identical inputs yield bit-identical deviations.
pub proof fn lemma_deviation_deterministic(
    r1: Seq<Seq<LinearFormVector>>,
    r2: Seq<Seq<LinearFormVector>>,
    p1: LinearFormVector,
    p2: LinearFormVector,
)
    requires
        r1 == r2,
        p1 == p2,
    ensures
        spec_det(spec_numeric_matrix(r1, p1)) == spec_det(spec_numeric_matrix(r2, p2)),
        spec_reduced_deviation(r1, p1) == spec_reduced_deviation(r2, p2),
{
}

} // verus!
