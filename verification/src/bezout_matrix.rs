//! The classical Bezout matrix of two polynomials over the integers, given
//! by their coefficient rows.

use vstd::prelude::*;

verus! {

/// Bound on the coefficients `gen_bezout_matrix` accepts, so that every
/// partial sum provably stays inside `i128`.
pub open spec fn coef_bound() -> int {
    0x200_0000_0000_0000
}

/// The `k`-th term of entry `(i, j)`:
/// `p[j+k] * q[i-k] - p[i-k] * q[j+k]`.
pub open spec fn spec_bezout_term(p: Seq<i128>, q: Seq<i128>, i: int, j: int, k: int) -> int {
    p[j + k] * q[i - k] - p[i - k] * q[j + k]
}

/// The sum of the first `c` terms of entry `(i, j)`.
pub open spec fn spec_bezout_sum(p: Seq<i128>, q: Seq<i128>, i: int, j: int, c: int) -> int
    decreases c,
{
    if c <= 0 {
        0
    } else {
        spec_bezout_sum(p, q, i, j, c - 1) + spec_bezout_term(p, q, i, j, c - 1)
    }
}

/// Entry `(i, j)` of the Bezout matrix of `p` and `q`: the terms run over
/// `k` up to the smaller of `i` and `n - 1 - j`.
pub open spec fn spec_bezout_entry(p: Seq<i128>, q: Seq<i128>, i: int, j: int) -> int {
    let n = p.len() as int;
    let ii = n - 1 - j;
    let cnt = 1 + if i < ii {
        i
    } else {
        ii
    };
    spec_bezout_sum(p, q, i, j, cnt)
}

/// Every coefficient within the accepted bound.
pub open spec fn coefs_bounded(p: Seq<i128>) -> bool {
    forall|a: int| 0 <= a < p.len() ==> -coef_bound() <= #[trigger] p[a] <= coef_bound()
}

/// Partial sums of Bezout terms grow at most linearly in the bound on one
/// term.
proof fn lemma_bezout_sum_bound(p: Seq<i128>, q: Seq<i128>, i: int, j: int, c: int)
    requires
        coefs_bounded(p),
        coefs_bounded(q),
        p.len() == q.len(),
        0 <= i < p.len(),
        0 <= j < p.len(),
        0 <= c <= p.len(),
        c <= i + 1,
        c <= p.len() - j,
    ensures
        -(c * 2 * coef_bound() * coef_bound()) <= spec_bezout_sum(p, q, i, j, c) <= c * 2
            * coef_bound() * coef_bound(),
    decreases c,
{
    if c <= 0 {
    } else {
        lemma_bezout_sum_bound(p, q, i, j, c - 1);
        let b = coef_bound();
        assert(-(b * b) <= p[j + c - 1] * q[i - c + 1] <= b * b) by (nonlinear_arith)
            requires
                -b <= p[j + c - 1] <= b,
                -b <= q[i - c + 1] <= b,
        ;
        assert(-(b * b) <= p[i - c + 1] * q[j + c - 1] <= b * b) by (nonlinear_arith)
            requires
                -b <= p[i - c + 1] <= b,
                -b <= q[j + c - 1] <= b,
        ;
        assert((c - 1) * 2 * b * b + 2 * (b * b) == c * 2 * b * b) by (nonlinear_arith);
    }
}

/// The Bezout matrix of the two polynomials whose coefficient rows are `p`
/// and `q`: the `n x n` matrix (`n` the common length) with entry `(i, j)`
/// equal to `sum_k p[j+k] * q[i-k] - p[i-k] * q[j+k]`, `k` up to the smaller
/// of `i` and `n - 1 - j`.
#[verifier::loop_isolation(false)]
pub fn gen_bezout_matrix(p: &Vec<i128>, q: &Vec<i128>) -> (bm: Vec<Vec<i128>>)
    requires
        p.len() == q.len(),
        1 <= p.len() <= 1000,
        coefs_bounded(p@),
        coefs_bounded(q@),
    ensures
        bm@.len() == p.len(),
        forall|i: int| 0 <= i < p.len() ==> (#[trigger] bm@[i])@.len() == p.len(),
        forall|i: int, j: int|
            0 <= i < p.len() && 0 <= j < p.len() ==> #[trigger] bm@[i]@[j] == spec_bezout_entry(
                p@,
                q@,
                i,
                j,
            ),
{
    let n = p.len();
    let mut bm: Vec<Vec<i128>> = Vec::new();
    let mut i: usize = 0;
    while i < n
        invariant
            bm@.len() == i,
            0 <= i <= n,
            forall|a: int| 0 <= a < i ==> (#[trigger] bm@[a])@.len() == n,
            forall|a: int, b: int|
                0 <= a < i && 0 <= b < n ==> #[trigger] bm@[a]@[b] == spec_bezout_entry(
                    p@,
                    q@,
                    a,
                    b,
                ),
        decreases n - i,
    {
        let mut row: Vec<i128> = Vec::new();
        let mut j: usize = 0;
        while j < n
            invariant
                0 <= i < n,
                row@.len() == j,
                0 <= j <= n,
                forall|b: int|
                    0 <= b < j ==> #[trigger] row@[b] == spec_bezout_entry(p@, q@, i as int, b),
            decreases n - j,
        {
            let ii = n - 1 - j;
            let cnt = if i < ii {
                i
            } else {
                ii
            } + 1;
            let mut val: i128 = 0;
            let mut k: usize = 0;
            while k < cnt
                invariant
                    0 <= i < n,
                    0 <= j < n,
                    cnt <= n,
                    cnt == spec_bezout_entry_cnt(p@, i as int, j as int),
                    0 <= k <= cnt,
                    cnt <= i + 1,
                    cnt <= n - j,
                    val == spec_bezout_sum(p@, q@, i as int, j as int, k as int),
                decreases cnt - k,
            {
                proof {
                    lemma_bezout_sum_bound(p@, q@, i as int, j as int, k as int);
                    let b = coef_bound();
                    assert(-(b * b) <= p@[j + k] * q@[i - k] <= b * b) by (nonlinear_arith)
                        requires
                            -b <= p@[j + k] <= b,
                            -b <= q@[i - k] <= b,
                    ;
                    assert(-(b * b) <= p@[i - k] * q@[j + k] <= b * b) by (nonlinear_arith)
                        requires
                            -b <= p@[i - k] <= b,
                            -b <= q@[j + k] <= b,
                    ;
                    assert(k * 2 * b * b <= 1000 * 2 * b * b) by (nonlinear_arith)
                        requires
                            0 <= k <= 1000,
                    ;
                }
                let v1 = j + k;
                let v2 = i - k;
                val = val + (p[v1] * q[v2] - p[v2] * q[v1]);
                k = k + 1;
            }
            row.push(val);
            j = j + 1;
        }
        bm.push(row);
        i = i + 1;
    }
    bm
}

/// The number of terms of entry `(i, j)`.
pub open spec fn spec_bezout_entry_cnt(p: Seq<i128>, i: int, j: int) -> int {
    let n = p.len() as int;
    let ii = n - 1 - j;
    1 + if i < ii {
        i
    } else {
        ii
    }
}

} // verus!
