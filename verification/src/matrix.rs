//! Square matrices stored row by row.
use vstd::prelude::*;

verus! {

/// The place of row `i`, column `j` in a row-major matrix with `n` columns.
pub open spec fn cell(n: int, i: int, j: int) -> int {
    i * n + j
}

/// Every cell lies inside a matrix with enough rows.
pub proof fn lemma_cell_bound(rows: int, n: int, i: int, j: int)
    requires
        0 <= i < rows,
        0 <= j < n,
    ensures
        0 <= cell(n, i, j) < rows * n,
{
    assert(0 <= i * n + j < rows * n) by (nonlinear_arith)
        requires
            0 <= i < rows,
            0 <= j < n,
    ;
}

/// Different cells have different places.
pub proof fn lemma_cell_injective(n: int, i: int, j: int, p: int, q: int)
    requires
        0 <= j < n,
        0 <= q < n,
        cell(n, i, j) == cell(n, p, q),
    ensures
        i == p,
        j == q,
{
    assert(i == p) by (nonlinear_arith)
        requires
            0 <= j < n,
            0 <= q < n,
            i * n + j == p * n + q,
    ;
}

/// Every place is that of the cell at its quotient and remainder.
pub proof fn lemma_cell_split(rows: int, n: int, k: int)
    requires
        0 < n,
        0 <= k < rows * n,
    ensures
        0 <= k / n < rows,
        0 <= k % n < n,
        k == cell(n, k / n, k % n),
{
    vstd::arithmetic::div_mod::lemma_fundamental_div_mod(k, n);
    assert(n * (k / n) == (k / n) * n) by (nonlinear_arith);
    assert(0 <= k / n < rows) by (nonlinear_arith)
        requires
            0 < n,
            0 <= k < rows * n,
            k == n * (k / n) + k % n,
            0 <= k % n < n,
    ;
}

/// A vector of `len` copies of `v`.
pub(crate) fn filled<T: Copy>(len: usize, v: T) -> (r: Vec<T>)
    ensures
        r@ == Seq::new(len as nat, |i: int| v),
{
    let mut r: Vec<T> = Vec::new();
    let mut i: usize = 0;
    while i < len
        invariant
            i <= len,
            r@ == Seq::new(i as nat, |k: int| v),
        decreases len - i,
    {
        r.push(v);
        i = i + 1;
    }
    r
}

/// A copy of `v`.
pub(crate) fn copied<T: Copy>(v: &Vec<T>) -> (r: Vec<T>)
    ensures
        r@ == v@,
{
    let mut r: Vec<T> = Vec::new();
    let mut i: usize = 0;
    while i < v.len()
        invariant
            i <= v.len(),
            r@ == v@.take(i as int),
        decreases v.len() - i,
    {
        r.push(v[i]);
        i = i + 1;
    }
    r
}

} // verus!
