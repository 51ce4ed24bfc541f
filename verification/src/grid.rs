//! Row-major addressing of a flattened matrix.
//!
//! A matrix of `n` columns is stored row after row in one sequence: the cell
//! in row `r` and column `c` lies at position `r * n + c`.

use vstd::prelude::*;
use vstd::arithmetic::div_mod::lemma_fundamental_div_mod;
use vstd::arithmetic::div_mod::lemma_fundamental_div_mod_converse;

verus! {

/// The position of the cell in row `r` and column `c` of a matrix of `n` columns.
pub open spec fn cell(r: int, c: int, n: int) -> int {
    r * n + c
}

/// The row of the cell at position `k` in a matrix of `n` columns.
pub open spec fn row_of(k: int, n: int) -> int {
    k / n
}

/// The column of the cell at position `k` in a matrix of `n` columns.
pub open spec fn col_of(k: int, n: int) -> int {
    k % n
}

/// A position inside an `n` by `n` matrix has a row and a column below `n`,
/// and is the cell of that row and column.
pub proof fn lemma_position_splits(k: int, n: int)
    requires
        0 <= n,
        0 <= k < n * n,
    ensures
        0 <= row_of(k, n) < n,
        0 <= col_of(k, n) < n,
        cell(row_of(k, n), col_of(k, n), n) == k,
{
    assert(n > 0) by (nonlinear_arith)
        requires
            0 <= n,
            0 <= k < n * n,
    ;
    lemma_fundamental_div_mod(k, n);
    let q = k / n;
    let r = k % n;
    assert(n * q == q * n) by (nonlinear_arith);
    assert(0 <= q < n) by (nonlinear_arith)
        requires
            k == q * n + r,
            0 <= r < n,
            0 <= k < n * n,
    ;
}

/// Row `r` and column `c`, both below `n`, name one position inside the
/// `n` by `n` matrix, and that position has row `r` and column `c`.
pub proof fn lemma_cell_joins(r: int, c: int, n: int)
    requires
        0 <= r < n,
        0 <= c < n,
    ensures
        0 <= cell(r, c, n) < n * n,
        row_of(cell(r, c, n), n) == r,
        col_of(cell(r, c, n), n) == c,
{
    assert(0 <= r * n + c < n * n) by (nonlinear_arith)
        requires
            0 <= r < n,
            0 <= c < n,
    ;
    lemma_fundamental_div_mod_converse(r * n + c, n, r, c);
}

} // verus!
