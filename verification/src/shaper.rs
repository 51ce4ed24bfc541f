//! Shaping a numeral sequence into a matrix: padding, partition into rows,
//! and transposition of a square matrix in place.

use vstd::prelude::*;
use vstd::arithmetic::div_mod::lemma_fundamental_div_mod;
use vstd::arithmetic::div_mod::lemma_fundamental_div_mod_converse;
use crate::error::{deeply_viewed, viewed, CipherError};
use crate::grid::{cell, col_of, lemma_cell_joins, lemma_position_splits, row_of};

verus! {

/// The number of rows of a message matrix.
pub const MAT_ROWS: u8 = 4;

/// The dimension of a message matrix where none is declared.
pub const DEF_DIM: usize = 4;

/// How many numerals are missing for a sequence of `len` numerals to fill
/// whole rows of `rows` numerals: none where it already does.
pub open spec fn padding_len(len: nat, rows: nat) -> nat {
    ((rows - len % rows) % (rows as int)) as nat
}

/// The sequence `numerals`, followed by as many zeros as are missing for its
/// length to be a multiple of `rows`.
pub open spec fn padded(numerals: Seq<usize>, rows: nat) -> Seq<usize> {
    numerals + Seq::new(padding_len(numerals.len(), rows), |i: int| 0usize)
}

/// Padding fills whole rows and adds less than one row.
pub proof fn lemma_padded_len(numerals: Seq<usize>, rows: nat)
    requires
        rows > 0,
    ensures
        padded(numerals, rows).len() % rows == 0,
        padded(numerals, rows).len() - numerals.len() < rows,
        numerals.len() % rows == 0 ==> padded(numerals, rows) == numerals,
        reshape_outcome(padded(numerals, rows), rows) is Ok,
{
    let len = numerals.len() as int;
    let r = rows as int;
    let gap = padding_len(numerals.len(), rows) as int;
    if len % r == 0 {
        assert(r % r == 0) by (nonlinear_arith)
            requires
                r > 0,
        ;
    } else {
        assert((r - len % r) % r == r - len % r) by (nonlinear_arith)
            requires
                r > 0,
                0 < len % r < r,
        ;
        lemma_fundamental_div_mod(len, r);
        let q = len / r;
        assert(len + gap == (q + 1) * r) by (nonlinear_arith)
            requires
                len == r * q + len % r,
                gap == r - len % r,
        ;
        lemma_fundamental_div_mod_converse(len + gap, r, q + 1, 0);
    }
}

/// The sequence `s` without the elements equal to `pad` at its end.
pub open spec fn without_trailing<A>(s: Seq<A>, pad: A) -> Seq<A>
    decreases s.len(),
{
    if s.len() > 0 && s.last() == pad {
        without_trailing(s.drop_last(), pad)
    } else {
        s
    }
}

/// Padding adds zeros at the end and nothing else: without its trailing
/// zeros a padded sequence is the sequence it was made from, without its own.
pub proof fn lemma_padded_without_trailing(numerals: Seq<usize>, rows: nat)
    ensures
        without_trailing(padded(numerals, rows), 0usize) == without_trailing(numerals, 0usize),
{
    lemma_zeros_without_trailing(numerals, padding_len(numerals.len(), rows));
}

/// Zeros at the end of a sequence do not count among what is left without
/// them.
pub proof fn lemma_zeros_without_trailing(numerals: Seq<usize>, count: nat)
    ensures
        without_trailing(numerals + Seq::new(count, |i: int| 0usize), 0usize) == without_trailing(
            numerals,
            0usize,
        ),
    decreases count,
{
    if count > 0 {
        let longer = numerals + Seq::new(count, |i: int| 0usize);
        let shorter = numerals + Seq::new((count - 1) as nat, |i: int| 0usize);
        assert(longer.drop_last() =~= shorter);
        lemma_zeros_without_trailing(numerals, (count - 1) as nat);
    }
}

/// What padding `numerals` to whole rows of `rows` numerals comes to: rows
/// without numerals are refused.
pub open spec fn padding_outcome(numerals: Seq<usize>, rows: nat) -> Result<
    Seq<usize>,
    CipherError,
> {
    if rows == 0 {
        Err(CipherError::DimensionError)
    } else {
        Ok(padded(numerals, rows))
    }
}

/// Pads the numerals in place with zeros until their number is a multiple of
/// `row_count`, and returns a copy of the padded sequence.
///
/// Nothing is added to a sequence that already fills whole rows, and less
/// than one row to any other. A row count of zero is refused, and the
/// numerals are left as they were.
pub fn message_vector(
    msg_numeric: &mut Vec<usize>,
    row_count: usize,
) -> (res: Result<Vec<usize>, CipherError>)
    ensures
        viewed(res) == padding_outcome(old(msg_numeric)@, row_count as nat),
        final(msg_numeric)@ == match res {
            Ok(padded) => padded@,
            Err(_) => old(msg_numeric)@,
        },
        res matches Ok(padded) ==> padded@.len() % (row_count as nat) == 0,
        res matches Ok(padded) ==> padded@.len() - old(msg_numeric)@.len() < row_count,
        res matches Ok(padded) ==> (old(msg_numeric)@.len() % (row_count as nat) == 0 ==> padded@
            == old(msg_numeric)@),
{
    if row_count == 0 {
        return Err(CipherError::DimensionError);
    }
    let len = msg_numeric.len();
    let msg_matrix_residue = (row_count - len % row_count) % row_count;
    let ghost source = msg_numeric@;
    let mut added: usize = 0;
    while added < msg_matrix_residue
        invariant
            0 <= added <= msg_matrix_residue,
            msg_numeric@ == source + Seq::new(added as nat, |i: int| 0usize),
        decreases msg_matrix_residue - added,
    {
        msg_numeric.push(0);
        added += 1;
    }
    proof {
        lemma_padded_len(source, row_count as nat);
    }
    Ok(msg_numeric.clone())
}

/// The rows of the matrix of `cols` columns that `numerals` fills row after
/// row.
pub open spec fn rows_of(numerals: Seq<usize>, cols: nat) -> Seq<Seq<usize>> {
    Seq::new(
        numerals.len() / cols,
        |r: int| numerals.subrange(cell(r, 0, cols as int), cell(r, cols as int, cols as int)),
    )
}

/// What partitioning `numerals` into rows of `cols` numerals comes to: a
/// sequence that does not fill whole rows is refused.
pub open spec fn reshape_outcome(numerals: Seq<usize>, cols: nat) -> Result<
    Seq<Seq<usize>>,
    CipherError,
> {
    if cols == 0 || numerals.len() % cols != 0 {
        Err(CipherError::DimensionError)
    } else {
        Ok(rows_of(numerals, cols))
    }
}

/// Partitions the message vector into the rows of a matrix of `no_of_cols`
/// columns: consecutive runs of `no_of_cols` numerals, in order.
///
/// A vector whose length is not a multiple of `no_of_cols` is refused;
/// nothing is cut off and nothing is added.
pub fn msg_vec_to_mat(
    msg_vec: &Vec<usize>,
    no_of_cols: usize,
) -> (res: Result<Vec<Vec<usize>>, CipherError>)
    ensures
        deeply_viewed(res) == reshape_outcome(msg_vec@, no_of_cols as nat),
{
    let len = msg_vec.len();
    if no_of_cols == 0 || len % no_of_cols != 0 {
        return Err(CipherError::DimensionError);
    }
    let ghost cols = no_of_cols as int;
    let mut rows: Vec<Vec<usize>> = Vec::new();
    let mut row: Vec<usize> = Vec::new();
    let mut i: usize = 0;
    assert(rows.len() * cols == 0) by (nonlinear_arith)
        requires
            rows.len() == 0,
    ;
    while i < len
        invariant
            cols == no_of_cols as int,
            cols > 0,
            len == msg_vec@.len(),
            0 <= i <= len,
            row@.len() < cols,
            i == rows.len() * cols + row@.len(),
            row@ == msg_vec@.subrange(i - row@.len(), i as int),
            forall|r: int|
                0 <= r < rows.len() ==> (#[trigger] rows@[r])@ == msg_vec@.subrange(
                    cell(r, 0, cols),
                    cell(r, cols, cols),
                ),
        decreases len - i,
    {
        let ghost filled = rows.len() as int;
        row.push(msg_vec[i]);
        i += 1;
        if row.len() == no_of_cols {
            rows.push(row);
            row = Vec::new();
            proof {
                assert(i == (filled + 1) * cols) by (nonlinear_arith)
                    requires
                        i == filled * cols + cols,
                ;
            }
        }
    }
    proof {
        lemma_fundamental_div_mod_converse(len as int, cols, rows.len() as int, row@.len() as int);
        assert(rows.deep_view() =~~= rows_of(msg_vec@, no_of_cols as nat));
    }
    Ok(rows)
}

/// A square fills whole rows.
///
/// Of a sequence and a column count that is not zero: the sequence cannot be
/// partitioned into rows exactly where its transposition is refused for its
/// dimension, and what is transposed has `n` rows of `n` numerals.
pub proof fn lemma_square_has_rows(m: Seq<usize>, n: nat)
    requires
        n > 0,
    ensures
        reshape_outcome(m, n) is Err <==> transpose_outcome(m, n) == Err::<Seq<usize>, CipherError>(
            CipherError::DimensionError,
        ),
        transpose_outcome(m, n) is Ok ==> reshape_outcome(m, n) == Ok::<
            Seq<Seq<usize>>,
            CipherError,
        >(rows_of(m, n)) && rows_of(m, n).len() == n,
{
    if m.len() == n * n {
        lemma_fundamental_div_mod_converse(m.len() as int, n as int, n as int, 0);
    }
}

/// The transpose of the flattened `n` by `n` matrix `m`: the cell in row `r`
/// and column `c` holds what `m` holds in row `c` and column `r`.
pub open spec fn transposed(m: Seq<usize>, n: nat) -> Seq<usize> {
    Seq::new(m.len(), |k: int| m[cell(col_of(k, n as int), row_of(k, n as int), n as int)])
}

/// What a transposition of `m`, declared to have `n` columns, comes to.
///
/// A sequence of `n * n` numerals is a square matrix and is transposed. One
/// whose rows of `n` numerals are not `n` in number is rectangular, which is
/// not supported. Any other length cannot be laid out in `n` columns at all.
pub open spec fn transpose_outcome(m: Seq<usize>, n: nat) -> Result<Seq<usize>, CipherError> {
    if m.len() == n * n {
        Ok(transposed(m, n))
    } else if n > 0 && m.len() % n == 0 {
        Err(CipherError::UnsupportedShapeError)
    } else {
        Err(CipherError::DimensionError)
    }
}

/// The matrix midway through a transposition: the pairs of cells mirrored at
/// the diagonal have been exchanged for every upper cell in a row above `i`,
/// and in row `i` for the columns before `j`.
spec fn partly_transposed(m: Seq<usize>, n: int, i: int, j: int) -> Seq<usize> {
    Seq::new(
        m.len(),
        |k: int|
            {
                let r = row_of(k, n);
                let c = col_of(k, n);
                let upper = if r < c { r } else { c };
                let lower = if r < c { c } else { r };
                if r != c && (upper < i || (upper == i && lower < j)) {
                    m[cell(c, r, n)]
                } else {
                    m[k]
                }
            },
    )
}

proof fn lemma_partly_transposed_row_end(m: Seq<usize>, n: int, i: int)
    requires
        m.len() == n * n,
        0 <= i < n,
    ensures
        partly_transposed(m, n, i, n) == partly_transposed(m, n, i + 1, 0),
{
    assert(partly_transposed(m, n, i, n) =~= partly_transposed(m, n, i + 1, 0)) by {
        assert forall|k: int| 0 <= k < m.len() implies partly_transposed(m, n, i, n)[k]
            == partly_transposed(m, n, i + 1, 0)[k] by {
            lemma_position_splits(k, n);
        }
    }
}

proof fn lemma_partly_transposed_end(m: Seq<usize>, n: nat)
    requires
        m.len() == n * n,
    ensures
        partly_transposed(m, n as int, n as int, 0) == transposed(m, n),
{
    let ni = n as int;
    assert(partly_transposed(m, ni, ni, 0) =~= transposed(m, n)) by {
        assert forall|k: int| 0 <= k < m.len() implies partly_transposed(m, ni, ni, 0)[k]
            == transposed(m, n)[k] by {
            lemma_position_splits(k, ni);
        }
    }
}

proof fn lemma_partly_transposed_step(m: Seq<usize>, cur: Seq<usize>, n: int, i: int, j: int)
    requires
        m.len() == n * n,
        0 <= i < j < n,
        cur == partly_transposed(m, n, i, j),
    ensures
        0 <= cell(i, j, n) < m.len(),
        0 <= cell(j, i, n) < m.len(),
        cur.update(cell(i, j, n), cur[cell(j, i, n)]).update(cell(j, i, n), cur[cell(i, j, n)])
            == partly_transposed(m, n, i, j + 1),
{
    let a = cell(i, j, n);
    let b = cell(j, i, n);
    lemma_cell_joins(i, j, n);
    lemma_cell_joins(j, i, n);
    let next = cur.update(a, cur[b]).update(b, cur[a]);
    assert(next =~= partly_transposed(m, n, i, j + 1)) by {
        assert forall|k: int| 0 <= k < m.len() implies next[k] == partly_transposed(
            m,
            n,
            i,
            j + 1,
        )[k] by {
            lemma_position_splits(k, n);
        }
    }
}

/// Transposition is its own inverse: transposing a square matrix twice gives
/// the matrix back, and the second transposition is never refused.
pub proof fn lemma_transpose_involution(m: Seq<usize>, n: nat)
    requires
        m.len() == n * n,
    ensures
        transposed(transposed(m, n), n) == m,
        transpose_outcome(m, n) == Ok::<Seq<usize>, CipherError>(transposed(m, n)),
        transpose_outcome(transposed(m, n), n) == Ok::<Seq<usize>, CipherError>(m),
{
    let ni = n as int;
    let once = transposed(m, n);
    assert(transposed(once, n) =~= m) by {
        assert forall|k: int| 0 <= k < m.len() implies transposed(once, n)[k] == m[k] by {
            lemma_position_splits(k, ni);
            lemma_cell_joins(col_of(k, ni), row_of(k, ni), ni);
        }
    }
}

/// Transposes in place the flattened square matrix of `n_cols` columns, and
/// returns a copy of the transposed matrix.
///
/// The rows are walked from the top; in each the cells right of the diagonal
/// are exchanged with their mirror cells below it. A matrix that is not
/// square is left as it was and refused: see [`transpose_outcome`].
pub fn transpose(matrix: &mut Vec<usize>, n_cols: usize) -> (res: Result<Vec<usize>, CipherError>)
    ensures
        viewed(res) == transpose_outcome(old(matrix)@, n_cols as nat),
        final(matrix)@ == match res {
            Ok(transposed) => transposed@,
            Err(_) => old(matrix)@,
        },
{
    let len = matrix.len();
    let square = match n_cols.checked_mul(n_cols) {
        Some(cells) => cells == len,
        None => false,
    };
    if !square {
        if n_cols > 0 && len % n_cols == 0 {
            return Err(CipherError::UnsupportedShapeError);
        }
        return Err(CipherError::DimensionError);
    }
    let ghost source = matrix@;
    let mut i: usize = 0;
    while i < n_cols
        invariant
            0 <= i <= n_cols,
            source.len() == n_cols * n_cols <= usize::MAX,
            matrix@ == partly_transposed(source, n_cols as int, i as int, 0),
        decreases n_cols - i,
    {
        let mut j: usize = i + 1;
        while j < n_cols
            invariant
                0 <= i < j <= n_cols,
                source.len() == n_cols * n_cols <= usize::MAX,
                matrix@ == partly_transposed(source, n_cols as int, i as int, j as int),
            decreases n_cols - j,
        {
            proof {
                lemma_partly_transposed_step(source, matrix@, n_cols as int, i as int, j as int);
            }
            let upper = i * n_cols + j;
            let lower = j * n_cols + i;
            let above = matrix[upper];
            let below = matrix[lower];
            matrix.set(upper, below);
            matrix.set(lower, above);
            j += 1;
        }
        proof {
            lemma_partly_transposed_row_end(source, n_cols as int, i as int);
        }
        i += 1;
    }
    proof {
        lemma_partly_transposed_end(source, n_cols as nat);
    }
    Ok(matrix.clone())
}

} // verus!
