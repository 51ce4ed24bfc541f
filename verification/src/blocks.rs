//! Matrices as rows of rows: a sample key, the product of two blocks of two
//! rows and two columns, and the split of a matrix into its rows.

use vstd::prelude::*;
use crate::error::{deeply_viewed, viewed, CipherError};

verus! {

/// The rows of the sample key.
pub open spec fn sample_key() -> Seq<Seq<isize>> {
    seq![
        seq![(-1) as isize, 0isize, (-1) as isize],
        seq![2isize, 3isize, 4isize],
        seq![2isize, 4isize, 5isize],
    ]
}

/// A sample key of three rows and three columns.
pub fn encoding_test_mat() -> (m: Vec<Vec<isize>>)
    ensures
        m.deep_view() == sample_key(),
{
    let m = vec![vec![-1, 0, -1], vec![2, 3, 4], vec![2, 4, 5]];
    proof {
        assert(m.deep_view() =~~= sample_key());
    }
    m
}

/// The entry of a product of two matrices in row `i` and column `j`, taken
/// over the first two columns of `a` and the first two rows of `b`.
pub open spec fn base_entry(a: Seq<Seq<isize>>, b: Seq<Seq<usize>>, i: int, j: int) -> int {
    a[i][0] * b[0][j] + a[i][1] * b[1][j]
}

/// Whether `a` and `b` can be multiplied as blocks of two rows and two
/// columns: `a` has as many rows, and as many columns in its first row, as
/// `b` has rows, and the two upper rows of both reach to the second column.
pub open spec fn base_fits(a: Seq<Seq<isize>>, b: Seq<Seq<usize>>) -> bool {
    &&& a.len() == b.len()
    &&& b.len() >= 2
    &&& a[0].len() == b.len()
    &&& a[1].len() >= 2
    &&& b[0].len() >= 2
    &&& b[1].len() >= 2
}

/// What the product of the upper left blocks of `a` and `b` comes to: its
/// four entries row after row.
pub open spec fn base_outcome(a: Seq<Seq<isize>>, b: Seq<Seq<usize>>) -> Result<
    Seq<isize>,
    CipherError,
> {
    if !base_fits(a, b) {
        Err(CipherError::DimensionError)
    } else if exists|i: int, j: int|
        0 <= i < 2 && 0 <= j < 2 && !(isize::MIN <= #[trigger] base_entry(a, b, i, j)
            <= isize::MAX) {
        Err(CipherError::OverflowError)
    } else {
        Ok(
            seq![
                base_entry(a, b, 0, 0) as isize,
                base_entry(a, b, 0, 1) as isize,
                base_entry(a, b, 1, 0) as isize,
                base_entry(a, b, 1, 1) as isize,
            ],
        )
    }
}

/// The sum of two products, where it fits the signed machine word.
fn sum_of_products(a0: isize, b0: usize, a1: isize, b1: usize) -> (sum: Option<isize>)
    ensures
        match sum {
            Some(s) => s == a0 * b0 + a1 * b1,
            None => !(isize::MIN <= a0 * b0 + a1 * b1 <= isize::MAX),
        },
{
    assert(-0x8000_0000_0000_0000 * 0xFFFF_FFFF_FFFF_FFFF <= a0 * b0
        <= 0x8000_0000_0000_0000 * 0xFFFF_FFFF_FFFF_FFFF) by (nonlinear_arith)
        requires
            -0x8000_0000_0000_0000 <= a0 <= 0x8000_0000_0000_0000,
            0 <= b0 <= 0xFFFF_FFFF_FFFF_FFFF,
    ;
    assert(-0x8000_0000_0000_0000 * 0xFFFF_FFFF_FFFF_FFFF <= a1 * b1
        <= 0x8000_0000_0000_0000 * 0xFFFF_FFFF_FFFF_FFFF) by (nonlinear_arith)
        requires
            -0x8000_0000_0000_0000 <= a1 <= 0x8000_0000_0000_0000,
            0 <= b1 <= 0xFFFF_FFFF_FFFF_FFFF,
    ;
    let first: i128 = (a0 as i128) * (b0 as i128);
    let second: i128 = (a1 as i128) * (b1 as i128);
    match first.checked_add(second) {
        Some(sum) => {
            if sum < isize::MIN as i128 || sum > isize::MAX as i128 {
                None
            } else {
                Some(sum as isize)
            }
        },
        None => None,
    }
}

/// Multiplies the upper left blocks, of two rows and two columns, of a key
/// matrix and a message matrix, and returns the four entries of the product
/// row after row.
///
/// Matrices whose dimensions do not match, or that do not hold these blocks,
/// are refused, and so is a product with an entry beyond the signed machine
/// word: see [`base_outcome`].
pub fn matrix_mul_base(
    encoding_mat: Vec<Vec<isize>>,
    msg_mat: Vec<Vec<usize>>,
) -> (res: Result<Vec<isize>, CipherError>)
    ensures
        viewed(res) == base_outcome(encoding_mat.deep_view(), msg_mat.deep_view()),
{
    let ghost a = encoding_mat.deep_view();
    let ghost b = msg_mat.deep_view();
    let n = msg_mat.len();
    if encoding_mat.len() != n || n < 2 {
        return Err(CipherError::DimensionError);
    }
    if encoding_mat[0].len() != n || encoding_mat[1].len() < 2 || msg_mat[0].len() < 2
        || msg_mat[1].len() < 2 {
        return Err(CipherError::DimensionError);
    }
    let mut product: Vec<isize> = Vec::new();
    let mut i: usize = 0;
    while i < 2
        invariant
            a == encoding_mat.deep_view(),
            b == msg_mat.deep_view(),
            base_fits(a, b),
            0 <= i <= 2,
            product@.len() == 2 * i,
            forall|r: int, c: int|
                0 <= r < i && 0 <= c < 2 ==> isize::MIN <= #[trigger] base_entry(a, b, r, c)
                    <= isize::MAX && product@[2 * r + c] == base_entry(a, b, r, c),
        decreases 2 - i,
    {
        let mut j: usize = 0;
        while j < 2
            invariant
                a == encoding_mat.deep_view(),
                b == msg_mat.deep_view(),
                base_fits(a, b),
                0 <= i < 2,
                0 <= j <= 2,
                product@.len() == 2 * i + j,
                forall|r: int, c: int|
                    (0 <= r < i && 0 <= c < 2) || (r == i && 0 <= c < j) ==> isize::MIN
                        <= #[trigger] base_entry(a, b, r, c) <= isize::MAX && product@[2 * r + c]
                        == base_entry(a, b, r, c),
            decreases 2 - j,
        {
            let entry = sum_of_products(
                encoding_mat[i][0],
                msg_mat[0][j],
                encoding_mat[i][1],
                msg_mat[1][j],
            );
            match entry {
                Some(entry) => {
                    product.push(entry);
                },
                None => {
                    return Err(CipherError::OverflowError);
                },
            }
            j += 1;
        }
        i += 1;
    }
    proof {
        assert(product@ =~= seq![
            base_entry(a, b, 0, 0) as isize,
            base_entry(a, b, 0, 1) as isize,
            base_entry(a, b, 1, 0) as isize,
            base_entry(a, b, 1, 1) as isize,
        ]);
    }
    Ok(product)
}

/// What splitting `matrix` into its first four rows comes to: a matrix of
/// fewer rows is refused.
pub open spec fn split_outcome(matrix: Seq<Seq<usize>>) -> Result<
    (Seq<usize>, Seq<usize>, Seq<usize>, Seq<usize>),
    CipherError,
> {
    if matrix.len() < 4 {
        Err(CipherError::DimensionError)
    } else {
        Ok((matrix[0], matrix[1], matrix[2], matrix[3]))
    }
}

/// Splits the matrix into its first four rows.
pub fn splitter(
    matrix: Vec<Vec<usize>>,
) -> (res: Result<(Vec<usize>, Vec<usize>, Vec<usize>, Vec<usize>), CipherError>)
    ensures
        deeply_viewed(res) == split_outcome(matrix.deep_view()),
{
    if matrix.len() < 4 {
        return Err(CipherError::DimensionError);
    }
    proof {
        assert forall|r: int| 0 <= r < 4 implies #[trigger] matrix.deep_view()[r]
            == matrix@[r]@ by {}
    }
    Ok((matrix[0].clone(), matrix[1].clone(), matrix[2].clone(), matrix[3].clone()))
}

} // verus!
