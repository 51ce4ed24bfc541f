//! The failures that the cipher reports.

use vstd::prelude::*;

verus! {

/// Why an operation of the cipher was refused.
#[derive(Clone, Copy, Debug, PartialEq, Eq, Structural)]
pub enum CipherError {
    /// A table was asked for over an alphabet without symbols.
    EmptyAlphabetError,
    /// A character has no numeral in the table, or a numeral has no symbol.
    UnknownSymbolError,
    /// Lengths do not agree with the declared row or column count.
    DimensionError,
    /// A transposition was asked for a matrix that is rectangular, not square.
    UnsupportedShapeError,
    /// A sum of products does not fit the machine word.
    OverflowError,
}

/// The outcome `res` as contracts speak of it: the view of what was
/// computed, or the error.
pub open spec fn viewed<T: View>(res: Result<T, CipherError>) -> Result<T::V, CipherError> {
    match res {
        Ok(value) => Ok(value@),
        Err(e) => Err(e),
    }
}

/// The outcome `res` as contracts speak of it where rows lie within rows:
/// the deep view of what was computed, or the error.
pub open spec fn deeply_viewed<T: DeepView>(res: Result<T, CipherError>) -> Result<
    T::V,
    CipherError,
> {
    match res {
        Ok(value) => Ok(value.deep_view()),
        Err(e) => Err(e),
    }
}

} // verus!
