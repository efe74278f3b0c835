use vstd::prelude::*;

verus! {

/// The ways in which an operation of this library can fail.
#[derive(Debug, Clone, Copy, PartialEq, Eq, Structural)]
pub enum UtilsError {
    /// A column or row index lies outside the shape of the matrix.
    WrongPosition,
    /// A position inside the shape was missing from the store. The matrix
    /// keeps one cell for each position, so no operation reports this.
    NotFound,
    /// A sequence handed to the matrix has the wrong length.
    WrongSize,
    /// A column has the wrong number of cells. No operation reports this: a
    /// column that is too short is reported as `WrongSize`.
    WrongColumnSize,
}

/// What a fallible operation of this library returns.
pub type UtilsResult<T> = Result<T, UtilsError>;

} // verus!
