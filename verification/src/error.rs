use vstd::prelude::*;

verus! {

/// The ways in which a matrix operation can be refused.
#[derive(Clone, Copy, Debug, PartialEq, Eq, Structural)]
pub enum MatrixError {
    /// The shapes of the operands, or the lengths of the rows handed to a
    /// constructor, do not fit together.
    DimensionMismatch,
    /// A row or column index lies outside the matrix.
    IndexOutOfBounds,
}

impl MatrixError {
    /// A short description of the error.
    pub fn message(&self) -> (text: &'static str)
        ensures
            text@ == (match *self {
                MatrixError::DimensionMismatch => "matrix dimensions do not match"@,
                MatrixError::IndexOutOfBounds => "matrix index out of bounds"@,
            }),
    {
        match self {
            MatrixError::DimensionMismatch => "matrix dimensions do not match",
            MatrixError::IndexOutOfBounds => "matrix index out of bounds",
        }
    }
}

} // verus!
