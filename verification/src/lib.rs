//! A dense, row-major matrix engine with dimension-checked arithmetic.
//!
//! A [`matrix::Matrix`] owns one flat buffer of `rows * cols` scalars; the
//! entry at `(row, col)` lives at offset `row * cols + col`. Every operation
//! either returns a freshly allocated matrix or reports a
//! [`error::MatrixError`]; only [`matrix::Matrix::set`] changes a matrix in
//! place.
//!
//! The engine is generic over its scalars ([`scalar::Scalar`]): any type
//! that is copied freely, has a default value that serves as zero, and can
//! be added, subtracted and multiplied. Double-precision floating point is
//! the intended scalar. Because floating-point arithmetic is not a function
//! of its operands down to the last bit, every contract first relates each
//! result entry to the scalar operations that may have produced it, and then
//! states the result as a value for scalars that compute exactly.
//!
//! * [`layout`]: the row-major index mapping.
//! * [`grid`]: the mathematical model of a matrix that contracts speak of.
//! * [`matrix`]: storage, construction, element access, transpose, map.
//! * [`elementwise`]: sum, difference and Hadamard product, computed in
//!   batches of [`elementwise::LANES`] entries with a scalar remainder.
//! * [`product`]: the matrix product, computed as batched dot products of
//!   contiguous rows.
//! * [`sums`]: dot products as values, and the proof that batching does not
//!   change them where sums reorder.
//! * [`series`]: finite sums and their exchange, as needed for the laws.
//! * [`laws`]: algebraic identities of the operations.
pub mod elementwise;
pub mod error;
pub mod grid;
pub mod laws;
pub mod layout;
pub mod matrix;
pub mod product;
pub mod scalar;
pub mod series;
pub mod sums;
