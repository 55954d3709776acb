//! A truncated free tensor algebra over a finite alphabet.
//!
//! Words over the alphabet `1..=N` are packed into a single `u64`; the words of each degree
//! occupy one contiguous block of a dense coefficient array; products, commutators and the
//! exponential and logarithm series are computed block by block on those arrays.
//! Coefficients are exact: integers modulo the prime `2^61 - 1`.
use vstd::prelude::*;

pub mod algebra;
pub mod basis;
pub mod bits;
pub mod coefficients;
pub mod dense_vector;
pub mod free_tensor;
pub mod laws;
pub mod radix;
pub mod sums;
pub mod tensor_key;
pub mod tensor_basis;

verus! {

/// The degree (length) of a word.
pub type DegreeType = u32;

/// A position in a dense coefficient array.
pub type DimensionType = usize;

/// A letter of the alphabet, in `1..=N`.
pub type LetterType = u32;

/// The ways an operation of the algebra can refuse its inputs.
#[derive(Clone, Copy, Debug, PartialEq, Eq, Structural)]
pub enum TensorError {
    /// A word longer than the encoding can hold.
    LengthExceeded,
    /// Vector arithmetic whose right operand is larger than its left one.
    SizeMismatch,
    /// A product asked for without a truncation degree.
    MissingTruncationDegree,
    /// A basis index or letter position outside its valid range.
    IndexOutOfRange,
}

} // verus!
