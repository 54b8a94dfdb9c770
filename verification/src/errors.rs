use vstd::prelude::*;

verus! {

/// The ways an evaluation can fail.
#[derive(Clone, Copy, Debug, PartialEq, Eq)]
pub enum EvalError {
    /// A division's right operand was exactly zero.
    DivisionByZero,
    /// A character outside the recognized grammar was encountered where a
    /// new token was expected.
    InvalidCharacter,
    /// A group was opened but the input ended before its matching close
    /// marker was found.
    InvalidBlock,
    /// The expression yielded no usable operand: empty input, or input that
    /// is only an operator with no preceding number.
    InvalidInput,
    /// An exact intermediate value fell outside the 128-bit numerator or
    /// denominator range.
    Overflow,
}

} // verus!
