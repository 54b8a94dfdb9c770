//! Evaluator for arithmetic expressions in a flat letter notation.
//!
//! Digits form multi-digit non-negative integer literals, the letters
//! `a`/`b`/`c`/`d` are the four binary operators (add, subtract, multiply,
//! divide), and `e`/`f` open and close a nested group that is evaluated as
//! an independent sub-expression. Evaluation folds strictly left to right,
//! with no operator precedence. Values are exact rationals, so division
//! never loses precision; results that exceed the 128-bit representation
//! are reported as an explicit overflow error.

pub mod digits;
pub mod errors;
pub mod eval;
pub mod laws;
pub mod rational;

pub use errors::EvalError;
pub use eval::evaluate;
pub use eval::Operator;
pub use rational::Rational;
