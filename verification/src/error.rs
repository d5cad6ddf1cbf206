//! The ways in which running a program can fail.

use vstd::prelude::*;

verus! {

/// Why an evaluation stopped. Every fault is final: nothing is retried, and
/// what the program had written before the fault stays written.
#[derive(Debug, Clone, Copy, PartialEq, Eq)]
pub enum EvalError {
    /// A variable was read or assigned, or a procedure called, that is not
    /// declared where the lookup searches.
    UnresolvedIdentifier,
    /// A division by zero.
    DivisionByZero,
    /// The result of an arithmetic operation does not fit in 32 bits.
    Overflow,
    /// A line of input is not a decimal integer of 32 bits.
    MalformedInput,
    /// The tree has a shape that the grammar does not produce where the
    /// evaluator met it, such as a condition that is neither an odd-test nor
    /// a comparison.
    InvariantViolation,
}

} // verus!
