//! The ways in which running a program can fail.

use vstd::prelude::*;

verus! {

/// Why an evaluation stopped. Every one of these ends the evaluation at once.
#[derive(Clone, Copy, Debug, PartialEq, Eq, Structural)]
pub enum EvalError {
    /// An identifier was read that the environment does not bind.
    UndefinedVariable,
    /// A heap cell was read or written that is empty or lies outside the heap.
    InvalidMemoryAccess,
    /// The left side of an assignment is neither an identifier nor a dereference.
    InvalidAssignmentTarget,
    /// A call names no built-in function, or has an argument where none is
    /// taken, or none where one is taken.
    InvalidCall,
    /// The right operand of `/` or `%` is zero.
    DivideByZero,
    /// A value does not fit its use: an allocation of no cells or of more than
    /// the machine can address, or an exponent outside `0 ..= u32::MAX`.
    InvalidArgument,
}

/// A parser could not go on. `rest` is the input from the point where it
/// stopped.
#[derive(Debug)]
pub struct ParseError<'a> {
    pub rest: &'a [u8],
}

} // verus!
