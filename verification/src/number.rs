use vstd::prelude::*;

verus! {

/// The numeric builtins.
#[derive(Debug, Clone, Copy, PartialEq, Eq, Structural)]
pub enum NumericOp {
    Add,
    Subtract,
    Multiply,
    Divide,
    Sqrt,
    Remainder,
    LessThan,
    LessThanOrEqualTo,
    GreaterThan,
    GreaterThanOrEqualTo,
    NumericEq,
}

/// What a numeric builtin gives.
#[derive(Debug, Clone, Copy, PartialEq, Eq, Structural)]
pub enum NumericOutcome {
    Number(u64),
    Boolean(bool),
    DivisionByZero,
}

/// The arithmetic of Scheme numbers. The interpreter carries every number as a
/// 64-bit code and leaves reading, writing and computing with numbers to an
/// implementation of this trait; it checks operand counts and operand types
/// itself.
pub trait NumberSystem {
    /// The code of the number that a numeric literal's text denotes, if any.
    fn parse_number(&self, text: &str) -> Option<u64>;

    /// How a number is written.
    fn number_to_string(&self, number: u64) -> String;

    /// The number equal to `count`.
    fn count_to_number(&self, count: usize) -> u64;

    /// Whether two numbers are equal, as `eq?` sees them.
    fn numbers_equal(&self, a: u64, b: u64) -> bool;

    /// Applies a numeric builtin to its operands, which the interpreter has
    /// checked are numbers and are as many as the builtin accepts.
    fn compute(&self, op: NumericOp, operands: &[u64]) -> NumericOutcome;
}

} // verus!
