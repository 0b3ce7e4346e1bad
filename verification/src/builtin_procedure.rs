use vstd::prelude::*;

use crate::string_interner::InternedString;

verus! {

/// Builtin procedures of one operand.
#[derive(Debug, Clone, Copy, PartialEq, Eq, Structural)]
pub enum UnaryFn {
    Sqrt,
    Car,
    Cdr,
    IsPair,
}

/// Builtin procedures of two operands.
#[derive(Debug, Clone, Copy, PartialEq, Eq, Structural)]
pub enum BinaryFn {
    Remainder,
    SetCar,
    SetCdr,
    Cons,
}

/// Builtin procedures of any number of operands.
#[derive(Debug, Clone, Copy, PartialEq, Eq, Structural)]
pub enum NullaryVariadicFn {
    Add,
    Multiply,
    List,
    LessThan,
    LessThanOrEqualTo,
    GreaterThan,
    GreaterThanOrEqualTo,
    NumericEq,
}

/// Builtin procedures of at least one operand.
#[derive(Debug, Clone, Copy, PartialEq, Eq, Structural)]
pub enum UnaryVariadicFn {
    Subtract,
    Divide,
}

/// A builtin procedure's implementation, grouped by the operands it accepts.
#[derive(Debug, Clone, Copy, PartialEq, Eq, Structural)]
pub enum BuiltinProcedureFn {
    Unary(UnaryFn),
    Binary(BinaryFn),
    NullaryVariadic(NullaryVariadicFn),
    UnaryVariadic(UnaryVariadicFn),
}

/// A procedure provided by the interpreter.
#[derive(Debug, Clone, Copy, PartialEq, Eq, Structural)]
pub struct BuiltinProcedure {
    pub func: BuiltinProcedureFn,
    pub name: InternedString,
}

/// How many operands a builtin of this kind accepts.
pub open spec fn spec_builtin_arity_ok(func: BuiltinProcedureFn, operands_len: int) -> bool {
    match func {
        BuiltinProcedureFn::Unary(_) => operands_len == 1,
        BuiltinProcedureFn::Binary(_) => operands_len == 2,
        BuiltinProcedureFn::NullaryVariadic(_) => true,
        BuiltinProcedureFn::UnaryVariadic(_) => operands_len >= 1,
    }
}

impl BuiltinProcedure {
    pub fn is_valid_arity(&self, operands_len: usize) -> (res: bool)
        ensures
            res == spec_builtin_arity_ok(self.func, operands_len as int),
    {
        match self.func {
            BuiltinProcedureFn::Unary(_) => operands_len == 1,
            BuiltinProcedureFn::Binary(_) => operands_len == 2,
            BuiltinProcedureFn::NullaryVariadic(_) => true,
            BuiltinProcedureFn::UnaryVariadic(_) => operands_len >= 1,
        }
    }
}

} // verus!
