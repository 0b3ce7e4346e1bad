use vstd::prelude::*;

use crate::builtin_procedure::{BinaryFn, BuiltinProcedureFn, NullaryVariadicFn, UnaryFn, UnaryVariadicFn};
use crate::builtins::util::number_args;
use crate::builtins::{Builtin, Builtins};
use crate::callable::{CallableResult, CallableSuccess};
use crate::interpreter::{unmapped, Interpreter, RuntimeError, RuntimeErrorType};
use crate::number::{NumberSystem, NumericOp, NumericOutcome};
use crate::source_mapped::{SourceMappable, SourceMapped, SourceRange};
use crate::value::{SourceValue, Value};

verus! {

/// The builtins of this module, each with the name it is bound to.
pub open spec fn builtin_table() -> Seq<Builtin> {
    seq![
        Builtin::Procedure("+", BuiltinProcedureFn::NullaryVariadic(NullaryVariadicFn::Add)),
        Builtin::Procedure("-", BuiltinProcedureFn::UnaryVariadic(UnaryVariadicFn::Subtract)),
        Builtin::Procedure("*", BuiltinProcedureFn::NullaryVariadic(NullaryVariadicFn::Multiply)),
        Builtin::Procedure("/", BuiltinProcedureFn::UnaryVariadic(UnaryVariadicFn::Divide)),
        Builtin::Procedure("sqrt", BuiltinProcedureFn::Unary(UnaryFn::Sqrt)),
        Builtin::Procedure("remainder", BuiltinProcedureFn::Binary(BinaryFn::Remainder)),
    ]
}

pub fn get_builtins() -> (res: Builtins)
    ensures
        res@ == builtin_table(),
{
    let mut builtins: Builtins = Vec::new();
    builtins.push(Builtin::Procedure("+", BuiltinProcedureFn::NullaryVariadic(NullaryVariadicFn::Add)));
    builtins.push(Builtin::Procedure("-", BuiltinProcedureFn::UnaryVariadic(UnaryVariadicFn::Subtract)));
    builtins.push(Builtin::Procedure("*", BuiltinProcedureFn::NullaryVariadic(NullaryVariadicFn::Multiply)));
    builtins.push(Builtin::Procedure("/", BuiltinProcedureFn::UnaryVariadic(UnaryVariadicFn::Divide)));
    builtins.push(Builtin::Procedure("sqrt", BuiltinProcedureFn::Unary(UnaryFn::Sqrt)));
    builtins.push(Builtin::Procedure("remainder", BuiltinProcedureFn::Binary(BinaryFn::Remainder)));
    builtins
}

/// What a builtin gives for an outcome of the number system.
pub open spec fn spec_outcome_result(outcome: NumericOutcome, range: SourceRange) -> CallableResult {
    match outcome {
        NumericOutcome::Number(n) => Ok(CallableSuccess::Value(unmapped(Value::Number(n)))),
        NumericOutcome::Boolean(b) => Ok(CallableSuccess::Value(unmapped(Value::Boolean(b)))),
        NumericOutcome::DivisionByZero => Err(SourceMapped(RuntimeErrorType::DivisionByZero, range)),
    }
}

/// Turns an outcome of the number system into the builtin's result: a
/// number or a boolean, or `DivisionByZero` at the call.
pub fn outcome_result(outcome: NumericOutcome, range: SourceRange) -> (res: CallableResult)
    ensures
        res == spec_outcome_result(outcome, range),
{
    match outcome {
        NumericOutcome::Number(n) => Ok(CallableSuccess::Value(Value::Number(n).into_source_value())),
        NumericOutcome::Boolean(b) => Ok(CallableSuccess::Value(Value::Boolean(b).into_source_value())),
        NumericOutcome::DivisionByZero => Err(RuntimeErrorType::DivisionByZero.source_mapped(range)),
    }
}

/// Applies `op` to the numbers the operands hold, or fails with
/// `ExpectedNumber` at the first operand that is not a number.
pub fn apply_numeric<N: NumberSystem>(
    interpreter: &Interpreter<N>,
    op: NumericOp,
    range: SourceRange,
    operands: &[SourceValue],
) -> (res: CallableResult)
    ensures
        res matches Err(e) ==> (e.0 is ExpectedNumber ==> exists|i: int|
            0 <= i < operands@.len() && !(#[trigger] operands@[i].0 is Number) && e.1 == operands@[i].1),
        (forall|i: int| 0 <= i < operands@.len() ==> (#[trigger] operands@[i]).0 is Number) ==> !(res matches Err(e)
            && e.0 is ExpectedNumber),
        (exists|i: int| 0 <= i < operands@.len() && !(#[trigger] operands@[i].0 is Number)) ==> (res matches Err(e)
            && e.0 is ExpectedNumber),
        res matches Ok(CallableSuccess::Value(v)) ==> v == unmapped(v.0) && (v.0 is Number || v.0 is Boolean),
        res is Ok ==> res matches Ok(CallableSuccess::Value(_)),
        res matches Err(e) ==> e.0 is ExpectedNumber || e == SourceMapped(RuntimeErrorType::DivisionByZero, range),
{
    let numbers = number_args(operands)?;
    let outcome = interpreter.numbers.compute(op, numbers.as_slice());
    outcome_result(outcome, range)
}

/// `(sqrt x)`
pub fn sqrt<N: NumberSystem>(interpreter: &Interpreter<N>, range: SourceRange, value: &SourceValue) -> (res: CallableResult)
    ensures
        !(value.0 is Number) ==> res == Err::<CallableSuccess, RuntimeError>(
            SourceMapped(RuntimeErrorType::ExpectedNumber, value.1),
        ),
        value.0 is Number ==> !(res matches Err(e) && e.0 is ExpectedNumber),
{
    let number = value.expect_number()?;
    let outcome = interpreter.numbers.compute(NumericOp::Sqrt, &[number]);
    outcome_result(outcome, range)
}

/// `(+ x ...)`
pub fn add<N: NumberSystem>(interpreter: &Interpreter<N>, range: SourceRange, operands: &[SourceValue]) -> (res: CallableResult)
    ensures
        (exists|i: int| 0 <= i < operands@.len() && !(#[trigger] operands@[i].0 is Number)) ==> (res matches Err(e)
            && e.0 is ExpectedNumber),
        res matches Ok(CallableSuccess::Value(v)) ==> v == unmapped(v.0),
{
    apply_numeric(interpreter, NumericOp::Add, range, operands)
}

/// `(* x ...)`
pub fn multiply<N: NumberSystem>(interpreter: &Interpreter<N>, range: SourceRange, operands: &[SourceValue]) -> (res: CallableResult)
    ensures
        (exists|i: int| 0 <= i < operands@.len() && !(#[trigger] operands@[i].0 is Number)) ==> (res matches Err(e)
            && e.0 is ExpectedNumber),
        res matches Ok(CallableSuccess::Value(v)) ==> v == unmapped(v.0),
{
    apply_numeric(interpreter, NumericOp::Multiply, range, operands)
}

/// `(- x y ...)`: `x` minus the others, or minus `x` alone.
pub fn subtract<N: NumberSystem>(interpreter: &Interpreter<N>, range: SourceRange, operands: &[SourceValue]) -> (res: CallableResult)
    requires
        operands@.len() >= 1,
    ensures
        (exists|i: int| 0 <= i < operands@.len() && !(#[trigger] operands@[i].0 is Number)) ==> (res matches Err(e)
            && e.0 is ExpectedNumber),
        res matches Ok(CallableSuccess::Value(v)) ==> v == unmapped(v.0),
{
    apply_numeric(interpreter, NumericOp::Subtract, range, operands)
}

/// `(/ x y ...)`: `x` divided by the others, or 1 divided by `x` alone;
/// `DivisionByZero` at the call when a divisor is zero.
pub fn divide<N: NumberSystem>(interpreter: &Interpreter<N>, range: SourceRange, operands: &[SourceValue]) -> (res: CallableResult)
    requires
        operands@.len() >= 1,
    ensures
        (exists|i: int| 0 <= i < operands@.len() && !(#[trigger] operands@[i].0 is Number)) ==> (res matches Err(e)
            && e.0 is ExpectedNumber),
        res matches Err(e) ==> e.0 is ExpectedNumber || e == SourceMapped(RuntimeErrorType::DivisionByZero, range),
        res matches Ok(CallableSuccess::Value(v)) ==> v == unmapped(v.0),
{
    apply_numeric(interpreter, NumericOp::Divide, range, operands)
}

/// `(remainder x y)`
pub fn remainder<N: NumberSystem>(interpreter: &Interpreter<N>, range: SourceRange, a: &SourceValue, b: &SourceValue) -> (res: CallableResult)
    ensures
        !(a.0 is Number) ==> res == Err::<CallableSuccess, RuntimeError>(SourceMapped(RuntimeErrorType::ExpectedNumber, a.1)),
        a.0 is Number && !(b.0 is Number) ==> res == Err::<CallableSuccess, RuntimeError>(
            SourceMapped(RuntimeErrorType::ExpectedNumber, b.1),
        ),
{
    let x = a.expect_number()?;
    let y = b.expect_number()?;
    let outcome = interpreter.numbers.compute(NumericOp::Remainder, &[x, y]);
    outcome_result(outcome, range)
}

} // verus!
