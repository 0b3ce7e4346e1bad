use vstd::prelude::*;

use crate::builtin_procedure::{BuiltinProcedureFn, NullaryVariadicFn};
use crate::builtins::math::apply_numeric;
use crate::builtins::{Builtin, Builtins};
use crate::callable::{CallableResult, CallableSuccess};
use crate::interpreter::{unmapped, Interpreter};
use crate::number::{NumberSystem, NumericOp};
use crate::source_mapped::SourceRange;
use crate::value::SourceValue;

verus! {

/// The builtins of this module, each with the name it is bound to.
pub open spec fn builtin_table() -> Seq<Builtin> {
    seq![
        Builtin::Procedure("<", BuiltinProcedureFn::NullaryVariadic(NullaryVariadicFn::LessThan)),
        Builtin::Procedure("<=", BuiltinProcedureFn::NullaryVariadic(NullaryVariadicFn::LessThanOrEqualTo)),
        Builtin::Procedure(">", BuiltinProcedureFn::NullaryVariadic(NullaryVariadicFn::GreaterThan)),
        Builtin::Procedure(">=", BuiltinProcedureFn::NullaryVariadic(NullaryVariadicFn::GreaterThanOrEqualTo)),
        Builtin::Procedure("=", BuiltinProcedureFn::NullaryVariadic(NullaryVariadicFn::NumericEq)),
    ]
}

pub fn get_builtins() -> (res: Builtins)
    ensures
        res@ == builtin_table(),
{
    let mut builtins: Builtins = Vec::new();
    builtins.push(Builtin::Procedure("<", BuiltinProcedureFn::NullaryVariadic(NullaryVariadicFn::LessThan)));
    builtins.push(Builtin::Procedure("<=", BuiltinProcedureFn::NullaryVariadic(NullaryVariadicFn::LessThanOrEqualTo)));
    builtins.push(Builtin::Procedure(">", BuiltinProcedureFn::NullaryVariadic(NullaryVariadicFn::GreaterThan)));
    builtins.push(Builtin::Procedure(">=", BuiltinProcedureFn::NullaryVariadic(NullaryVariadicFn::GreaterThanOrEqualTo)));
    builtins.push(Builtin::Procedure("=", BuiltinProcedureFn::NullaryVariadic(NullaryVariadicFn::NumericEq)));
    builtins
}

/// A comparison of all operands, which must be numbers.
pub fn compare<N: NumberSystem>(interpreter: &Interpreter<N>, op: NumericOp, range: SourceRange, operands: &[SourceValue]) -> (res: CallableResult)
    ensures
        (exists|i: int| 0 <= i < operands@.len() && !(#[trigger] operands@[i].0 is Number)) ==> (res matches Err(e)
            && e.0 is ExpectedNumber),
        res matches Ok(CallableSuccess::Value(v)) ==> v == unmapped(v.0),
{
    apply_numeric(interpreter, op, range, operands)
}

} // verus!
