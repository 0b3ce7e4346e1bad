use vstd::prelude::*;

use crate::builtin_procedure::{BinaryFn, BuiltinProcedureFn, NullaryVariadicFn, UnaryFn};
use crate::builtins::{undefined, undefined_at, value_result, Builtin, Builtins};
use crate::callable::{CallableResult, CallableSuccess};
use crate::compound_procedure::values_to_vec;
use crate::interpreter::{stacks_kept, unmapped, Interpreter, RuntimeError, RuntimeErrorType};
use crate::number::NumberSystem;
use crate::object_tracker::{fresh, with_object};
use crate::pair::{inner, is_chain, undefined_value, valid_pair, PairHeap, PairInner};
use crate::source_mapped::{SourceMappable, SourceMapped, SourceRange};
use crate::value::{SourceValue, Value};

verus! {

/// The builtins of this module, each with the name it is bound to.
pub open spec fn builtin_table() -> Seq<Builtin> {
    seq![
        Builtin::Procedure("set-car!", BuiltinProcedureFn::Binary(BinaryFn::SetCar)),
        Builtin::Procedure("set-cdr!", BuiltinProcedureFn::Binary(BinaryFn::SetCdr)),
        Builtin::Procedure("cons", BuiltinProcedureFn::Binary(BinaryFn::Cons)),
        Builtin::Procedure("car", BuiltinProcedureFn::Unary(UnaryFn::Car)),
        Builtin::Procedure("cdr", BuiltinProcedureFn::Unary(UnaryFn::Cdr)),
        Builtin::Procedure("list", BuiltinProcedureFn::NullaryVariadic(NullaryVariadicFn::List)),
        Builtin::Procedure("pair?", BuiltinProcedureFn::Unary(UnaryFn::IsPair)),
    ]
}

pub fn get_builtins() -> (res: Builtins)
    ensures
        res@ == builtin_table(),
{
    let mut builtins: Builtins = Vec::new();
    builtins.push(Builtin::Procedure("set-car!", BuiltinProcedureFn::Binary(BinaryFn::SetCar)));
    builtins.push(Builtin::Procedure("set-cdr!", BuiltinProcedureFn::Binary(BinaryFn::SetCdr)));
    builtins.push(Builtin::Procedure("cons", BuiltinProcedureFn::Binary(BinaryFn::Cons)));
    builtins.push(Builtin::Procedure("car", BuiltinProcedureFn::Unary(UnaryFn::Car)));
    builtins.push(Builtin::Procedure("cdr", BuiltinProcedureFn::Unary(UnaryFn::Cdr)));
    builtins.push(Builtin::Procedure("list", BuiltinProcedureFn::NullaryVariadic(NullaryVariadicFn::List)));
    builtins.push(Builtin::Procedure("pair?", BuiltinProcedureFn::Unary(UnaryFn::IsPair)));
    builtins
}

/// `(set-car! pair value)`
pub fn set_car<N: NumberSystem>(interpreter: &mut Interpreter<N>, range: SourceRange, pair: &SourceValue, value: &SourceValue) -> (res: CallableResult)
    ensures
        final(interpreter).history == old(interpreter).history,
        final(interpreter).steps_left == old(interpreter).steps_left,
        final(interpreter).source_mapper@ == old(interpreter).source_mapper@,
        final(interpreter).has_evaluated_library == old(interpreter).has_evaluated_library,
        stacks_kept(*old(interpreter), *final(interpreter)),
        !(pair.0 is Pair) ==> res == Err::<CallableSuccess, RuntimeError>(SourceMapped(RuntimeErrorType::ExpectedPair, pair.1))
            && final(interpreter).pair_manager@ == old(interpreter).pair_manager@,
        pair.0 matches Value::Pair(p) ==> res == undefined_at(range) && (valid_pair(old(interpreter).pair_manager@, p)
            ==> final(interpreter).pair_manager@ == old(interpreter).pair_manager@.update(
            p.0.0 as int,
            with_object(
                old(interpreter).pair_manager@[p.0.0 as int],
                PairInner { car: *value, ..inner(old(interpreter).pair_manager@, p) },
            ),
        )),
{
    let p = pair.expect_pair()?;
    interpreter.pair_manager.set_car(p, *value);
    undefined(range)
}

/// `(set-cdr! pair value)`
pub fn set_cdr<N: NumberSystem>(interpreter: &mut Interpreter<N>, range: SourceRange, pair: &SourceValue, value: &SourceValue) -> (res: CallableResult)
    ensures
        final(interpreter).history == old(interpreter).history,
        final(interpreter).steps_left == old(interpreter).steps_left,
        final(interpreter).source_mapper@ == old(interpreter).source_mapper@,
        final(interpreter).has_evaluated_library == old(interpreter).has_evaluated_library,
        stacks_kept(*old(interpreter), *final(interpreter)),
        !(pair.0 is Pair) ==> res == Err::<CallableSuccess, RuntimeError>(SourceMapped(RuntimeErrorType::ExpectedPair, pair.1))
            && final(interpreter).pair_manager@ == old(interpreter).pair_manager@,
        pair.0 matches Value::Pair(p) ==> res == undefined_at(range) && (valid_pair(old(interpreter).pair_manager@, p)
            ==> final(interpreter).pair_manager@ == old(interpreter).pair_manager@.update(
            p.0.0 as int,
            with_object(
                old(interpreter).pair_manager@[p.0.0 as int],
                PairInner { cdr: *value, ..inner(old(interpreter).pair_manager@, p) },
            ),
        )),
{
    let p = pair.expect_pair()?;
    interpreter.pair_manager.set_cdr(p, *value);
    undefined(range)
}

/// What `car` (or, when `take_car` is not set, `cdr`) gives for `v`: the
/// field of the pair (undefined for a pair the heap does not hold), or
/// `ExpectedPair` at `v` when it is not a pair.
pub open spec fn field_result(heap: PairHeap, v: SourceValue, take_car: bool) -> CallableResult {
    match v.0 {
        Value::Pair(p) => Ok(
            CallableSuccess::Value(
                if valid_pair(heap, p) {
                    if take_car {
                        inner(heap, p).car
                    } else {
                        inner(heap, p).cdr
                    }
                } else {
                    undefined_value()
                },
            ),
        ),
        _ => Err(SourceMapped(RuntimeErrorType::ExpectedPair, v.1)),
    }
}

/// `(car pair)`
pub fn car<N: NumberSystem>(interpreter: &Interpreter<N>, value: &SourceValue) -> (res: CallableResult)
    ensures
        res == field_result(interpreter.pair_manager@, *value, true),
{
    let p = value.expect_pair()?;
    Ok(CallableSuccess::Value(interpreter.pair_manager.car(p)))
}

/// `(cdr pair)`
pub fn cdr<N: NumberSystem>(interpreter: &Interpreter<N>, value: &SourceValue) -> (res: CallableResult)
    ensures
        res == field_result(interpreter.pair_manager@, *value, false),
{
    let p = value.expect_pair()?;
    Ok(CallableSuccess::Value(interpreter.pair_manager.cdr(p)))
}

/// `(cons car cdr)`: a new pair, at the range of the call.
pub fn cons<N: NumberSystem>(interpreter: &mut Interpreter<N>, range: SourceRange, car: &SourceValue, cdr: &SourceValue) -> (res: CallableResult)
    ensures
        final(interpreter).history == old(interpreter).history,
        final(interpreter).steps_left == old(interpreter).steps_left,
        final(interpreter).source_mapper@ == old(interpreter).source_mapper@,
        final(interpreter).has_evaluated_library == old(interpreter).has_evaluated_library,
        stacks_kept(*old(interpreter), *final(interpreter)),
        final(interpreter).pair_manager@ == old(interpreter).pair_manager@.push(fresh(PairInner { car: *car, cdr: *cdr })),
        res matches Ok(CallableSuccess::Value(v)) && v.1 == range && (v.0 matches Value::Pair(p)
            && p.0.0 == old(interpreter).pair_manager@.len()),
{
    let p = interpreter.pair_manager.pair(*car, *cdr);
    Ok(CallableSuccess::Value(Value::Pair(p).source_mapped(range)))
}

/// `(list value ...)`: a new proper list of the operands.
pub fn list<N: NumberSystem>(interpreter: &mut Interpreter<N>, operands: &[SourceValue]) -> (res: CallableResult)
    ensures
        final(interpreter).history == old(interpreter).history,
        final(interpreter).steps_left == old(interpreter).steps_left,
        final(interpreter).source_mapper@ == old(interpreter).source_mapper@,
        final(interpreter).has_evaluated_library == old(interpreter).has_evaluated_library,
        stacks_kept(*old(interpreter), *final(interpreter)),
        res matches Ok(CallableSuccess::Value(v)) && v == unmapped(v.0) && is_chain(
            final(interpreter).pair_manager@,
            v.0,
            operands@,
            Value::EmptyList,
        ),
        final(interpreter).pair_manager@.take(old(interpreter).pair_manager@.len() as int) == old(interpreter).pair_manager@,
{
    let values = values_to_vec(operands);
    let list = interpreter.pair_manager.vec_to_list(values);
    value_result(list)
}

/// `(pair? value)`
pub fn pair(operand: &SourceValue) -> (res: CallableResult)
    ensures
        res matches Ok(CallableSuccess::Value(v)) && v == unmapped(Value::Boolean(operand.0 is Pair)),
{
    value_result(Value::Boolean(matches!(operand.0, Value::Pair(_))))
}

} // verus!
