use vstd::prelude::*;

use crate::builtins::{ensure_operands_len, value_result, Builtin, Builtins};
use crate::callable::{Callable, CallableResult, CallableSuccess};
use crate::interpreter::{atom_value, stacks_kept, unmapped, Interpreter, RuntimeError, RuntimeErrorType, Step};
use crate::number::NumberSystem;
use crate::procedure::Procedure;
use crate::source_mapped::{SourceMapped, SourceRange};
use crate::special_form::SpecialFormFn;
use crate::value::{SourceValue, Value};

verus! {

/// The builtins of this module, each with the name it is bound to.
pub open spec fn builtin_table() -> Seq<Builtin> {
    seq![Builtin::SpecialForm("eq?", SpecialFormFn::Eq)]
}

pub fn get_builtins() -> (res: Builtins)
    ensures
        res@ == builtin_table(),
{
    let mut builtins: Builtins = Vec::new();
    builtins.push(Builtin::SpecialForm("eq?", SpecialFormFn::Eq));
    builtins
}

/// Whether `eq?` holds of two values that are not both numbers: the same kind
/// of value, and the same symbol, boolean or builtin, or the same object (a
/// string, a pair or a compound procedure).
pub open spec fn spec_same(a: Value, b: Value) -> bool {
    match (a, b) {
        (Value::Undefined, Value::Undefined) => true,
        (Value::EmptyList, Value::EmptyList) => true,
        (Value::Symbol(x), Value::Symbol(y)) => x == y,
        (Value::Boolean(x), Value::Boolean(y)) => x == y,
        (Value::String(x), Value::String(y)) => x.0 == y.0,
        (Value::Pair(x), Value::Pair(y)) => x == y,
        (Value::Callable(Callable::SpecialForm(x)), Value::Callable(Callable::SpecialForm(y))) => x.func == y.func,
        (
            Value::Callable(Callable::Procedure(Procedure::Builtin(x))),
            Value::Callable(Callable::Procedure(Procedure::Builtin(y))),
        ) => x.func == y.func,
        (
            Value::Callable(Callable::Procedure(Procedure::Compound(x))),
            Value::Callable(Callable::Procedure(Procedure::Compound(y))),
        ) => x.id == y.id,
        _ => false,
    }
}

/// Whether two evaluated values are `eq?`. Two numbers are compared by the
/// number system.
pub fn values_eq<N: NumberSystem>(numbers: &N, a: Value, b: Value) -> (res: bool)
    ensures
        !(a is Number && b is Number) ==> res == spec_same(a, b),
{
    match (a, b) {
        (Value::Undefined, Value::Undefined) => true,
        (Value::EmptyList, Value::EmptyList) => true,
        (Value::Number(x), Value::Number(y)) => numbers.numbers_equal(x, y),
        (Value::Symbol(x), Value::Symbol(y)) => x == y,
        (Value::Boolean(x), Value::Boolean(y)) => x == y,
        (Value::String(x), Value::String(y)) => x.points_at_same_memory_as(&y),
        (Value::Pair(x), Value::Pair(y)) => x == y,
        (Value::Callable(Callable::SpecialForm(x)), Value::Callable(Callable::SpecialForm(y))) => x.func == y.func,
        (
            Value::Callable(Callable::Procedure(Procedure::Builtin(x))),
            Value::Callable(Callable::Procedure(Procedure::Builtin(y))),
        ) => x.func == y.func,
        (
            Value::Callable(Callable::Procedure(Procedure::Compound(x))),
            Value::Callable(Callable::Procedure(Procedure::Compound(y))),
        ) => x.id() == y.id(),
        _ => false,
    }
}

/// Whether `history`, from index `k` on, shows `a` and then `b` evaluated
/// and `res` telling whether their values are the same object (for two
/// numbers, the number system decides). An evaluation that fails ends it
/// with that error.
pub open spec fn compared(history: Seq<Step>, k: int, a: SourceValue, b: SourceValue, res: Result<bool, RuntimeError>) -> bool {
    history.len() > k && match history[k] {
        Step::Evaluation { expression, result, .. } => expression == a && match result {
            Err(e) => history.len() == k + 1 && res == Err::<bool, RuntimeError>(e),
            Ok(x) => history.len() == k + 2 && match history[k + 1] {
                Step::Evaluation { expression, result, .. } => expression == b && match result {
                    Err(e) => res == Err::<bool, RuntimeError>(e),
                    Ok(y) => !(x.0 is Number && y.0 is Number) ==> res == Ok::<bool, RuntimeError>(spec_same(x.0, y.0)),
                },
                _ => false,
            },
        },
        _ => false,
    }
}

/// What `eq?` gives where the comparison gives `r`.
pub open spec fn eq_result(r: Result<bool, RuntimeError>) -> CallableResult {
    match r {
        Ok(t) => Ok(CallableSuccess::Value(unmapped(Value::Boolean(t)))),
        Err(e) => Err(e),
    }
}

/// Evaluates two expressions and tells whether their values are `eq?`.
pub fn is_eq<N: NumberSystem>(interpreter: &mut Interpreter<N>, a: &SourceValue, b: &SourceValue) -> (res: Result<bool, RuntimeError>)
    ensures
        final(interpreter).steps_left <= old(interpreter).steps_left,
        final(interpreter).source_mapper@ == old(interpreter).source_mapper@,
        final(interpreter).has_evaluated_library == old(interpreter).has_evaluated_library,
        res is Ok ==> stacks_kept(*old(interpreter), *final(interpreter)),
        old(interpreter).steps_left >= 5 && old(interpreter).keyboard_interrupt_channel is None ==> match (
            atom_value(old(interpreter).environment, *a),
            atom_value(old(interpreter).environment, *b),
        ) {
            (Some(x), Some(y)) => !(x is Number && y is Number) ==> res == Ok::<bool, RuntimeError>(spec_same(x, y)),
            _ => true,
        },
        res is Ok && old(interpreter).steps_left >= 5 && !(a.0 is Pair) && !(b.0 is Pair) ==> *final(interpreter) == (Interpreter {
            steps_left: (old(interpreter).steps_left - 5) as u64,
            history: final(interpreter).history,
            ..*old(interpreter)
        }),
        old(interpreter).steps_left >= 3 ==> match a.0 {
            Value::Symbol(name) => old(interpreter).environment.spec_get(name) is None ==> res == Err::<bool, RuntimeError>(
                SourceMapped(RuntimeErrorType::UnboundVariable(name), a.1),
            ),
            _ => true,
        },
        old(interpreter).steps_left > 0 ==> compared(final(interpreter).history@, old(interpreter).history@.len() as int, *a, *b, res),
        old(interpreter).steps_left > 0 && res is Ok ==> (final(interpreter).history@.last() matches Step::Evaluation {
            printer,
            heap,
            ..
        } && printer == final(interpreter).printer && heap == final(interpreter).pair_manager@),
    decreases old(interpreter).steps_left, 0int,
{
    interpreter.tick(a.1)?;
    let a = interpreter.eval_expression(a)?;
    let b = interpreter.eval_expression(b)?;
    Ok(values_eq(&interpreter.numbers, a.0, b.0))
}

/// `(eq? a b)`
pub fn eq<N: NumberSystem>(interpreter: &mut Interpreter<N>, range: SourceRange, operands: &[SourceValue]) -> (res: CallableResult)
    ensures
        final(interpreter).steps_left <= old(interpreter).steps_left,
        final(interpreter).source_mapper@ == old(interpreter).source_mapper@,
        final(interpreter).has_evaluated_library == old(interpreter).has_evaluated_library,
        res is Ok ==> stacks_kept(*old(interpreter), *final(interpreter)),
        operands@.len() != 2 ==> res == Err::<CallableSuccess, RuntimeError>(
            SourceMapped(RuntimeErrorType::WrongNumberOfArguments, range),
        ),
        res matches Ok(CallableSuccess::Value(v)) ==> v.0 is Boolean && v == unmapped(v.0),
        res is Ok ==> res matches Ok(CallableSuccess::Value(_)),
        operands@.len() == 2 && old(interpreter).steps_left >= 5 && old(interpreter).keyboard_interrupt_channel is None
            ==> match (atom_value(old(interpreter).environment, operands@[0]), atom_value(old(interpreter).environment, operands@[1])) {
            (Some(x), Some(y)) => !(x is Number && y is Number) ==> res == Ok::<CallableSuccess, RuntimeError>(
                CallableSuccess::Value(unmapped(Value::Boolean(spec_same(x, y)))),
            ),
            _ => true,
        },
        operands@.len() == 2 && old(interpreter).steps_left > 0 ==> exists|r: Result<bool, RuntimeError>|
            #[trigger] compared(final(interpreter).history@, old(interpreter).history@.len() as int, operands@[0], operands@[1], r)
                && res == eq_result(r),
    decreases old(interpreter).steps_left, 1int,
{
    ensure_operands_len(operands, 2, range)?;
    let outcome = is_eq(interpreter, &operands[0], &operands[1]);
    proof {
        if old(interpreter).steps_left > 0 {
            assert(compared(interpreter.history@, old(interpreter).history@.len() as int, operands@[0], operands@[1], outcome));
        }
    }
    let same = outcome?;
    value_result(Value::Boolean(same))
}

} // verus!
