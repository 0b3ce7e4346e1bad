use vstd::prelude::*;

use crate::builtins::{eval_unary, value_result, Builtin, Builtins};
use crate::callable::{CallableResult, CallableSuccess};
use crate::environment::Environment;
use crate::interpreter::{
    atom_result, atom_value, extends, stacks_kept, unmapped, Interpreter, RuntimeError, RuntimeErrorType, Step,
};
use crate::number::NumberSystem;
use crate::source_mapped::{SourceMapped, SourceRange};
use crate::special_form::SpecialFormFn;
use crate::value::{spec_as_bool, SourceValue, Value};

verus! {

/// The builtins of this module, each with the name it is bound to.
pub open spec fn builtin_table() -> Seq<Builtin> {
    seq![
        Builtin::SpecialForm("and", SpecialFormFn::And),
        Builtin::SpecialForm("or", SpecialFormFn::Or),
        Builtin::SpecialForm("not", SpecialFormFn::Not),
    ]
}

pub fn get_builtins() -> (res: Builtins)
    ensures
        res@ == builtin_table(),
{
    let mut builtins: Builtins = Vec::new();
    builtins.push(Builtin::SpecialForm("and", SpecialFormFn::And));
    builtins.push(Builtin::SpecialForm("or", SpecialFormFn::Or));
    builtins.push(Builtin::SpecialForm("not", SpecialFormFn::Not));
    builtins
}

/// What `(and operand ...)` gives when each operand it comes to evaluate is
/// an atom or a bound symbol: the first false value, else the value of the
/// last operand, else `#t`. `None` where it would evaluate anything else.
pub open spec fn and_outcome(environment: Environment, operands: Seq<SourceValue>) -> Option<CallableResult>
    decreases operands.len(),
{
    if operands.len() == 0 {
        Some(Ok(CallableSuccess::Value(unmapped(Value::Boolean(true)))))
    } else if operands.len() == 1 {
        match atom_result(environment, operands[0]) {
            Some(r) => Some(Ok(CallableSuccess::Value(r))),
            None => None,
        }
    } else {
        match atom_value(environment, operands[0]) {
            Some(v) => if !spec_as_bool(v) {
                Some(Ok(CallableSuccess::Value(unmapped(v))))
            } else {
                and_outcome(environment, operands.drop_first())
            },
            None => None,
        }
    }
}

/// What `(or operand ...)` gives when each operand it comes to evaluate is an
/// atom or a bound symbol: the first true value, else the value of the last
/// operand, else `#f`. `None` where it would evaluate anything else.
pub open spec fn or_outcome(environment: Environment, operands: Seq<SourceValue>) -> Option<CallableResult>
    decreases operands.len(),
{
    if operands.len() == 0 {
        Some(Ok(CallableSuccess::Value(unmapped(Value::Boolean(false)))))
    } else if operands.len() == 1 {
        match atom_result(environment, operands[0]) {
            Some(r) => Some(Ok(CallableSuccess::Value(r))),
            None => None,
        }
    } else {
        match atom_value(environment, operands[0]) {
            Some(v) => if spec_as_bool(v) {
                Some(Ok(CallableSuccess::Value(unmapped(v))))
            } else {
                or_outcome(environment, operands.drop_first())
            },
            None => None,
        }
    }
}

/// Whether `history`, from index `k` on, shows `(and operand ...)` (where
/// `stop` is false) or `(or operand ...)` (where `stop` is true) going on
/// from its operand `i`, of which there is at least one: each operand but the
/// last is evaluated in turn, and the first whose value has the truth `stop`
/// is the result, later operands not being evaluated; the last operand, if it
/// comes to it, is evaluated in tail position and gives the result. An
/// evaluation that fails ends it with that error.
pub open spec fn junction_from(history: Seq<Step>, k: int, operands: Seq<SourceValue>, i: nat, stop: bool, res: CallableResult) -> bool
    decreases operands.len() - i,
{
    if i + 1 >= operands.len() {
        history.len() == k + 1 && crate::interpreter::tail_evaluation_of(history[k], operands[i as int], res)
    } else {
        history.len() > k && match history[k] {
            Step::Evaluation { expression, result, .. } => expression == operands[i as int] && match result {
                Err(e) => history.len() == k + 1 && res == Err::<CallableSuccess, RuntimeError>(e),
                Ok(v) => if spec_as_bool(v.0) == stop {
                    history.len() == k + 1 && res == Ok::<CallableSuccess, RuntimeError>(CallableSuccess::Value(unmapped(v.0)))
                } else {
                    junction_from(history, k + 1, operands, i + 1, stop, res)
                },
            },
            _ => false,
        }
    }
}

/// `(and expression ...)`: evaluates the operands in order until one is false;
/// the last one is evaluated in tail position. No operands give `#t`.
pub fn and<N: NumberSystem>(interpreter: &mut Interpreter<N>, range: SourceRange, operands: &[SourceValue]) -> (res: CallableResult)
    ensures
        final(interpreter).steps_left <= old(interpreter).steps_left,
        final(interpreter).source_mapper@ == old(interpreter).source_mapper@,
        final(interpreter).has_evaluated_library == old(interpreter).has_evaluated_library,
        res is Ok ==> stacks_kept(*old(interpreter), *final(interpreter)),
        old(interpreter).steps_left > 0 && operands@.len() == 0 ==> (res matches Ok(CallableSuccess::Value(v))
            && v == unmapped(Value::Boolean(true))),
        old(interpreter).steps_left >= 3 * operands@.len() + 1 && old(interpreter).keyboard_interrupt_channel is None
            ==> match and_outcome(old(interpreter).environment, operands@) {
            Some(o) => res == o,
            None => true,
        },
        operands@.len() > 0 && old(interpreter).steps_left > 0 ==> junction_from(
            final(interpreter).history@,
            old(interpreter).history@.len() as int,
            operands@,
            0,
            false,
            res,
        ),
    decreases old(interpreter).steps_left, 1int,
{
    interpreter.tick(range)?;
    let ghost start = old(interpreter).history@.len() as int;
    let mut latest = Value::Boolean(true);
    let mut i: usize = 0;
    proof {
        assert(operands@.skip(0) =~= operands@);
    }
    while i < operands.len()
        invariant
            i <= operands@.len(),
            operands@.len() > 0 ==> i < operands@.len(),
            interpreter.steps_left < old(interpreter).steps_left,
            interpreter.source_mapper@ == old(interpreter).source_mapper@,
            interpreter.has_evaluated_library == old(interpreter).has_evaluated_library,
            stacks_kept(*old(interpreter), *interpreter),
            i == 0 ==> latest == Value::Boolean(true),
            old(interpreter).steps_left >= 3 * operands@.len() + 1 && old(interpreter).keyboard_interrupt_channel is None
                && and_outcome(old(interpreter).environment, operands@) is Some ==> *interpreter == (Interpreter {
                steps_left: (old(interpreter).steps_left - 1 - 2 * i) as u64,
                history: interpreter.history,
                ..*old(interpreter)
            }) && and_outcome(old(interpreter).environment, operands@) == and_outcome(
                old(interpreter).environment,
                operands@.skip(i as int),
            ),
            start == old(interpreter).history@.len(),
            interpreter.history@.len() == start + i,
            forall|h: Seq<Step>, r: CallableResult|
                extends(h, interpreter.history@) && #[trigger] junction_from(h, start + i, operands@, i as nat, false, r)
                    ==> junction_from(h, start, operands@, 0, false, r),
        decreases operands@.len() - i,
    {
        let ghost at_operand = interpreter.history@;
        if i == operands.len() - 1 {
            let res = interpreter.eval_expression_in_tail_context(&operands[i]);
            proof {
                let h = interpreter.history@;
                assert(junction_from(h, start + i, operands@, i as nat, false, res));
                assert(extends(h, at_operand));
            }
            return res;
        }
        proof {
            assert(operands@.skip(i as int)[0] == operands@[i as int]);
            assert(operands@.skip(i as int).drop_first() =~= operands@.skip(i + 1));
        }
        let evaluated = interpreter.eval_expression(&operands[i]);
        let ghost after = interpreter.history@;
        latest = match evaluated {
            Ok(v) => v.0,
            Err(e) => {
                proof {
                    assert(junction_from(after, start + i, operands@, i as nat, false, Err(e)));
                    assert(extends(after, at_operand));
                }
                return Err(e);
            },
        };
        if !latest.as_bool() {
            let res = value_result(latest);
            proof {
                assert(junction_from(after, start + i, operands@, i as nat, false, res));
                assert(extends(after, at_operand));
            }
            return res;
        }
        let ghost evaluated_operand = i;
        i = i + 1;
        proof {
            assert forall|h: Seq<Step>, r: CallableResult|
                extends(h, interpreter.history@) && #[trigger] junction_from(h, start + i, operands@, i as nat, false, r)
                    implies junction_from(h, start, operands@, 0, false, r) by {
                assert(h[start + evaluated_operand] == after[start + evaluated_operand]);
                assert(junction_from(h, start + evaluated_operand, operands@, evaluated_operand as nat, false, r));
                assert(extends(h, at_operand));
            }
        }
    }
    value_result(latest)
}

/// `(or expression ...)`: evaluates the operands in order until one is true;
/// the last one is evaluated in tail position. No operands give `#f`.
pub fn or<N: NumberSystem>(interpreter: &mut Interpreter<N>, range: SourceRange, operands: &[SourceValue]) -> (res: CallableResult)
    ensures
        final(interpreter).steps_left <= old(interpreter).steps_left,
        final(interpreter).source_mapper@ == old(interpreter).source_mapper@,
        final(interpreter).has_evaluated_library == old(interpreter).has_evaluated_library,
        res is Ok ==> stacks_kept(*old(interpreter), *final(interpreter)),
        old(interpreter).steps_left > 0 && operands@.len() == 0 ==> (res matches Ok(CallableSuccess::Value(v))
            && v == unmapped(Value::Boolean(false))),
        old(interpreter).steps_left >= 3 * operands@.len() + 1 && old(interpreter).keyboard_interrupt_channel is None
            ==> match or_outcome(old(interpreter).environment, operands@) {
            Some(o) => res == o,
            None => true,
        },
        operands@.len() > 0 && old(interpreter).steps_left > 0 ==> junction_from(
            final(interpreter).history@,
            old(interpreter).history@.len() as int,
            operands@,
            0,
            true,
            res,
        ),
    decreases old(interpreter).steps_left, 1int,
{
    interpreter.tick(range)?;
    let ghost start = old(interpreter).history@.len() as int;
    let mut latest = Value::Boolean(false);
    let mut i: usize = 0;
    proof {
        assert(operands@.skip(0) =~= operands@);
    }
    while i < operands.len()
        invariant
            i <= operands@.len(),
            operands@.len() > 0 ==> i < operands@.len(),
            interpreter.steps_left < old(interpreter).steps_left,
            interpreter.source_mapper@ == old(interpreter).source_mapper@,
            interpreter.has_evaluated_library == old(interpreter).has_evaluated_library,
            stacks_kept(*old(interpreter), *interpreter),
            i == 0 ==> latest == Value::Boolean(false),
            old(interpreter).steps_left >= 3 * operands@.len() + 1 && old(interpreter).keyboard_interrupt_channel is None
                && or_outcome(old(interpreter).environment, operands@) is Some ==> *interpreter == (Interpreter {
                steps_left: (old(interpreter).steps_left - 1 - 2 * i) as u64,
                history: interpreter.history,
                ..*old(interpreter)
            }) && or_outcome(old(interpreter).environment, operands@) == or_outcome(
                old(interpreter).environment,
                operands@.skip(i as int),
            ),
            start == old(interpreter).history@.len(),
            interpreter.history@.len() == start + i,
            forall|h: Seq<Step>, r: CallableResult|
                extends(h, interpreter.history@) && #[trigger] junction_from(h, start + i, operands@, i as nat, true, r)
                    ==> junction_from(h, start, operands@, 0, true, r),
        decreases operands@.len() - i,
    {
        let ghost at_operand = interpreter.history@;
        if i == operands.len() - 1 {
            let res = interpreter.eval_expression_in_tail_context(&operands[i]);
            proof {
                let h = interpreter.history@;
                assert(junction_from(h, start + i, operands@, i as nat, true, res));
                assert(extends(h, at_operand));
            }
            return res;
        }
        proof {
            assert(operands@.skip(i as int)[0] == operands@[i as int]);
            assert(operands@.skip(i as int).drop_first() =~= operands@.skip(i + 1));
        }
        let evaluated = interpreter.eval_expression(&operands[i]);
        let ghost after = interpreter.history@;
        latest = match evaluated {
            Ok(v) => v.0,
            Err(e) => {
                proof {
                    assert(junction_from(after, start + i, operands@, i as nat, true, Err(e)));
                    assert(extends(after, at_operand));
                }
                return Err(e);
            },
        };
        if latest.as_bool() {
            let res = value_result(latest);
            proof {
                assert(junction_from(after, start + i, operands@, i as nat, true, res));
                assert(extends(after, at_operand));
            }
            return res;
        }
        let ghost evaluated_operand = i;
        i = i + 1;
        proof {
            assert forall|h: Seq<Step>, r: CallableResult|
                extends(h, interpreter.history@) && #[trigger] junction_from(h, start + i, operands@, i as nat, true, r)
                    implies junction_from(h, start, operands@, 0, true, r) by {
                assert(h[start + evaluated_operand] == after[start + evaluated_operand]);
                assert(junction_from(h, start + evaluated_operand, operands@, evaluated_operand as nat, true, r));
                assert(extends(h, at_operand));
            }
        }
    }
    value_result(latest)
}

/// Whether `step`, the one step of `(not operand)`, giving `res`, shows the
/// operand evaluated and the result `#t` exactly when its value is `#f`; or
/// the evaluation failing with the error that is the result.
pub open spec fn negated(step: Step, operand: SourceValue, res: CallableResult) -> bool {
    match step {
        Step::Evaluation { expression, result, .. } => expression == operand && match result {
            Err(e) => res == Err::<CallableSuccess, RuntimeError>(e),
            Ok(v) => res == Ok::<CallableSuccess, RuntimeError>(
                CallableSuccess::Value(unmapped(Value::Boolean(!spec_as_bool(v.0)))),
            ),
        },
        _ => false,
    }
}

/// `(not expression)`: `#t` exactly when the value is `#f`.
pub fn not<N: NumberSystem>(interpreter: &mut Interpreter<N>, range: SourceRange, operands: &[SourceValue]) -> (res: CallableResult)
    ensures
        final(interpreter).steps_left <= old(interpreter).steps_left,
        final(interpreter).source_mapper@ == old(interpreter).source_mapper@,
        final(interpreter).has_evaluated_library == old(interpreter).has_evaluated_library,
        res is Ok ==> stacks_kept(*old(interpreter), *final(interpreter)),
        operands@.len() != 1 ==> res == Err::<CallableSuccess, RuntimeError>(
            SourceMapped(RuntimeErrorType::WrongNumberOfArguments, range),
        ),
        res matches Ok(CallableSuccess::Value(v)) ==> v.0 is Boolean && v == unmapped(v.0),
        res is Ok ==> res matches Ok(CallableSuccess::Value(_)),
        operands@.len() == 1 && old(interpreter).steps_left >= 3 && old(interpreter).keyboard_interrupt_channel is None
            ==> match atom_value(old(interpreter).environment, operands@[0]) {
            Some(v) => res == Ok::<CallableSuccess, RuntimeError>(
                CallableSuccess::Value(unmapped(Value::Boolean(!spec_as_bool(v)))),
            ),
            None => true,
        },
        operands@.len() == 1 && old(interpreter).steps_left > 0 ==> final(interpreter).history@.len()
            == old(interpreter).history@.len() + 1 && negated(final(interpreter).history@.last(), operands@[0], res),
    decreases old(interpreter).steps_left, 2int,
{
    let value = eval_unary(interpreter, range, operands)?;
    value_result(Value::Boolean(!value.0.as_bool()))
}

} // verus!
