use vstd::prelude::*;

use crate::builtins::{Builtin, Builtins};
use crate::callable::CallableResult;
use crate::interpreter::{extends, stacks_kept, Interpreter, RuntimeError, RuntimeErrorType, Step};
use crate::number::NumberSystem;
use crate::pair::{PairHeap, PairManager};
use crate::source_mapped::{SourceMappable, SourceMapped, SourceRange};
use crate::special_form::SpecialFormFn;
use crate::string_interner::InternedString;
use crate::value::{list_items, SourceValue, Value};

verus! {

/// The builtins of this module, each with the name it is bound to.
pub open spec fn builtin_table() -> Seq<Builtin> {
    seq![
        Builtin::SpecialForm("let", SpecialFormFn::Let),
        Builtin::SpecialForm("let*", SpecialFormFn::LetStar),
        Builtin::SpecialForm("letrec", SpecialFormFn::Letrec),
    ]
}

pub fn get_builtins() -> (res: Builtins)
    ensures
        res@ == builtin_table(),
{
    let mut builtins: Builtins = Vec::new();
    builtins.push(Builtin::SpecialForm("let", SpecialFormFn::Let));
    builtins.push(Builtin::SpecialForm("let*", SpecialFormFn::LetStar));
    builtins.push(Builtin::SpecialForm("letrec", SpecialFormFn::Letrec));
    builtins
}

/// One `(variable init)` of a binding list.
pub struct LetBinding {
    pub variable: InternedString,
    pub init: SourceValue,
}

/// Whether no variable is bound twice.
pub open spec fn distinct_variables(bindings: Seq<LetBinding>) -> bool {
    forall|i: int, j: int|
        0 <= i < j < bindings.len() ==> #[trigger] bindings[i].variable != #[trigger] bindings[j].variable
}

/// The bindings that a list of `(variable init)` items reads as, or the error
/// of the first item that fails: one that is not a list of two gives
/// `MalformedBindingList`, a variable that is not a symbol
/// `ExpectedIdentifier`, and, unless duplicates are allowed, a variable that
/// an earlier item binds `DuplicateVariableInBindings`.
pub open spec fn read_bindings(heap: PairHeap, items: Seq<SourceValue>, allow_duplicates: bool) -> Result<
    Seq<LetBinding>,
    RuntimeError,
>
    decreases items.len(),
{
    if items.len() == 0 {
        Ok(Seq::empty())
    } else {
        match read_bindings(heap, items.drop_last(), allow_duplicates) {
            Err(e) => Err(e),
            Ok(earlier) => {
                let item = items.last();
                match list_items(heap, item.0) {
                    Some(parts) => if parts.len() != 2 {
                        Err(SourceMapped(RuntimeErrorType::MalformedBindingList, item.1))
                    } else {
                        match parts[0].0 {
                            Value::Symbol(variable) => if !allow_duplicates && exists|k: int|
                                0 <= k < earlier.len() && #[trigger] earlier[k].variable == variable {
                                Err(SourceMapped(RuntimeErrorType::DuplicateVariableInBindings, parts[0].1))
                            } else {
                                Ok(earlier.push(LetBinding { variable, init: parts[1] }))
                            },
                            _ => Err(SourceMapped(RuntimeErrorType::ExpectedIdentifier, parts[0].1)),
                        }
                    },
                    None => Err(SourceMapped(RuntimeErrorType::MalformedBindingList, item.1)),
                }
            },
        }
    }
}

/// Reading stops at the first item that fails.
proof fn lemma_read_bindings_error(heap: PairHeap, items: Seq<SourceValue>, k: int, allow_duplicates: bool)
    requires
        0 <= k <= items.len(),
        read_bindings(heap, items.take(k), allow_duplicates) is Err,
    ensures
        read_bindings(heap, items, allow_duplicates) == read_bindings(heap, items.take(k), allow_duplicates),
    decreases items.len(),
{
    if items.len() == k {
        assert(items.take(k) =~= items);
    } else {
        assert(items.drop_last().take(k) =~= items.take(k));
        lemma_read_bindings_error(heap, items.drop_last(), k, allow_duplicates);
    }
}

fn binds(bindings: &Vec<LetBinding>, variable: InternedString) -> (res: bool)
    ensures
        res <==> exists|i: int| 0 <= i < bindings@.len() && #[trigger] bindings@[i].variable == variable,
{
    let mut i: usize = 0;
    while i < bindings.len()
        invariant
            i <= bindings@.len(),
            forall|k: int| 0 <= k < i ==> #[trigger] bindings@[k].variable != variable,
        decreases bindings@.len() - i,
    {
        if bindings[i].variable == variable {
            return true;
        }
        i = i + 1;
    }
    false
}

/// Reads the binding list that is the first operand of `let`, `let*` and
/// `letrec`. Fails with `MalformedSpecialForm` when there is no list,
/// `MalformedBindingList` for a binding that is not a list of two,
/// `ExpectedIdentifier` for a variable that is not a symbol, and, unless
/// duplicates are allowed, `DuplicateVariableInBindings` for a variable bound
/// twice.
pub fn parse_bindings(
    pairs: &PairManager,
    range: SourceRange,
    operands: &[SourceValue],
    allow_duplicates: bool,
) -> (res: Result<Vec<LetBinding>, RuntimeError>)
    ensures
        operands@.len() == 0 ==> res == Err::<Vec<LetBinding>, RuntimeError>(
            SourceMapped(RuntimeErrorType::MalformedSpecialForm, range),
        ),
        operands@.len() > 0 && !(operands@[0].0 is Pair) && !(operands@[0].0 is EmptyList) ==> res == Err::<
            Vec<LetBinding>,
            RuntimeError,
        >(SourceMapped(RuntimeErrorType::MalformedSpecialForm, range)),
        operands@.len() > 0 && operands@[0].0 is EmptyList ==> (res matches Ok(b) && b@.len() == 0),
        !allow_duplicates ==> (res matches Ok(b) ==> distinct_variables(b@)),
        res matches Err(e) ==> e.0 is MalformedSpecialForm || e.0 is MalformedBindingList
            || e.0 is ExpectedIdentifier || e.0 is DuplicateVariableInBindings,
        operands@.len() > 0 ==> match list_items(pairs@, operands@[0].0) {
            Some(items) => match read_bindings(pairs@, items, allow_duplicates) {
                Ok(b) => res matches Ok(r) && r@ == b,
                Err(e) => res == Err::<Vec<LetBinding>, RuntimeError>(e),
            },
            None => res == Err::<Vec<LetBinding>, RuntimeError>(
                SourceMapped(RuntimeErrorType::MalformedSpecialForm, range),
            ),
        },
{
    if operands.len() == 0 {
        return Err(RuntimeErrorType::MalformedSpecialForm.source_mapped(range));
    }
    let bindings = match operands[0].try_into_list(pairs) {
        Some(list) => list.0,
        None => {
            return Err(RuntimeErrorType::MalformedSpecialForm.source_mapped(range));
        },
    };
    let mut result: Vec<LetBinding> = Vec::new();
    let mut i: usize = 0;
    proof {
        assert(bindings@.take(0) =~= Seq::<SourceValue>::empty());
    }
    while i < bindings.len()
        invariant
            i <= bindings@.len(),
            !allow_duplicates ==> distinct_variables(result@),
            result@.len() == i,
            operands@.len() > 0,
            operands@[0].0 is Pair || operands@[0].0 is EmptyList,
            operands@[0].0 is EmptyList ==> bindings@.len() == 0,
            list_items(pairs@, operands@[0].0) == Some(bindings@),
            read_bindings(pairs@, bindings@.take(i as int), allow_duplicates) == Ok::<Seq<LetBinding>, RuntimeError>(
                result@,
            ),
        decreases bindings@.len() - i,
    {
        proof {
            assert(bindings@.take(i + 1).drop_last() =~= bindings@.take(i as int));
            assert(bindings@.take(i + 1).last() == bindings@[i as int]);
        }
        let binding = bindings[i];
        let items = match binding.try_into_list(pairs) {
            Some(list) => list.0,
            None => {
                proof {
                    lemma_read_bindings_error(pairs@, bindings@, i + 1, allow_duplicates);
                }
                return Err(RuntimeErrorType::MalformedBindingList.source_mapped(binding.1));
            },
        };
        if items.len() != 2 {
            proof {
                lemma_read_bindings_error(pairs@, bindings@, i + 1, allow_duplicates);
            }
            return Err(RuntimeErrorType::MalformedBindingList.source_mapped(binding.1));
        }
        let variable = match items[0].expect_identifier() {
            Ok(v) => v,
            Err(e) => {
                proof {
                    lemma_read_bindings_error(pairs@, bindings@, i + 1, allow_duplicates);
                }
                return Err(e);
            },
        };
        if !allow_duplicates && binds(&result, variable) {
            proof {
                lemma_read_bindings_error(pairs@, bindings@, i + 1, allow_duplicates);
            }
            return Err(RuntimeErrorType::DuplicateVariableInBindings.source_mapped(items[0].1));
        }
        result.push(LetBinding { variable, init: items[1] });
        i = i + 1;
    }
    proof {
        assert(bindings@.take(bindings@.len() as int) =~= bindings@);
    }
    Ok(result)
}

/// The bindings that the binding list of a form with operands `operands`
/// reads as, where it reads without an error.
pub open spec fn let_bindings(heap: PairHeap, operands: Seq<SourceValue>, allow_duplicates: bool) -> Option<Seq<LetBinding>> {
    if operands.len() == 0 {
        None
    } else {
        match list_items(heap, operands[0].0) {
            Some(items) => match read_bindings(heap, items, allow_duplicates) {
                Ok(b) => Some(b),
                Err(_) => None,
            },
            None => None,
        }
    }
}

/// Whether `history`, from index `k` on, shows a `let` with bindings
/// `bindings` and body `body` going on once the inits of the first bindings
/// have given `values`: the remaining inits are evaluated in turn; then the
/// body is evaluated in turn, starting in a scope where the variable of each
/// binding is bound to the value of that binding's own init, and gives the
/// result. An init that fails ends it with that error, and an empty body
/// is malformed; with no step after the inits, the step limit was reached.
pub open spec fn let_from(
    history: Seq<Step>,
    k: int,
    bindings: Seq<LetBinding>,
    body: Seq<SourceValue>,
    values: Seq<SourceValue>,
    range: SourceRange,
    res: CallableResult,
) -> bool
    decreases bindings.len() - values.len(),
{
    if values.len() < bindings.len() {
        history.len() > k && match history[k] {
            Step::Evaluation { expression, result, .. } => expression == bindings[values.len() as int].init && match result {
                Err(e) => history.len() == k + 1 && res == Err::<crate::callable::CallableSuccess, RuntimeError>(e),
                Ok(v) => let_from(history, k + 1, bindings, body, values.push(v), range, res),
            },
            _ => false,
        }
    } else if body.len() == 0 {
        history.len() == k && res == Err::<crate::callable::CallableSuccess, RuntimeError>(
            SourceMapped(RuntimeErrorType::MalformedSpecialForm, range),
        )
    } else if history.len() == k {
        res == Err::<crate::callable::CallableSuccess, RuntimeError>(SourceMapped(RuntimeErrorType::EvaluationLimit, range))
    } else {
        history.len() == k + 1 && match history[k] {
            Step::Sequence { expressions, environment, result, .. } => expressions == body && result == res && forall|j: int|
                0 <= j < bindings.len() ==> environment.spec_get(#[trigger] bindings[j].variable) == Some(values[j]),
            _ => false,
        }
    }
}

/// Whether `history`, from index `k` on, shows a `let*` (or, where
/// `recursive` is set, a `letrec`) with bindings `bindings` and body `body`,
/// going on from binding `i`, the init of the binding before it having given
/// `previous`: the inits are evaluated in turn, and each binding's variable
/// is bound to the value of its own init before the next init, or the body,
/// starts: the next evaluation starts where that variable has that value.
/// For `letrec` this is so where the innermost scope is still valid once the
/// init is evaluated. An init that fails ends it with that error, and an
/// empty body is malformed; with no step after the inits, the step limit was
/// reached.
pub open spec fn sequential_from(
    history: Seq<Step>,
    k: int,
    bindings: Seq<LetBinding>,
    body: Seq<SourceValue>,
    i: nat,
    previous: SourceValue,
    bound: bool,
    recursive: bool,
    range: SourceRange,
    res: CallableResult,
) -> bool
    decreases bindings.len() - i,
{
    if i < bindings.len() {
        history.len() > k && match history[k] {
            Step::Evaluation { expression, result, start, environment, .. } => {
                &&& expression == bindings[i as int].init
                &&& i > 0 && bound ==> start.spec_get(bindings[i - 1].variable) == Some(previous)
                &&& match result {
                    Err(e) => history.len() == k + 1 && res == Err::<crate::callable::CallableSuccess, RuntimeError>(e),
                    Ok(v) => sequential_from(
                        history,
                        k + 1,
                        bindings,
                        body,
                        i + 1,
                        v,
                        !recursive || environment.top_is_valid(),
                        recursive,
                        range,
                        res,
                    ),
                }
            },
            _ => false,
        }
    } else if body.len() == 0 {
        history.len() == k && res == Err::<crate::callable::CallableSuccess, RuntimeError>(
            SourceMapped(RuntimeErrorType::MalformedSpecialForm, range),
        )
    } else if history.len() == k {
        res == Err::<crate::callable::CallableSuccess, RuntimeError>(SourceMapped(RuntimeErrorType::EvaluationLimit, range))
    } else {
        history.len() == k + 1 && match history[k] {
            Step::Sequence { expressions, environment, result, .. } => expressions == body && result == res && (i > 0
                && bound ==> environment.spec_get(bindings[i - 1].variable) == Some(previous)),
            _ => false,
        }
    }
}

/// Evaluates the body of a `let` form, which must not be empty.
fn eval_body<N: NumberSystem>(interpreter: &mut Interpreter<N>, range: SourceRange, operands: &[SourceValue]) -> (res: CallableResult)
    requires
        operands@.len() > 0,
    ensures
        final(interpreter).steps_left <= old(interpreter).steps_left,
        final(interpreter).source_mapper@ == old(interpreter).source_mapper@,
        final(interpreter).has_evaluated_library == old(interpreter).has_evaluated_library,
        res is Ok ==> stacks_kept(*old(interpreter), *final(interpreter)),
        operands@.len() == 1 ==> res == Err::<crate::callable::CallableSuccess, RuntimeError>(
            SourceMapped(RuntimeErrorType::MalformedSpecialForm, range),
        ),
        operands@.len() == 1 ==> final(interpreter).history@ == old(interpreter).history@,
        operands@.len() > 1 && old(interpreter).steps_left == 0 ==> res == Err::<crate::callable::CallableSuccess, RuntimeError>(
            SourceMapped(RuntimeErrorType::EvaluationLimit, range),
        ) && final(interpreter).history@ == old(interpreter).history@,
        operands@.len() > 1 && old(interpreter).steps_left > 0 ==> final(interpreter).history@ == old(interpreter).history@.push(
            Step::Sequence {
                expressions: operands@.drop_first(),
                environment: old(interpreter).environment,
                heap: old(interpreter).pair_manager@,
                procedures: old(interpreter).procedures@,
                result: res,
            },
        ),
    decreases old(interpreter).steps_left, 0int,
{
    if operands.len() == 1 {
        return Err(RuntimeErrorType::MalformedSpecialForm.source_mapped(range));
    }
    interpreter.tick(range)?;
    proof {
        assert(operands@.subrange(1, operands@.len() as int) =~= operands@.drop_first());
    }
    interpreter.eval_expressions_in_tail_context(&operands[1..operands.len()])
}

/// `(let ((variable init) ...) body ...)`: the inits are evaluated in the
/// current scope, then bound in a new one where the body is evaluated.
pub fn _let<N: NumberSystem>(interpreter: &mut Interpreter<N>, range: SourceRange, operands: &[SourceValue]) -> (res: CallableResult)
    ensures
        final(interpreter).steps_left <= old(interpreter).steps_left,
        final(interpreter).source_mapper@ == old(interpreter).source_mapper@,
        final(interpreter).has_evaluated_library == old(interpreter).has_evaluated_library,
        res is Ok ==> stacks_kept(*old(interpreter), *final(interpreter)),
        operands@.len() == 0 ==> res == Err::<crate::callable::CallableSuccess, RuntimeError>(
            SourceMapped(RuntimeErrorType::MalformedSpecialForm, range),
        ),
        operands@.len() > 0 && old(interpreter).steps_left > 0 ==> match let_bindings(old(interpreter).pair_manager@, operands@, false) {
            Some(b) => let_from(
                final(interpreter).history@,
                old(interpreter).history@.len() as int,
                b,
                operands@.drop_first(),
                Seq::empty(),
                range,
                res,
            ),
            None => true,
        },
    decreases old(interpreter).steps_left, 1int,
{
    let bindings = parse_bindings(&interpreter.pair_manager, range, operands, false)?;
    interpreter.tick(range)?;
    let ghost start = old(interpreter).history@.len() as int;
    let mut values: Vec<SourceValue> = Vec::new();
    let mut i: usize = 0;
    while i < bindings.len()
        invariant
            i <= bindings@.len(),
            values@.len() == i,
            interpreter.steps_left < old(interpreter).steps_left,
            interpreter.source_mapper@ == old(interpreter).source_mapper@,
            interpreter.has_evaluated_library == old(interpreter).has_evaluated_library,
            stacks_kept(*old(interpreter), *interpreter),
            operands@.len() > 0,
            start == old(interpreter).history@.len(),
            interpreter.history@.len() == start + i,
            distinct_variables(bindings@),
            let_bindings(old(interpreter).pair_manager@, operands@, false) matches Some(b) ==> b == bindings@,
            forall|h: Seq<Step>, r: CallableResult|
                extends(h, interpreter.history@) && #[trigger] let_from(h, start + i, bindings@, operands@.drop_first(), values@, range, r)
                    ==> let_from(h, start, bindings@, operands@.drop_first(), Seq::empty(), range, r),
        decreases bindings@.len() - i,
    {
        let ghost at_init = interpreter.history@;
        let ghost values_before = values@;
        let value = match interpreter.eval_expression(&bindings[i].init) {
            Ok(v) => v,
            Err(e) => {
                proof {
                    let h = interpreter.history@;
                    assert(let_from(h, start + i, bindings@, operands@.drop_first(), values@, range, Err(e)));
                    assert(extends(h, at_init));
                }
                return Err(e);
            },
        };
        let ghost after = interpreter.history@;
        values.push(value);
        let ghost evaluated = i;
        i = i + 1;
        proof {
            assert forall|h: Seq<Step>, r: CallableResult|
                extends(h, interpreter.history@) && #[trigger] let_from(h, start + i, bindings@, operands@.drop_first(), values@, range, r)
                    implies let_from(h, start, bindings@, operands@.drop_first(), Seq::empty(), range, r) by {
                assert(h[start + evaluated] == after[start + evaluated]);
                assert(let_from(h, start + evaluated, bindings@, operands@.drop_first(), values_before, range, r));
                assert(extends(h, at_init));
            }
        }
    }
    let ghost after_inits = interpreter.history@;
    let ghost scopes_before = interpreter.environment.stack();
    interpreter.environment.push_inherited(range);
    let ghost scopes_inside = interpreter.environment.stack();
    let mut j: usize = 0;
    while j < bindings.len()
        invariant
            j <= bindings@.len(),
            values@.len() == bindings@.len(),
            interpreter.steps_left < old(interpreter).steps_left,
            interpreter.source_mapper@ == old(interpreter).source_mapper@,
            interpreter.has_evaluated_library == old(interpreter).has_evaluated_library,
            interpreter.stack@ == old(interpreter).stack@,
            interpreter.environment.stack() == scopes_inside,
            operands@.len() > 0,
            interpreter.environment.top_is_valid(),
            interpreter.history@ == after_inits,
            distinct_variables(bindings@),
            forall|m: int| 0 <= m < j ==> interpreter.environment.spec_get(#[trigger] bindings@[m].variable) == Some(values@[m]),
        decreases bindings@.len() - j,
    {
        interpreter.environment.define(bindings[j].variable, values[j]);
        j = j + 1;
    }
    let ghost env_inside = interpreter.environment;
    let result = match eval_body(interpreter, range, operands) {
        Ok(r) => r,
        Err(e) => {
            proof {
                let h = interpreter.history@;
                assert(let_from(h, start + bindings@.len(), bindings@, operands@.drop_first(), values@, range, Err(e)));
                assert(extends(h, after_inits));
            }
            return Err(e);
        },
    };
    proof {
        let h = interpreter.history@;
        assert(let_from(h, start + bindings@.len(), bindings@, operands@.drop_first(), values@, range, Ok(result)));
        assert(extends(h, after_inits));
    }
    // Note that the environment won't have been popped if an error occured above--this is
    // so we can examine it afterwards, if needed. It's up to the caller to clean things
    // up after an error.
    interpreter.environment.pop();
    proof {
        assert(scopes_inside.drop_last() =~= scopes_before);
    }
    Ok(result)
}

/// `(let* ((variable init) ...) body ...)`: each init is evaluated in a scope
/// where the variables before it are bound.
pub fn let_star<N: NumberSystem>(interpreter: &mut Interpreter<N>, range: SourceRange, operands: &[SourceValue]) -> (res: CallableResult)
    ensures
        final(interpreter).steps_left <= old(interpreter).steps_left,
        final(interpreter).source_mapper@ == old(interpreter).source_mapper@,
        final(interpreter).has_evaluated_library == old(interpreter).has_evaluated_library,
        res is Ok ==> stacks_kept(*old(interpreter), *final(interpreter)),
        operands@.len() == 0 ==> res == Err::<crate::callable::CallableSuccess, RuntimeError>(
            SourceMapped(RuntimeErrorType::MalformedSpecialForm, range),
        ),
        operands@.len() > 0 && old(interpreter).steps_left > 0 ==> match let_bindings(old(interpreter).pair_manager@, operands@, true) {
            Some(b) => sequential_from(
                final(interpreter).history@,
                old(interpreter).history@.len() as int,
                b,
                operands@.drop_first(),
                0,
                crate::interpreter::unmapped(Value::Undefined),
                true,
                false,
                range,
                res,
            ),
            None => true,
        },
    decreases old(interpreter).steps_left, 1int,
{
    let bindings = parse_bindings(&interpreter.pair_manager, range, operands, true)?;
    interpreter.tick(range)?;
    let ghost start = old(interpreter).history@.len() as int;
    let ghost mut previous = crate::interpreter::unmapped(Value::Undefined);
    let ghost scopes_before = interpreter.environment.stack();
    let mut i: usize = 0;
    while i < bindings.len()
        invariant
            i <= bindings@.len(),
            interpreter.steps_left < old(interpreter).steps_left,
            interpreter.source_mapper@ == old(interpreter).source_mapper@,
            interpreter.has_evaluated_library == old(interpreter).has_evaluated_library,
            interpreter.stack@ == old(interpreter).stack@,
            scopes_before == old(interpreter).environment.stack(),
            interpreter.environment.stack().len() == scopes_before.len() + i,
            interpreter.environment.stack().take(scopes_before.len() as int) == scopes_before,
            operands@.len() > 0,
            start == old(interpreter).history@.len(),
            interpreter.history@.len() == start + i,
            let_bindings(old(interpreter).pair_manager@, operands@, true) matches Some(b) ==> b == bindings@,
            i > 0 ==> interpreter.environment.spec_get(bindings@[i - 1].variable) == Some(previous),
            forall|h: Seq<Step>, r: CallableResult|
                extends(h, interpreter.history@) && #[trigger] sequential_from(
                    h,
                    start + i,
                    bindings@,
                    operands@.drop_first(),
                    i as nat,
                    previous,
                    true,
                    false,
                    range,
                    r,
                ) ==> sequential_from(
                    h,
                    start,
                    bindings@,
                    operands@.drop_first(),
                    0,
                    crate::interpreter::unmapped(Value::Undefined),
                    true,
                    false,
                    range,
                    r,
                ),
        decreases bindings@.len() - i,
    {
        let ghost before = interpreter.history@;
        let ghost previous_before = previous;
        let value = match interpreter.eval_expression(&bindings[i].init) {
            Ok(v) => v,
            Err(e) => {
                proof {
                    let h = interpreter.history@;
                    assert(sequential_from(h, start + i, bindings@, operands@.drop_first(), i as nat, previous, true, false, range, Err(e)));
                    assert(extends(h, before));
                }
                return Err(e);
            },
        };
        let ghost after = interpreter.history@;
        let ghost scopes_mid = interpreter.environment.stack();
        interpreter.environment.push_inherited(bindings[i].init.1);
        proof {
            assert(interpreter.environment.stack().take(scopes_before.len() as int) =~= scopes_mid.take(
                scopes_before.len() as int,
            ));
        }
        interpreter.environment.define(bindings[i].variable, value);
        proof {
            previous = value;
        }
        let ghost evaluated = i;
        i = i + 1;
        proof {
            assert forall|h: Seq<Step>, r: CallableResult|
                extends(h, interpreter.history@) && #[trigger] sequential_from(
                    h,
                    start + i,
                    bindings@,
                    operands@.drop_first(),
                    i as nat,
                    previous,
                    true,
                    false,
                    range,
                    r,
                ) implies sequential_from(
                    h,
                    start,
                    bindings@,
                    operands@.drop_first(),
                    0,
                    crate::interpreter::unmapped(Value::Undefined),
                    true,
                    false,
                    range,
                    r,
                ) by {
                assert(h[start + evaluated] == after[start + evaluated]);
                assert(sequential_from(h, start + evaluated, bindings@, operands@.drop_first(), evaluated as nat, previous_before, true, false, range, r));
                assert(extends(h, before));
            }
        }
    }
    let ghost after_inits = interpreter.history@;
    let result = match eval_body(interpreter, range, operands) {
        Ok(r) => r,
        Err(e) => {
            proof {
                let h = interpreter.history@;
                assert(sequential_from(h, start + bindings@.len(), bindings@, operands@.drop_first(), bindings@.len() as nat, previous, true, false, range, Err(e)));
                assert(extends(h, after_inits));
            }
            return Err(e);
        },
    };
    proof {
        let h = interpreter.history@;
        assert(sequential_from(h, start + bindings@.len(), bindings@, operands@.drop_first(), bindings@.len() as nat, previous, true, false, range, Ok(result)));
        assert(extends(h, after_inits));
    }
    let ghost after_body = interpreter.history@;
    // Note that the environment won't have been popped if an error occured above--this is
    // so we can examine it afterwards, if needed. It's up to the caller to clean things
    // up after an error.
    let mut k: usize = 0;
    while k < bindings.len()
        invariant
            k <= bindings@.len(),
            interpreter.steps_left <= old(interpreter).steps_left,
            interpreter.source_mapper@ == old(interpreter).source_mapper@,
            interpreter.has_evaluated_library == old(interpreter).has_evaluated_library,
            interpreter.stack@ == old(interpreter).stack@,
            interpreter.environment.stack().len() == scopes_before.len() + bindings@.len() - k,
            interpreter.environment.stack().take(scopes_before.len() as int) == scopes_before,
            interpreter.history@ == after_body,
        decreases bindings@.len() - k,
    {
        let ghost scopes_mid = interpreter.environment.stack();
        interpreter.environment.pop();
        proof {
            assert(interpreter.environment.stack().take(scopes_before.len() as int) =~= scopes_mid.take(
                scopes_before.len() as int,
            ));
        }
        k = k + 1;
    }
    proof {
        assert(interpreter.environment.stack() =~= interpreter.environment.stack().take(scopes_before.len() as int));
    }
    Ok(result)
}

/// `(letrec ((variable init) ...) body ...)`: the inits are evaluated in the
/// new scope, so that they can refer to each other.
pub fn letrec<N: NumberSystem>(interpreter: &mut Interpreter<N>, range: SourceRange, operands: &[SourceValue]) -> (res: CallableResult)
    ensures
        final(interpreter).steps_left <= old(interpreter).steps_left,
        final(interpreter).source_mapper@ == old(interpreter).source_mapper@,
        final(interpreter).has_evaluated_library == old(interpreter).has_evaluated_library,
        res is Ok ==> stacks_kept(*old(interpreter), *final(interpreter)),
        operands@.len() == 0 ==> res == Err::<crate::callable::CallableSuccess, RuntimeError>(
            SourceMapped(RuntimeErrorType::MalformedSpecialForm, range),
        ),
        operands@.len() > 0 && old(interpreter).steps_left > 0 ==> match let_bindings(old(interpreter).pair_manager@, operands@, false) {
            Some(b) => sequential_from(
                final(interpreter).history@,
                old(interpreter).history@.len() as int,
                b,
                operands@.drop_first(),
                0,
                crate::interpreter::unmapped(Value::Undefined),
                true,
                true,
                range,
                res,
            ),
            None => true,
        },
    decreases old(interpreter).steps_left, 1int,
{
    let bindings = parse_bindings(&interpreter.pair_manager, range, operands, false)?;
    interpreter.tick(range)?;
    let ghost start = old(interpreter).history@.len() as int;
    let ghost mut previous = crate::interpreter::unmapped(Value::Undefined);
    let ghost mut bound = true;
    let ghost scopes_before = interpreter.environment.stack();
    interpreter.environment.push_inherited(range);
    let ghost scopes_inside = interpreter.environment.stack();
    let mut i: usize = 0;
    while i < bindings.len()
        invariant
            i <= bindings@.len(),
            interpreter.steps_left < old(interpreter).steps_left,
            interpreter.source_mapper@ == old(interpreter).source_mapper@,
            interpreter.has_evaluated_library == old(interpreter).has_evaluated_library,
            interpreter.stack@ == old(interpreter).stack@,
            interpreter.environment.stack() == scopes_inside,
            operands@.len() > 0,
            start == old(interpreter).history@.len(),
            interpreter.history@.len() == start + i,
            let_bindings(old(interpreter).pair_manager@, operands@, false) matches Some(b) ==> b == bindings@,
            i > 0 && bound ==> interpreter.environment.spec_get(bindings@[i - 1].variable) == Some(previous),
            forall|h: Seq<Step>, r: CallableResult|
                extends(h, interpreter.history@) && #[trigger] sequential_from(
                    h,
                    start + i,
                    bindings@,
                    operands@.drop_first(),
                    i as nat,
                    previous,
                    bound,
                    true,
                    range,
                    r,
                ) ==> sequential_from(
                    h,
                    start,
                    bindings@,
                    operands@.drop_first(),
                    0,
                    crate::interpreter::unmapped(Value::Undefined),
                    true,
                    true,
                    range,
                    r,
                ),
        decreases bindings@.len() - i,
    {
        let ghost before = interpreter.history@;
        let ghost previous_before = previous;
        let ghost bound_before = bound;
        let value = match interpreter.eval_expression(&bindings[i].init) {
            Ok(v) => v,
            Err(e) => {
                proof {
                    let h = interpreter.history@;
                    assert(sequential_from(h, start + i, bindings@, operands@.drop_first(), i as nat, previous, bound, true, range, Err(e)));
                    assert(extends(h, before));
                }
                return Err(e);
            },
        };
        let ghost after = interpreter.history@;
        proof {
            bound = interpreter.environment.top_is_valid();
        }
        interpreter.environment.define(bindings[i].variable, value);
        proof {
            previous = value;
        }
        let ghost evaluated = i;
        i = i + 1;
        proof {
            assert forall|h: Seq<Step>, r: CallableResult|
                extends(h, interpreter.history@) && #[trigger] sequential_from(
                    h,
                    start + i,
                    bindings@,
                    operands@.drop_first(),
                    i as nat,
                    previous,
                    bound,
                    true,
                    range,
                    r,
                ) implies sequential_from(
                    h,
                    start,
                    bindings@,
                    operands@.drop_first(),
                    0,
                    crate::interpreter::unmapped(Value::Undefined),
                    true,
                    true,
                    range,
                    r,
                ) by {
                assert(h[start + evaluated] == after[start + evaluated]);
                assert(sequential_from(h, start + evaluated, bindings@, operands@.drop_first(), evaluated as nat, previous_before, bound_before, true, range, r));
                assert(extends(h, before));
            }
        }
    }
    let ghost after_inits = interpreter.history@;
    let result = match eval_body(interpreter, range, operands) {
        Ok(r) => r,
        Err(e) => {
            proof {
                let h = interpreter.history@;
                assert(sequential_from(h, start + bindings@.len(), bindings@, operands@.drop_first(), bindings@.len() as nat, previous, bound, true, range, Err(e)));
                assert(extends(h, after_inits));
            }
            return Err(e);
        },
    };
    proof {
        let h = interpreter.history@;
        assert(sequential_from(h, start + bindings@.len(), bindings@, operands@.drop_first(), bindings@.len() as nat, previous, bound, true, range, Ok(result)));
        assert(extends(h, after_inits));
    }
    // Note that the environment won't have been popped if an error occured above--this is
    // so we can examine it afterwards, if needed. It's up to the caller to clean things
    // up after an error.
    interpreter.environment.pop();
    proof {
        assert(scopes_inside.drop_last() =~= scopes_before);
    }
    Ok(result)
}

} // verus!
