use std::sync::mpsc::Receiver;

use vstd::prelude::*;

use crate::bound_procedure::BoundProcedure;
use crate::builtins;
use crate::builtins::library::{LIBRARY_CONTENTS, LIBRARY_FILENAME};
use crate::callable::{Callable, CallableResult, CallableSuccess, TailCallContext};
use crate::compound_procedure::{
    binds_parameters, signature_names_distinct, spec_signature_arity_ok, values_to_vec, Body, ClosureData, CompoundProcedure,
    Signature,
};
use crate::environment::{CapturedLexicalScope, Environment};
use crate::object_tracker::TrackedRef;
use crate::gc_rooted::GCRootManager;
use crate::mutable_string::StringStore;
use crate::number::NumberSystem;
use crate::pair::{is_chain, PairHeap, PairManager};
use crate::parser::{parse, ParseError, ParseErrorType};
use crate::procedure::Procedure;
use crate::source_mapped::{SourceMappable, SourceMapped, SourceRange};
use crate::source_mapper::{SourceId, SourceMapper};
use crate::special_form::SpecialForm;
use crate::stdio_printer::StdioPrinter;
use crate::string_interner::{InternedString, StringInterner};
use crate::text::{concat, usize_to_string};
use crate::tracked_stats::{string_texts, TrackedStats};
use crate::value::{list_items, SourceValue, Value};

verus! {

pub const DEFAULT_MAX_STACK_SIZE: usize = 128;

/// How many evaluation steps an interpreter may take before it stops with
/// `EvaluationLimit`; the default is the largest `u64`.
pub const DEFAULT_STEP_LIMIT: u64 = 18446744073709551615;

/// The ways in which evaluation can fail.
#[derive(Debug, Clone, Copy, PartialEq, Eq, Structural)]
pub enum RuntimeErrorType {
    Parse(ParseErrorType),
    UnboundVariable(InternedString),
    MalformedExpression,
    MalformedSpecialForm,
    MalformedBindingList,
    ExpectedNumber,
    ExpectedCallable,
    ExpectedProcedure,
    ExpectedIdentifier,
    ExpectedPair,
    ExpectedList,
    WrongNumberOfArguments,
    DuplicateParameter,
    DuplicateVariableInBindings,
    StackOverflow,
    KeyboardInterrupt,
    DivisionByZero,
    AssertionFailure,
    EvaluationLimit,
}

pub type RuntimeError = SourceMapped<RuntimeErrorType>;

/// A parse error seen as a runtime error at the same place.
pub fn runtime_error_from_parse_error(value: ParseError) -> (res: RuntimeError)
    ensures
        res == SourceMapped(RuntimeErrorType::Parse(value.0), value.1),
{
    RuntimeErrorType::Parse(value.0).source_mapped(value.1)
}

/// The receiving end of a channel, as `std::sync::mpsc` provides it.
#[verifier::external_type_specification]
#[verifier::external_body]
#[verifier::reject_recursive_types(T)]
pub struct ExReceiver<T>(Receiver<T>);

/// Calls `Receiver::try_recv`: whether a message (a key press of Ctrl-C) is
/// waiting. The answer depends on what other threads sent and is not stated.
#[verifier::external_body]
fn interrupt_requested(channel: &Receiver<()>) -> bool {
    channel.try_recv().is_ok()
}

/// What evaluating an expression that is not a list gives, where it gives a
/// value: the expression itself for a self-evaluating atom, the bound value
/// for a bound symbol, and nothing for anything else.
pub open spec fn atom_result(environment: Environment, e: SourceValue) -> Option<SourceValue> {
    match e.0 {
        Value::Undefined | Value::Number(_) | Value::Boolean(_) | Value::String(_) => Some(unmapped(e.0)),
        Value::Symbol(name) => environment.spec_get(name),
        _ => None,
    }
}

/// The value that `atom_result` gives, without its place in the source.
pub open spec fn atom_value(environment: Environment, e: SourceValue) -> Option<Value> {
    match atom_result(environment, e) {
        Some(v) => Some(v.0),
        None => None,
    }
}

/// What a combination gives whose items are `items` (the operator first),
/// where its operator is an atom or a bound symbol and the outcome does not
/// depend on evaluating anything more: an operator that is not callable fails
/// with `ExpectedCallable`, a special form gives what `special_form_outcome`
/// says, and a procedure call fails on a full call stack (`StackOverflow`) or
/// a wrong number of operands. `None` where evaluation goes on.
pub open spec fn call_outcome<N: NumberSystem>(state: Interpreter<N>, items: Seq<SourceValue>, range: SourceRange) -> Option<
    CallableResult,
> {
    match atom_value(state.environment, items[0]) {
        Some(Value::Callable(Callable::SpecialForm(f))) => builtins::special_form_outcome(f.func, range, items.drop_first()),
        Some(Value::Callable(Callable::Procedure(p))) => if state.stack@.len() >= state.max_stack_size {
            Some(Err(SourceMapped(RuntimeErrorType::StackOverflow, range)))
        } else if !is_valid_arity(p, items.len() - 1, state.procedures@) {
            Some(Err(SourceMapped(RuntimeErrorType::WrongNumberOfArguments, range)))
        } else {
            None
        },
        Some(_) => Some(Err(SourceMapped(RuntimeErrorType::ExpectedCallable, items[0].1))),
        None => None,
    }
}

/// Whether every expression of `s` is an atom or a bound symbol.
pub open spec fn all_atoms(environment: Environment, s: Seq<SourceValue>) -> bool {
    forall|i: int| 0 <= i < s.len() ==> #[trigger] atom_result(environment, s[i]) is Some
}

/// What evaluating each of the atoms of `s` gives.
pub open spec fn atom_results(environment: Environment, s: Seq<SourceValue>) -> Seq<SourceValue> {
    s.map_values(|e: SourceValue| atom_result(environment, e)->Some_0)
}

/// The procedure that a combination with items `items` (the operator first)
/// calls, where its operator and operands are atoms or bound symbols, the
/// operator gives a procedure and the number of operands suits it.
pub open spec fn atomic_call<N: NumberSystem>(state: Interpreter<N>, items: Seq<SourceValue>) -> Option<Procedure> {
    match atom_value(state.environment, items[0]) {
        Some(Value::Callable(Callable::Procedure(p))) => if is_valid_arity(p, items.len() - 1, state.procedures@)
            && all_atoms(state.environment, items.drop_first()) {
            Some(p)
        } else {
            None
        },
        _ => None,
    }
}

/// The lines that locate each call of `stack` in `sources`, indented, most
/// recent last.
pub open spec fn stack_lines(sources: Seq<(Seq<char>, Seq<char>)>, stack: Seq<SourceRange>) -> Seq<Seq<char>>
    decreases stack.len(),
{
    if stack.len() == 0 {
        Seq::empty()
    } else {
        stack_lines(sources, stack.drop_last()) + crate::source_mapper::trace_lines(sources, stack.last()).map_values(
            |l: Seq<char>| "  "@ + l,
        )
    }
}

/// The lines of a traceback of `stack`: a heading and the calls' places, or
/// nothing for an empty stack.
pub open spec fn traceback_lines(sources: Seq<(Seq<char>, Seq<char>)>, stack: Seq<SourceRange>) -> Seq<Seq<char>> {
    if stack.len() == 0 {
        Seq::empty()
    } else {
        seq!["Traceback (excluding tail calls, most recent call last):"@] + stack_lines(sources, stack)
    }
}

/// What evaluating source `id` in state `before` gives, as far as reading it
/// decides: a text that does not read gives its parse error (or
/// `InvalidNumber` at a number token that the number system refused before
/// the error), an empty text the undefined value, and a text that is one
/// boolean or undefined constant that constant.
pub open spec fn source_evaluation<N: NumberSystem>(
    before: Interpreter<N>,
    id: SourceId,
    res: Result<SourceValue, RuntimeError>,
) -> bool {
    let text = before.source_mapper@[id.0 as int].1;
    let reading = crate::parser::read_all(text, Some(id), 0);
    &&& match reading {
        Err(e) => res == Err::<SourceValue, RuntimeError>(SourceMapped(RuntimeErrorType::Parse(e.0), e.1)) || (
        res matches Err(x) && x.0 == RuntimeErrorType::Parse(ParseErrorType::InvalidNumber)
            && crate::parser::number_token_within(text, Some(id), x.1, 0, crate::parser::stop_of(e, text))),
        Ok(forms) => forms.len() == 0 ==> res == Ok::<SourceValue, RuntimeError>(unmapped(Value::Undefined)),
    }
    &&& before.steps_left >= 2 && before.keyboard_interrupt_channel is None ==> (lone_constant(reading) matches Some(a)
        ==> res == Ok::<SourceValue, RuntimeError>(unmapped(a)))
}

/// The constant that a text reads as where it is a boolean or the undefined
/// value alone.
pub open spec fn lone_constant(reading: Result<Seq<crate::parser::Form>, ParseError>) -> Option<Value> {
    match reading {
        Ok(forms) => if forms.len() == 1 {
            match forms[0] {
                crate::parser::Form::Leaf(t) => match t.0 {
                    crate::tokenizer::TokenType::Boolean(b) => Some(Value::Boolean(b)),
                    crate::tokenizer::TokenType::Undefined => Some(Value::Undefined),
                    _ => None,
                },
                _ => None,
            }
        } else {
            None
        },
        Err(_) => None,
    }
}

/// Whether `e` evaluates to itself whatever the environment: the undefined
/// value, a number, a boolean or a string.
pub open spec fn self_evaluating(e: SourceValue) -> bool {
    e.0 is Undefined || e.0 is Number || e.0 is Boolean || e.0 is String
}

/// What calling compound procedure `compound` gives where its definition
/// alone decides it: `ExpectedProcedure` for one that `procedures` does not
/// hold, the undefined value for an empty body, and the expression of a body
/// that is one self-evaluating expression. `None` where more goes into it.
pub open spec fn compound_outcome(procedures: Seq<ClosureData>, compound: CompoundProcedure, range: SourceRange) -> Option<
    CallableResult,
> {
    if compound.id >= procedures.len() {
        Some(Err(SourceMapped(RuntimeErrorType::ExpectedProcedure, range)))
    } else {
        let body = procedures[compound.id as int].body.0.0@;
        if body.len() == 0 {
            Some(Ok(CallableSuccess::Value(unmapped(Value::Undefined))))
        } else if body.len() == 1 && self_evaluating(body[0]) {
            Some(Ok(CallableSuccess::Value(unmapped(body[0].0))))
        } else {
            None
        }
    }
}

/// What a combination with items `items` gives where its operator is an atom
/// or bound symbol giving a procedure and `atomic_call_outcome` decides it.
pub open spec fn atomic_combination_outcome<N: NumberSystem>(
    state: Interpreter<N>,
    items: Seq<SourceValue>,
    range: SourceRange,
) -> Option<CallableResult> {
    match atom_value(state.environment, items[0]) {
        Some(Value::Callable(Callable::Procedure(p))) => atomic_call_outcome(state, p, items.drop_first(), range),
        _ => None,
    }
}

/// What calling procedure `p` on `operands` gives where the first step
/// decides it: with no interrupt channel and atoms for operands, a full call
/// stack gives `StackOverflow`, a wrong number of operands
/// `WrongNumberOfArguments`, and otherwise the builtin's or the compound
/// procedure's outcome on the operands' values.
pub open spec fn atomic_call_outcome<N: NumberSystem>(
    state: Interpreter<N>,
    p: Procedure,
    operands: Seq<SourceValue>,
    range: SourceRange,
) -> Option<CallableResult> {
    if state.keyboard_interrupt_channel is Some || !all_atoms(state.environment, operands) {
        None
    } else if state.stack@.len() >= state.max_stack_size {
        Some(Err(SourceMapped(RuntimeErrorType::StackOverflow, range)))
    } else if !is_valid_arity(p, operands.len() as int, state.procedures@) {
        Some(Err(SourceMapped(RuntimeErrorType::WrongNumberOfArguments, range)))
    } else {
        match p {
            Procedure::Builtin(b) => builtins::builtin_outcome(
                state.pair_manager@,
                b.func,
                range,
                atom_results(state.environment, operands),
            ),
            Procedure::Compound(c) => compound_outcome(state.procedures@, c, range),
        }
    }
}

/// One step of evaluation in an interpreter's history: an evaluation or a
/// call that is over, with what came of it. The steps that it took itself
/// are folded into it and are not part of the history.
pub enum Step {
    /// `expression` was evaluated completely, starting in `start`, taking
    /// the steps `inner` itself; `environment`, `heap` and `printer` are the
    /// environment, the pair heap and the printer as they were when it was
    /// over.
    Evaluation {
        expression: SourceValue,
        result: Result<SourceValue, RuntimeError>,
        start: Environment,
        environment: Environment,
        heap: PairHeap,
        printer: StdioPrinter,
        inner: Seq<Step>,
    },
    /// The tail call that `bound` describes was made.
    TailCall { bound: BoundProcedure, result: CallableResult },
    /// `expression` was evaluated in tail position, taking the steps `inner`
    /// itself.
    TailEvaluation { expression: SourceValue, result: CallableResult, inner: Seq<Step> },
    /// `expressions` were evaluated in turn, the last in tail position,
    /// starting in `environment` over `heap`, with the compound procedures
    /// `procedures`.
    Sequence {
        expressions: Seq<SourceValue>,
        environment: Environment,
        heap: PairHeap,
        procedures: Seq<ClosureData>,
        result: CallableResult,
    },
    /// The source with id `source` was parsed.
    Parse { source: SourceId, result: Result<Vec<SourceValue>, ParseError> },
    /// The special form `form` was applied to `operands`.
    SpecialFormCall { form: SpecialForm, operands: Seq<SourceValue>, result: CallableResult },
    /// `procedure` was called with `operands`, which were evaluated first
    /// where `evaluate_operands` is set, taking the steps `inner` itself.
    Call {
        procedure: Procedure,
        operands: Seq<SourceValue>,
        evaluate_operands: bool,
        result: CallableResult,
        inner: Seq<Step>,
    },
}

/// The step that records the complete evaluation of `expression`, started
/// in `start`, taking the steps `inner` and giving `result`, in an
/// interpreter that is left as `state`.
pub open spec fn evaluation_step<N: NumberSystem>(
    state: Interpreter<N>,
    start: Environment,
    expression: SourceValue,
    result: Result<SourceValue, RuntimeError>,
    inner: Seq<Step>,
) -> Step {
    Step::Evaluation {
        expression,
        result,
        start,
        environment: state.environment,
        heap: state.pair_manager@,
        printer: state.printer,
        inner,
    }
}

/// The steps that the evaluation or the call that `step` records took
/// itself.
pub open spec fn inner_steps(step: Step) -> Seq<Step> {
    match step {
        Step::Evaluation { inner, .. } => inner,
        Step::Call { inner, .. } => inner,
        Step::TailEvaluation { inner, .. } => inner,
        _ => Seq::empty(),
    }
}

/// Whether `step` records the evaluation of `expression` in tail position
/// that gave `result`.
pub open spec fn tail_evaluation_of(step: Step, expression: SourceValue, result: CallableResult) -> bool {
    step matches Step::TailEvaluation { expression: e, result: r, .. } && e == expression && r == result
}

/// Whether `step` records a call of `procedure` with `operands`, evaluated
/// first where `evaluate_operands` is set, that gave `result`.
pub open spec fn call_made(
    step: Step,
    procedure: Procedure,
    operands: Seq<SourceValue>,
    evaluate_operands: bool,
    result: CallableResult,
) -> bool {
    step matches Step::Call { procedure: p, operands: o, evaluate_operands: e, result: r, .. } && p == procedure && o
        == operands && e == evaluate_operands && r == result
}

/// Whether `steps`, from index `n` on, show the body of `procedure` run with
/// the operand values `values`, at `range`, giving `res`: a compound
/// procedure's body, as the procedures then are, is evaluated in turn where
/// its parameters are bound to the values (the rest parameter, if any, to a
/// list of the remaining ones) and gives the result, and one that is not
/// there gives `ExpectedProcedure`. With no step taken, the step limit was
/// reached.
pub open spec fn body_ran(
    steps: Seq<Step>,
    n: int,
    procedure: Procedure,
    values: Seq<SourceValue>,
    range: SourceRange,
    res: CallableResult,
) -> bool {
    (steps.len() == n && res == Err::<CallableSuccess, RuntimeError>(SourceMapped(RuntimeErrorType::EvaluationLimit, range)))
        || match procedure {
        Procedure::Compound(c) => (steps.len() == n && res == Err::<CallableSuccess, RuntimeError>(
            SourceMapped(RuntimeErrorType::ExpectedProcedure, range),
        )) || (steps.len() == n + 1 && match steps[n] {
            Step::Sequence { expressions, environment, heap, procedures, result } => {
                let closure = procedures[c.id as int];
                &&& c.id < procedures.len()
                &&& expressions == closure.body.0.0@
                &&& result == res
                &&& signature_names_distinct(&closure.signature) && spec_signature_arity_ok(
                    &closure.signature,
                    values.len() as int,
                ) ==> binds_parameters(&closure.signature, values, environment, heap)
            },
            _ => false,
        }),
        Procedure::Builtin(_) => true,
    }
}

/// Whether `steps` are those of a call of `procedure` with `operands`, at
/// `range`, giving `res`: where `evaluate_operands` is set, the operands are
/// first evaluated in turn, an evaluation that fails ending it with that
/// error; then the body runs with their values (or the operands themselves),
/// as `body_ran` says. With no step taken, the step limit was reached.
pub open spec fn procedure_called(
    steps: Seq<Step>,
    procedure: Procedure,
    operands: Seq<SourceValue>,
    evaluate_operands: bool,
    range: SourceRange,
    res: CallableResult,
) -> bool {
    if evaluate_operands {
        (steps.len() == 0 && res == Err::<CallableSuccess, RuntimeError>(SourceMapped(RuntimeErrorType::EvaluationLimit, range)))
            || (exists|e: RuntimeError|
            #[trigger] bound_in_turn(steps, 0, operands, 0, Seq::empty(), Err(e)) && res == Err::<CallableSuccess, RuntimeError>(e))
            || (exists|values: Seq<SourceValue>|
            #[trigger] bound_in_turn(steps.take(operands.len() as int), 0, operands, 0, Seq::empty(), Ok(values)) && body_ran(
                steps,
                operands.len() as int,
                procedure,
                values,
                range,
                res,
            ))
    } else {
        body_ran(steps, 0, procedure, operands, range, res)
    }
}

/// Whether `steps`, from index `j` on, show the tail calls that evaluation
/// makes once a call has given `current`, at `range`: while it gives a tail
/// call, the call that it binds is made and gives what comes next; a value
/// is the result. A call that fails ends it with that error; with no step
/// after a tail call, the step limit was reached.
pub open spec fn tail_calls_made(
    steps: Seq<Step>,
    j: int,
    current: CallableResult,
    range: SourceRange,
    res: Result<SourceValue, RuntimeError>,
) -> bool
    decreases steps.len() - j,
{
    match current {
        Err(e) => steps.len() == j && res == Err::<SourceValue, RuntimeError>(e),
        Ok(CallableSuccess::Value(v)) => steps.len() == j && res == Ok::<SourceValue, RuntimeError>(v),
        Ok(CallableSuccess::TailCall(c)) => if j < steps.len() {
            match steps[j] {
                Step::TailCall { bound, result } => bound == c.bound_procedure && tail_calls_made(steps, j + 1, result, range, res),
                _ => false,
            }
        } else {
            steps.len() == j && res == Err::<SourceValue, RuntimeError>(SourceMapped(RuntimeErrorType::EvaluationLimit, range))
        },
    }
}

/// Whether `steps` are those of the complete evaluation of the combination
/// with items `items`, at `range`, giving `res`: its operator is evaluated
/// and its call made as `combination_called` says, and then the tail calls
/// that this leads to, as `tail_calls_made` says.
pub open spec fn combination_evaluated(steps: Seq<Step>, items: Seq<SourceValue>, range: SourceRange, res: Result<SourceValue, RuntimeError>) -> bool {
    exists|n: int, first: CallableResult|
        0 <= n <= steps.len() && #[trigger] combination_called(steps.take(n), 0, items, range, first) && tail_calls_made(
            steps,
            n,
            first,
            range,
            res,
        )
}

/// Whether `longer` begins with the steps of `shorter`.
pub open spec fn extends(longer: Seq<Step>, shorter: Seq<Step>) -> bool {
    shorter.len() <= longer.len() && forall|j: int| 0 <= j < shorter.len() ==> #[trigger] longer[j] == shorter[j]
}

/// Whether `history`, from index `k` on, shows `expressions`, from the one
/// at `i` on, evaluated completely in turn, `last` being the value of the
/// one before: the result is the value of the last one (`last` where none is
/// left). An evaluation that fails ends it with that error.
pub open spec fn evaluated_in_turn(
    history: Seq<Step>,
    k: int,
    expressions: Seq<SourceValue>,
    i: nat,
    last: SourceValue,
    res: Result<SourceValue, RuntimeError>,
) -> bool
    decreases expressions.len() - i,
{
    if i >= expressions.len() {
        history.len() == k && res == Ok::<SourceValue, RuntimeError>(last)
    } else {
        history.len() > k && match history[k] {
            Step::Evaluation { expression, result, .. } => expression == expressions[i as int] && match result {
                Err(e) => history.len() == k + 1 && res == Err::<SourceValue, RuntimeError>(e),
                Ok(v) => evaluated_in_turn(history, k + 1, expressions, i + 1, v, res),
            },
            _ => false,
        }
    }
}

/// Whether `history`, from index `k` on, shows the operands of a call, from
/// the one at `i` on, evaluated completely in turn, the earlier ones having
/// given `values`: the result is the values of all of them, in their order.
/// An evaluation that fails ends it with that error.
pub open spec fn bound_in_turn(
    history: Seq<Step>,
    k: int,
    operands: Seq<SourceValue>,
    i: nat,
    values: Seq<SourceValue>,
    res: Result<Seq<SourceValue>, RuntimeError>,
) -> bool
    decreases operands.len() - i,
{
    if i >= operands.len() {
        history.len() == k && res == Ok::<Seq<SourceValue>, RuntimeError>(values)
    } else {
        history.len() > k && match history[k] {
            Step::Evaluation { expression, result, .. } => expression == operands[i as int] && match result {
                Err(e) => history.len() == k + 1 && res == Err::<Seq<SourceValue>, RuntimeError>(e),
                Ok(v) => bound_in_turn(history, k + 1, operands, i + 1, values.push(v), res),
            },
            _ => false,
        }
    }
}

/// The operands that a binding gives, or its error.
pub open spec fn bound_operands(res: Result<BoundProcedure, RuntimeError>) -> Result<Seq<SourceValue>, RuntimeError> {
    match res {
        Ok(b) => Ok(b.operands@),
        Err(e) => Err(e),
    }
}

/// Whether `history`, from index `k` on, shows a call of the compound
/// procedure `compound` with `operands`, made in `before` with the compound
/// procedures `procedures`, at `range`, giving `res`: its body is evaluated in
/// turn in a new innermost scope, where each parameter is bound to its
/// operand (the rest parameter, if any, to a list of the remaining ones),
/// and gives the result; a procedure that is not there gives
/// `ExpectedProcedure`.
pub open spec fn ran_body(
    history: Seq<Step>,
    k: int,
    compound: CompoundProcedure,
    procedures: Seq<ClosureData>,
    operands: Seq<SourceValue>,
    before: Environment,
    range: SourceRange,
    res: CallableResult,
) -> bool {
    if compound.id >= procedures.len() {
        history.len() == k && res == Err::<CallableSuccess, RuntimeError>(SourceMapped(RuntimeErrorType::ExpectedProcedure, range))
    } else {
        history.len() == k + 1 && match history[k] {
            Step::Sequence { expressions, environment, heap, procedures: at_call, result } => {
                let closure = procedures[compound.id as int];
                &&& at_call == procedures
                &&& expressions == closure.body.0.0@
                &&& result == res
                &&& environment.stack() == before.stack().push(TrackedRef(before.scopes().len() as usize))
                &&& signature_names_distinct(&closure.signature) && spec_signature_arity_ok(
                    &closure.signature,
                    operands.len() as int,
                ) ==> binds_parameters(&closure.signature, operands, environment, heap)
            },
            _ => false,
        }
    }
}

/// Whether `history`, from index `k` on, shows a combination with items
/// `items`, at `range`, evaluated up to its call, giving `res`: the operator
/// is evaluated first; a procedure is then called with the operands, which
/// that call evaluates, or a special form applied to them, and that gives the
/// result (unless the step limit is reached before it); a value that is not
/// callable gives
/// `ExpectedCallable`. An operator that fails ends it with that error.
pub open spec fn combination_called(history: Seq<Step>, k: int, items: Seq<SourceValue>, range: SourceRange, res: CallableResult) -> bool {
    history.len() > k && match history[k] {
        Step::Evaluation { expression, result, .. } => expression == items[0] && match result {
            Err(e) => history.len() == k + 1 && res == Err::<CallableSuccess, RuntimeError>(e),
            Ok(v) => match v.0 {
                Value::Callable(Callable::Procedure(p)) => (history.len() == k + 1 && res == Err::<CallableSuccess, RuntimeError>(
                    SourceMapped(RuntimeErrorType::EvaluationLimit, range),
                )) || (history.len() == k + 2 && call_made(history[k + 1], p, items.drop_first(), true, res)),
                Value::Callable(Callable::SpecialForm(f)) => (history.len() == k + 1 && res == Err::<CallableSuccess, RuntimeError>(
                    SourceMapped(RuntimeErrorType::EvaluationLimit, range),
                )) || (history.len() == k + 2 && history[k + 1] == (Step::SpecialFormCall {
                    form: f,
                    operands: items.drop_first(),
                    result: res,
                })),
                _ => history.len() == k + 1 && res == Err::<CallableSuccess, RuntimeError>(
                    SourceMapped(RuntimeErrorType::ExpectedCallable, items[0].1),
                ),
            },
        },
        _ => false,
    }
}

/// Whether `history`, from index `k` on, shows a combination with items
/// `items`, at `range`, bound for a tail call, giving `res`: the operator is
/// evaluated; for a procedure, the operands are then evaluated in turn and,
/// where that succeeds, the procedure is bound to their values, in their
/// order; a special form leaves the combination to be evaluated as a whole;
/// a value that is not callable gives `ExpectedCallable`. An operator that
/// fails ends it with that error.
pub open spec fn tail_call_bound(
    history: Seq<Step>,
    k: int,
    items: Seq<SourceValue>,
    range: SourceRange,
    res: Result<Option<TailCallContext>, RuntimeError>,
) -> bool {
    history.len() > k && match history[k] {
        Step::Evaluation { expression, result, .. } => expression == items[0] && match result {
            Err(e) => history.len() == k + 1 && res == Err::<Option<TailCallContext>, RuntimeError>(e),
            Ok(v) => match v.0 {
                Value::Callable(Callable::Procedure(p)) => match res {
                    Ok(Some(c)) => c.bound_procedure.procedure == p && c.bound_procedure.range == range && bound_in_turn(
                        history,
                        k + 1,
                        items.drop_first(),
                        0,
                        Seq::empty(),
                        Ok(c.bound_procedure.operands@),
                    ),
                    Ok(None) => false,
                    Err(_) => true,
                },
                Value::Callable(Callable::SpecialForm(_)) => history.len() == k + 1 && res == Ok::<
                    Option<TailCallContext>,
                    RuntimeError,
                >(None),
                _ => history.len() == k + 1 && res == Err::<Option<TailCallContext>, RuntimeError>(
                    SourceMapped(RuntimeErrorType::ExpectedCallable, items[0].1),
                ),
            },
        },
        _ => false,
    }
}

/// Whether `history`, from index `k` on, shows the source `source`
/// evaluated, giving `res`: it is parsed, and each form it holds is
/// evaluated completely in turn, the result being the value of the last
/// (undefined where there is none). A parse error, or an evaluation that
/// fails, ends it with that error.
pub open spec fn source_evaluated(history: Seq<Step>, k: int, source: SourceId, res: Result<SourceValue, RuntimeError>) -> bool {
    history.len() > k && match history[k] {
        Step::Parse { source: parsed, result } => parsed == source && match result {
            Err(e) => history.len() == k + 1 && res == Err::<SourceValue, RuntimeError>(
                SourceMapped(RuntimeErrorType::Parse(e.0), e.1),
            ),
            Ok(forms) => evaluated_in_turn(history, k + 1, forms@, 0, unmapped(Value::Undefined), res),
        },
        _ => false,
    }
}

/// Whether `steps` are those of the combination `combination`, with items
/// `items`, at `range`, evaluated in tail position, giving `res`: its
/// operator is evaluated; a procedure is then bound, for the caller to call,
/// to the values of the operands, evaluated in turn; a special form has the
/// combination, as its items then are, evaluated as a whole, as
/// `combination_called` says (unless the step limit is reached first); a value
/// that is not callable gives `ExpectedCallable`. An operator that fails ends
/// it with that error.
pub open spec fn tail_evaluated(
    steps: Seq<Step>,
    combination: Value,
    items: Seq<SourceValue>,
    range: SourceRange,
    res: CallableResult,
) -> bool {
    steps.len() > 0 && match steps[0] {
        Step::Evaluation { expression, result, heap, .. } => expression == items[0] && match result {
            Err(e) => steps.len() == 1 && res == Err::<CallableSuccess, RuntimeError>(e),
            Ok(v) => match v.0 {
                Value::Callable(Callable::Procedure(p)) => match res {
                    Ok(CallableSuccess::TailCall(c)) => c.bound_procedure.procedure == p && c.bound_procedure.range == range
                        && bound_in_turn(steps, 1, items.drop_first(), 0, Seq::empty(), Ok(c.bound_procedure.operands@)),
                    Ok(CallableSuccess::Value(_)) => false,
                    Err(_) => true,
                },
                Value::Callable(Callable::SpecialForm(_)) => (steps.len() == 1 && res is Err) || match list_items(
                    heap,
                    combination,
                ) {
                    Some(again) => combination_called(steps.skip(1), 0, again, range, res),
                    None => false,
                },
                _ => steps.len() == 1 && res == Err::<CallableSuccess, RuntimeError>(
                    SourceMapped(RuntimeErrorType::ExpectedCallable, items[0].1),
                ),
            },
        },
        _ => false,
    }
}

/// Whether two interpreter states have the same call stack and the same
/// active lexical scopes.
pub open spec fn stacks_kept<N: NumberSystem>(a: Interpreter<N>, b: Interpreter<N>) -> bool {
    a.stack@ == b.stack@ && a.environment.stack() == b.environment.stack()
}

/// A value with an empty source range.
pub open spec fn unmapped(v: Value) -> SourceValue {
    SourceMapped(v, (0usize, 0usize, None::<SourceId>))
}

/// Evaluates Scheme code.
pub struct Interpreter<N: NumberSystem> {
    pub environment: Environment,
    pub string_interner: StringInterner,
    pub pair_manager: PairManager,
    pub strings: StringStore,
    pub source_mapper: SourceMapper,
    pub tracing: bool,
    pub max_stack_size: usize,
    pub keyboard_interrupt_channel: Option<Receiver<()>>,
    pub printer: StdioPrinter,
    pub failed_tests: usize,
    pub numbers: N,
    /// How many more evaluation steps may be taken.
    pub steps_left: u64,
    pub tracked_stats: Option<TrackedStats>,
    pub has_evaluated_library: bool,
    pub procedures: Vec<ClosureData>,
    pub stack: Vec<SourceRange>,
    pub stack_traversal_root: GCRootManager<SourceValue>,
    /// The steps of evaluation taken so far at the current level: an
    /// evaluation or a call that records the steps it takes itself shows
    /// them only inside its own step.
    pub history: Ghost<Seq<Step>>,
}

impl<N: NumberSystem> Interpreter<N> {
    pub fn new(numbers: N) -> (res: Self)
        ensures
            res.stack@.len() == 0,
            res.environment.stack().len() == 0,
            res.procedures@.len() == 0,
            res.pair_manager@.len() == 0,
            exists|name: InternedString|
                0 <= name.id() < res.string_interner@.len() && #[trigger] res.string_interner@[name.id()] == "else"@
                    && res.environment.spec_get(name) == Some(unmapped(Value::Boolean(true))),
            crate::builtins::binds_builtins(res.string_interner@, res.environment, crate::builtins::builtin_table()),
            res.steps_left == DEFAULT_STEP_LIMIT,
            res.max_stack_size == DEFAULT_MAX_STACK_SIZE,
            !res.has_evaluated_library,
    {
        let mut string_interner = StringInterner::new();
        let mut environment = Environment::new();
        builtins::populate_environment(&mut environment, &mut string_interner);
        let ghost else_name = choose|name: InternedString|
            0 <= name.id() < string_interner@.len() && #[trigger] string_interner@[name.id()] == "else"@
                && environment.spec_get(name) == Some(unmapped(Value::Boolean(true)));
        let res = Interpreter {
            environment,
            string_interner,
            pair_manager: PairManager::new(),
            strings: StringStore::new(),
            source_mapper: SourceMapper::new(),
            tracing: false,
            max_stack_size: DEFAULT_MAX_STACK_SIZE,
            keyboard_interrupt_channel: None,
            printer: StdioPrinter::new(),
            failed_tests: 0,
            numbers,
            steps_left: DEFAULT_STEP_LIMIT,
            tracked_stats: None,
            has_evaluated_library: false,
            procedures: Vec::new(),
            stack: Vec::new(),
            stack_traversal_root: GCRootManager::new(),
            history: Ghost(Seq::empty()),
        };
        assert(res.string_interner@[else_name.id()] == "else"@);
        res
    }

    /// Takes one evaluation step, failing when no steps are left.
    pub fn tick(&mut self, range: SourceRange) -> (res: Result<(), RuntimeError>)
        ensures
            old(self).steps_left > 0 ==> res is Ok && final(self).steps_left == old(self).steps_left - 1,
            old(self).steps_left == 0 ==> res == Err::<(), RuntimeError>(SourceMapped(RuntimeErrorType::EvaluationLimit, range))
                && final(self).steps_left == 0,
            final(self).source_mapper@ == old(self).source_mapper@,
            final(self).has_evaluated_library == old(self).has_evaluated_library,
            final(self).pair_manager@ == old(self).pair_manager@,
            final(self).procedures@ == old(self).procedures@,
            final(self).environment == old(self).environment,
            final(self).stack@ == old(self).stack@,
            final(self).max_stack_size == old(self).max_stack_size,
            final(self).keyboard_interrupt_channel == old(self).keyboard_interrupt_channel,
            old(self).steps_left > 0 ==> *final(self) == (Interpreter { steps_left: (old(self).steps_left - 1) as u64, ..*old(self) }),
            old(self).steps_left == 0 ==> *final(self) == *old(self),
    {
        if self.steps_left == 0 {
            return Err(RuntimeErrorType::EvaluationLimit.source_mapped(range));
        }
        self.steps_left = self.steps_left - 1;
        Ok(())
    }

    /// Defines a new compound procedure and returns a handle on it.
    pub fn create_procedure(
        &mut self,
        signature: Signature,
        body: Body,
        captured_lexical_scope: CapturedLexicalScope,
    ) -> (res: CompoundProcedure)
        ensures
            res.name is None,
            res.id == old(self).procedures@.len(),
            final(self).procedures@.len() == old(self).procedures@.len() + 1,
            final(self).procedures@.take(old(self).procedures@.len() as int) == old(self).procedures@,
            final(self).procedures@.last().captured_lexical_scope == captured_lexical_scope,
            final(self).procedures@.last().signature == signature,
            final(self).procedures@.last().body == body,
            final(self).environment == old(self).environment,
            final(self).pair_manager@ == old(self).pair_manager@,
            final(self).steps_left == old(self).steps_left,
            final(self).source_mapper@ == old(self).source_mapper@,
            final(self).has_evaluated_library == old(self).has_evaluated_library,
            stacks_kept(*old(self), *final(self)),
    {
        let id = self.procedures.len();
        self.procedures.push(ClosureData { signature, body, captured_lexical_scope });
        assert(self.procedures@.take(old(self).procedures@.len() as int) =~= old(self).procedures@);
        CompoundProcedure { name: None, id }
    }

    pub fn print_stats(&mut self)
        ensures
            final(self).history == old(self).history,
            final(self).steps_left == old(self).steps_left,
            final(self).source_mapper@ == old(self).source_mapper@,
            final(self).has_evaluated_library == old(self).has_evaluated_library,
            stacks_kept(*old(self), *final(self)),
            final(self).printer.autoflush_disabled() == old(self).printer.autoflush_disabled(),
            (final(self).printer.buffer(), final(self).printer.output()) == crate::stdio_printer::print_lines_state(
                old(self).printer.buffer(),
                old(self).printer.output(),
                seq![
                    crate::pair::pair_stats_text(old(self).pair_manager@),
                    crate::environment::scope_stats_text(old(self).environment.scopes()),
                    "Objects in call stack: "@ + crate::text::decimal(old(self).stack_traversal_root.all().len()),
                    "Interned strings: "@ + crate::text::decimal(old(self).string_interner@.len()),
                ],
                old(self).printer.autoflush_disabled(),
            ),
    {
        let ghost flag = self.printer.autoflush_disabled();
        let ghost p0 = (self.printer.buffer(), self.printer.output());
        let pairs = self.pair_manager.get_stats_as_string();
        self.printer.println(pairs.as_str());
        let ghost p1 = (self.printer.buffer(), self.printer.output());
        let scopes = self.environment.get_stats_as_string();
        self.printer.println(scopes.as_str());
        let ghost p2 = (self.printer.buffer(), self.printer.output());
        let objects = concat("Objects in call stack: ", usize_to_string(self.stack_traversal_root.len()).as_str());
        self.printer.println(objects.as_str());
        let ghost p3 = (self.printer.buffer(), self.printer.output());
        let interned = concat("Interned strings: ", usize_to_string(self.string_interner.len()).as_str());
        self.printer.println(interned.as_str());
        proof {
            let l = seq![pairs@, scopes@, objects@, interned@];
            assert(l.drop_last().drop_last().drop_last().drop_last() =~= Seq::<Seq<char>>::empty());
            assert(crate::stdio_printer::print_lines_state(p0.0, p0.1, l.take(0), flag) == p0);
            assert(l.take(1).drop_last() =~= l.take(0));
            assert(l.take(2).drop_last() =~= l.take(1));
            assert(l.take(3).drop_last() =~= l.take(2));
            assert(l.take(4).drop_last() =~= l.take(3));
            assert(crate::stdio_printer::print_lines_state(p0.0, p0.1, l.take(1), flag) == p1);
            assert(crate::stdio_printer::print_lines_state(p0.0, p0.1, l.take(2), flag) == p2);
            assert(crate::stdio_printer::print_lines_state(p0.0, p0.1, l.take(3), flag) == p3);
            assert(l.take(4) =~= l);
        }
    }

    fn expect_callable(&mut self, expression: &SourceValue) -> (res: Result<Callable, RuntimeError>)
        ensures
            final(self).steps_left <= old(self).steps_left,
            final(self).source_mapper@ == old(self).source_mapper@,
            final(self).has_evaluated_library == old(self).has_evaluated_library,
            res is Ok ==> stacks_kept(*old(self), *final(self)),
            old(self).steps_left >= 3 && !(expression.0 is Pair) ==> *final(self) == (Interpreter {
                steps_left: (old(self).steps_left - 3) as u64,
                history: final(self).history,
                ..*old(self)
            }),
            old(self).steps_left >= 3 && old(self).keyboard_interrupt_channel is None ==> match atom_value(
                old(self).environment,
                *expression,
            ) {
                Some(Value::Callable(c)) => res == Ok::<Callable, RuntimeError>(c),
                Some(_) => res == Err::<Callable, RuntimeError>(SourceMapped(RuntimeErrorType::ExpectedCallable, expression.1)),
                None => true,
            },
            old(self).steps_left > 0 ==> final(self).history@.len() == old(self).history@.len() + 1 && (
            final(self).history@.last() matches Step::Evaluation { expression: e, result, .. } && e == *expression
                && match result {
                Err(err) => res == Err::<Callable, RuntimeError>(err),
                Ok(v) => match v.0 {
                    Value::Callable(c) => res == Ok::<Callable, RuntimeError>(c),
                    _ => res == Err::<Callable, RuntimeError>(SourceMapped(RuntimeErrorType::ExpectedCallable, expression.1)),
                },
            }),
            extends(final(self).history@, old(self).history@),
            old(self).steps_left > 0 ==> (final(self).history@.last() matches Step::Evaluation { heap, .. } && heap
                == final(self).pair_manager@),
            old(self).steps_left == 0 ==> res == Err::<Callable, RuntimeError>(
                SourceMapped(RuntimeErrorType::EvaluationLimit, expression.1),
            ) && *final(self) == *old(self),
        decreases old(self).steps_left,
    {
        self.tick(expression.1)?;
        let value = self.eval_expression(expression)?;
        if let Value::Callable(callable) = value.0 {
            Ok(callable)
        } else {
            Err(RuntimeErrorType::ExpectedCallable.source_mapped(expression.1))
        }
    }

    fn eval_callable(
        &mut self,
        callable: Callable,
        operands: &[SourceValue],
        operator_source_range: SourceRange,
        combination_source_range: SourceRange,
    ) -> (res: CallableResult)
        ensures
            final(self).steps_left <= old(self).steps_left,
            final(self).source_mapper@ == old(self).source_mapper@,
            final(self).has_evaluated_library == old(self).has_evaluated_library,
            res is Ok ==> stacks_kept(*old(self), *final(self)),
            old(self).steps_left >= 3 ==> (callable matches Callable::SpecialForm(f) ==> (
            builtins::special_form_outcome(f.func, combination_source_range, operands@) matches Some(r) ==> res == r)),
            old(self).steps_left >= 2 ==> (callable is Procedure && old(self).stack@.len() >= old(self).max_stack_size
                ==> res == Err::<CallableSuccess, RuntimeError>(
                SourceMapped(RuntimeErrorType::StackOverflow, combination_source_range),
            )),
            old(self).steps_left >= 3 ==> (callable matches Callable::Procedure(p) ==> (old(self).stack@.len()
                < old(self).max_stack_size && !is_valid_arity(p, operands@.len() as int, old(self).procedures@) ==> res
                == Err::<CallableSuccess, RuntimeError>(
                SourceMapped(RuntimeErrorType::WrongNumberOfArguments, combination_source_range),
            ))),
            old(self).steps_left >= 9 + 2 * operands@.len() ==> (callable matches Callable::Procedure(p) ==> (
            atomic_call_outcome(*old(self), p, operands@, combination_source_range) matches Some(r) ==> res == r)),
            old(self).steps_left == 0 ==> res == Err::<CallableSuccess, RuntimeError>(
                SourceMapped(RuntimeErrorType::EvaluationLimit, combination_source_range),
            ) && *final(self) == *old(self),
            old(self).steps_left > 0 ==> final(self).history@ == old(self).history@.push(final(self).history@.last()) && match callable {
                Callable::Procedure(p) => call_made(final(self).history@.last(), p, operands@, true, res),
                Callable::SpecialForm(f) => final(self).history@.last() == (Step::SpecialFormCall { form: f, operands: operands@, result: res }),
            },
        decreases old(self).steps_left,
    {
        self.tick(combination_source_range)?;
        match callable {
            Callable::SpecialForm(special_form) => {
                let ghost outer = self.history@;
                let res = builtins::eval_special_form(self, special_form, combination_source_range, operands);
                self.record_step(Ghost(outer), Ghost(Step::SpecialFormCall { form: special_form, operands: operands@, result: res }));
                res
            },
            Callable::Procedure(procedure) => {
                self.eval_procedure(procedure, operands, operator_source_range, combination_source_range, true)
            },
        }
    }

    /// Calls `procedure` with `operands`, evaluating them first when
    /// `evaluate_operands` is set. The call is recorded on the call stack while
    /// it runs, and fails with `StackOverflow` when the stack is full.
    pub fn eval_procedure(
        &mut self,
        procedure: Procedure,
        operands: &[SourceValue],
        operator_source_range: SourceRange,
        combination_source_range: SourceRange,
        evaluate_operands: bool,
    ) -> (res: CallableResult)
        ensures
            final(self).steps_left <= old(self).steps_left,
            final(self).source_mapper@ == old(self).source_mapper@,
            final(self).has_evaluated_library == old(self).has_evaluated_library,
            res is Ok ==> stacks_kept(*old(self), *final(self)),
            old(self).steps_left > 0 && old(self).stack@.len() >= old(self).max_stack_size ==> res == Err::<CallableSuccess, RuntimeError>(
                SourceMapped(RuntimeErrorType::StackOverflow, combination_source_range),
            ),
            old(self).steps_left >= 2 && old(self).stack@.len() < old(self).max_stack_size && !is_valid_arity(
                procedure,
                operands@.len() as int,
                old(self).procedures@,
            ) ==> res == Err::<CallableSuccess, RuntimeError>(
                SourceMapped(RuntimeErrorType::WrongNumberOfArguments, combination_source_range),
            ),
            evaluate_operands && old(self).keyboard_interrupt_channel is None && old(self).stack@.len()
                < old(self).max_stack_size && is_valid_arity(procedure, operands@.len() as int, old(self).procedures@)
                && all_atoms(old(self).environment, operands@) ==> match procedure {
                Procedure::Builtin(b) => old(self).steps_left >= 3 + 2 * operands@.len() ==> (builtins::builtin_outcome(
                    old(self).pair_manager@,
                    b.func,
                    combination_source_range,
                    atom_results(old(self).environment, operands@),
                ) matches Some(r) ==> res == r),
                Procedure::Compound(c) => old(self).steps_left >= 8 + 2 * operands@.len() ==> (compound_outcome(
                    old(self).procedures@,
                    c,
                    combination_source_range,
                ) matches Some(r) ==> res == r),
            },
            final(self).history@ == old(self).history@.push(
                Step::Call { procedure, operands: operands@, evaluate_operands, result: res, inner: inner_steps(final(self).history@.last()) },
            ),
            old(self).steps_left > 0 && old(self).stack@.len() < old(self).max_stack_size && is_valid_arity(
                procedure,
                operands@.len() as int,
                old(self).procedures@,
            ) ==> procedure_called(
                inner_steps(final(self).history@.last()),
                procedure,
                operands@,
                evaluate_operands,
                combination_source_range,
                res,
            ),
        decreases old(self).steps_left,
    {
        let ghost outer = self.history@;
        self.history = Ghost(Seq::empty());
        if let Err(e) = self.tick(combination_source_range) {
            self.record_step(Ghost(outer), Ghost(Step::Call { procedure, operands: operands@, evaluate_operands, result: Err(e), inner: self.history@ }));
            return Err(e);
        }
        if self.stack.len() >= self.max_stack_size {
            let e = RuntimeErrorType::StackOverflow.source_mapped(combination_source_range);
            self.record_step(Ghost(outer), Ghost(Step::Call { procedure, operands: operands@, evaluate_operands, result: Err(e), inner: self.history@ }));
            return Err(e);
        }
        self.stack.push(operator_source_range);
        let depth = self.stack.len();
        let name = procedure.name();
        if let Some(stats) = &mut self.tracked_stats {
            stats.update_call_stack_depth(depth);
            stats.track_call(name);
        }
        let bound = if evaluate_operands {
            self.eval_and_bind(procedure, combination_source_range, operands)
        } else {
            bind(procedure, combination_source_range, operands, &self.procedures)
        };
        let ghost bound_steps = self.history@;
        let bound = match bound {
            Ok(b) => b,
            Err(e) => {
                proof {
                    if evaluate_operands && bound_steps.len() > 0 {
                        assert(bound_operands(Err(e)) == Err::<Seq<SourceValue>, RuntimeError>(e));
                        assert(bound_in_turn(bound_steps, 0, operands@, 0, Seq::empty(), Err(e)));
                    }
                }
                self.record_step(Ghost(outer), Ghost(Step::Call { procedure, operands: operands@, evaluate_operands, result: Err(e), inner: self.history@ }));
                return Err(e);
            },
        };
        let ghost values = bound.operands@;
        proof {
            if evaluate_operands && old(self).steps_left > 0 && old(self).stack@.len() < old(self).max_stack_size {
                assert(bound_operands(Ok(bound)) == Ok::<Seq<SourceValue>, RuntimeError>(values));
                assert(bound_in_turn(bound_steps, 0, operands@, 0, Seq::empty(), Ok(values)));
            }
        }
        let called = self.call_bound(bound);
        proof {
            let h = self.history@;
            if evaluate_operands && old(self).steps_left > 0 && old(self).stack@.len() < old(self).max_stack_size {
                assert(h.take(operands@.len() as int) =~= bound_steps);
                assert(bound_in_turn(h.take(operands@.len() as int), 0, operands@, 0, Seq::empty(), Ok(values)));
            }
        }
        let result = match called {
            Ok(r) => r,
            Err(e) => {
                self.record_step(Ghost(outer), Ghost(Step::Call { procedure, operands: operands@, evaluate_operands, result: Err(e), inner: self.history@ }));
                return Err(e);
            },
        };
        // Note that the stack won't unwind if an error occured above--this is so we can get a stack trace
        // afterwards. It's up to the caller to clean things up after an error.
        self.stack.pop();
        proof {
            assert(old(self).stack@.push(operator_source_range).drop_last() =~= old(self).stack@);
        }
        self.record_step(Ghost(outer), Ghost(Step::Call { procedure, operands: operands@, evaluate_operands, result: Ok(result), inner: self.history@ }));
        Ok(result)
    }

    /// Evaluates `operands` and binds them to `procedure`, after checking that
    /// the procedure accepts that many.
    pub fn eval_and_bind(&mut self, procedure: Procedure, range: SourceRange, operands: &[SourceValue]) -> (res: Result<BoundProcedure, RuntimeError>)
        ensures
            final(self).steps_left <= old(self).steps_left,
            final(self).source_mapper@ == old(self).source_mapper@,
            final(self).has_evaluated_library == old(self).has_evaluated_library,
            res is Ok ==> stacks_kept(*old(self), *final(self)),
            old(self).steps_left > 0 && !is_valid_arity(procedure, operands@.len() as int, old(self).procedures@) ==> res
                == Err::<BoundProcedure, RuntimeError>(SourceMapped(RuntimeErrorType::WrongNumberOfArguments, range))
                && *final(self) == (Interpreter { steps_left: (old(self).steps_left - 1) as u64, ..*old(self) }),
            res matches Ok(b) ==> b.procedure == procedure && b.range == range && b.operands@.len() == operands@.len(),
            res is Ok ==> old(self).steps_left > 0 && is_valid_arity(procedure, operands@.len() as int, old(self).procedures@),
            extends(final(self).history@, old(self).history@),
            res is Ok ==> final(self).history@.len() == old(self).history@.len() + operands@.len(),
            old(self).steps_left == 0 ==> res == Err::<BoundProcedure, RuntimeError>(SourceMapped(RuntimeErrorType::EvaluationLimit, range))
                && final(self).history@ == old(self).history@,
            old(self).steps_left >= 1 + 2 * operands@.len() && old(self).keyboard_interrupt_channel is None && is_valid_arity(
                procedure,
                operands@.len() as int,
                old(self).procedures@,
            ) && all_atoms(old(self).environment, operands@) ==> (res matches Ok(b) && b.operands@ == atom_results(
                old(self).environment,
                operands@,
            )) && *final(self) == (Interpreter {
                steps_left: (old(self).steps_left - 1 - 2 * operands@.len()) as u64,
                history: final(self).history,
                ..*old(self)
            }),
            old(self).steps_left > 0 && is_valid_arity(procedure, operands@.len() as int, old(self).procedures@) ==> bound_in_turn(
                final(self).history@,
                old(self).history@.len() as int,
                operands@,
                0,
                Seq::empty(),
                bound_operands(res),
            ),
        decreases old(self).steps_left,
    {
        self.tick(range)?;
        check_arity(procedure, operands.len(), range, &self.procedures)?;
        let ghost start = old(self).history@.len() as int;
        let mut evaluated_operands: Vec<SourceValue> = Vec::new();
        let mut i: usize = 0;
        while i < operands.len()
            invariant
                i <= operands@.len(),
                evaluated_operands@.len() == i,
                is_valid_arity(procedure, operands@.len() as int, old(self).procedures@),
                self.steps_left < old(self).steps_left,
                old(self).steps_left >= 1 + 2 * operands@.len() && old(self).keyboard_interrupt_channel is None
                    && all_atoms(old(self).environment, operands@) ==> evaluated_operands@ == atom_results(
                    old(self).environment,
                    operands@.take(i as int),
                ) && *self == (Interpreter {
                    steps_left: (old(self).steps_left - 1 - 2 * i) as u64,
                    history: self.history,
                    ..*old(self)
                }),
                self.source_mapper@ == old(self).source_mapper@,
                self.has_evaluated_library == old(self).has_evaluated_library,
                stacks_kept(*old(self), *self),
                start == old(self).history@.len(),
                self.history@.len() == start + i,
                extends(self.history@, old(self).history@),
                forall|h: Seq<Step>, r: Result<Seq<SourceValue>, RuntimeError>|
                    extends(h, self.history@) && #[trigger] bound_in_turn(h, start + i, operands@, i as nat, evaluated_operands@, r)
                        ==> bound_in_turn(h, start, operands@, 0, Seq::empty(), r),
            decreases operands@.len() - i,
        {
            let ghost before = self.history@;
            let ghost values_before = evaluated_operands@;
            let value = match self.eval_expression(&operands[i]) {
                Ok(v) => v,
                Err(e) => {
                    proof {
                        let h = self.history@;
                        assert(bound_in_turn(h, start + i, operands@, i as nat, values_before, Err(e)));
                        assert(extends(h, before));
                        assert(forall|j: int| 0 <= j < start ==> #[trigger] h[j] == before[j]);
                    }
                    return Err(e);
                },
            };
            let ghost after = self.history@;
            proof {
                assert(forall|j: int| 0 <= j < start ==> #[trigger] after[j] == before[j]);
            }
            evaluated_operands.push(value);
            proof {
                if old(self).steps_left >= 1 + 2 * operands@.len() && old(self).keyboard_interrupt_channel is None
                    && all_atoms(old(self).environment, operands@) {
                    assert(atom_result(old(self).environment, operands@[i as int]) is Some);
                    assert(operands@.take(i + 1) =~= operands@.take(i as int).push(operands@[i as int]));
                }
            }
            let ghost evaluated = i;
            i = i + 1;
            proof {
                assert forall|h: Seq<Step>, r: Result<Seq<SourceValue>, RuntimeError>|
                    extends(h, self.history@) && #[trigger] bound_in_turn(h, start + i, operands@, i as nat, evaluated_operands@, r)
                        implies bound_in_turn(h, start, operands@, 0, Seq::empty(), r) by {
                    assert(h[start + evaluated] == after[start + evaluated]);
                    assert(bound_in_turn(h, start + evaluated, operands@, evaluated as nat, values_before, r));
                    assert(extends(h, before));
                }
            }
        }
        proof {
            assert(bound_in_turn(self.history@, start + i, operands@, i as nat, evaluated_operands@, Ok(evaluated_operands@)));
            assert(extends(self.history@, self.history@));
        }
        proof {
            assert(operands@.take(operands@.len() as int) =~= operands@);
        }
        Ok(BoundProcedure { procedure, operands: evaluated_operands, range })
    }

    /// Makes the call that `bound` describes.
    pub fn call_bound(&mut self, bound: BoundProcedure) -> (res: CallableResult)
        ensures
            final(self).steps_left <= old(self).steps_left,
            final(self).source_mapper@ == old(self).source_mapper@,
            final(self).has_evaluated_library == old(self).has_evaluated_library,
            res is Ok ==> stacks_kept(*old(self), *final(self)),
            old(self).steps_left == 0 ==> res == Err::<CallableSuccess, RuntimeError>(
                SourceMapped(RuntimeErrorType::EvaluationLimit, bound.range),
            ),
            old(self).steps_left > 0 ==> (bound.procedure matches Procedure::Builtin(b) ==> (builtins::builtin_outcome(
                old(self).pair_manager@,
                b.func,
                bound.range,
                bound.operands@,
            ) matches Some(r) ==> res == r)),
            old(self).steps_left >= 6 ==> (bound.procedure matches Procedure::Compound(c) ==> (compound_outcome(
                old(self).procedures@,
                c,
                bound.range,
            ) matches Some(r) ==> res == r)),
            old(self).steps_left > 1 ==> (bound.procedure matches Procedure::Compound(c) ==> ran_body(
                final(self).history@,
                old(self).history@.len() as int,
                c,
                old(self).procedures@,
                bound.operands@,
                old(self).environment,
                bound.range,
                res,
            )),
            old(self).steps_left <= 1 && bound.procedure is Compound ==> res == Err::<CallableSuccess, RuntimeError>(
                SourceMapped(RuntimeErrorType::EvaluationLimit, bound.range),
            ) && final(self).history@ == old(self).history@,
            bound.procedure is Builtin ==> final(self).history@ == old(self).history@,
            extends(final(self).history@, old(self).history@),
        decreases old(self).steps_left,
    {
        self.tick(bound.range)?;
        match bound.procedure {
            Procedure::Compound(compound) => self.call_compound(compound, bound.operands, bound.range),
            Procedure::Builtin(builtin) => builtins::call_builtin(self, builtin, bound.range, bound.operands),
        }
    }

    /// Calls a compound procedure: a new scope inheriting from the one it was
    /// defined in receives the operands, and the body is evaluated there.
    fn call_compound(&mut self, compound: CompoundProcedure, operands: Vec<SourceValue>, range: SourceRange) -> (res: CallableResult)
        ensures
            final(self).steps_left <= old(self).steps_left,
            final(self).source_mapper@ == old(self).source_mapper@,
            final(self).has_evaluated_library == old(self).has_evaluated_library,
            res is Ok ==> stacks_kept(*old(self), *final(self)),
            old(self).steps_left == 0 ==> res == Err::<CallableSuccess, RuntimeError>(
                SourceMapped(RuntimeErrorType::EvaluationLimit, range),
            ),
            old(self).steps_left >= 5 ==> (compound_outcome(old(self).procedures@, compound, range) matches Some(r) ==> res
                == r),
            old(self).steps_left > 0 ==> ran_body(
                final(self).history@,
                old(self).history@.len() as int,
                compound,
                old(self).procedures@,
                operands@,
                old(self).environment,
                range,
                res,
            ),
            old(self).steps_left == 0 ==> final(self).history@ == old(self).history@,
            extends(final(self).history@, old(self).history@),
        decreases old(self).steps_left,
    {
        self.tick(range)?;
        if compound.id >= self.procedures.len() {
            return Err(RuntimeErrorType::ExpectedProcedure.source_mapped(range));
        }
        let scope = self.procedures[compound.id].captured_lexical_scope;
        let body_range = self.procedures[compound.id].body.0.1;
        let body = values_to_vec(self.procedures[compound.id].body.0.0.as_slice());
        let ghost scopes_before = self.environment.scopes().len();
        self.environment.push_captured(scope, body_range);
        self.procedures[compound.id].signature.bind_args(operands, &mut self.environment, &mut self.pair_manager);
        let result = self.eval_expressions_in_tail_context(body.as_slice())?;
        // Note that the environment won't have been popped if an error occured above--this is
        // so we can examine it afterwards, if needed. It's up to the caller to clean things
        // up after an error.
        self.environment.pop();
        proof {
            assert(old(self).environment.stack().push(TrackedRef(scopes_before as usize)).drop_last() =~= old(self).environment.stack());
        }
        Ok(result)
    }

    fn try_bind_tail_call_context(&mut self, expression: &SourceValue) -> (res: Result<Option<TailCallContext>, RuntimeError>)
        ensures
            final(self).steps_left <= old(self).steps_left,
            final(self).source_mapper@ == old(self).source_mapper@,
            final(self).has_evaluated_library == old(self).has_evaluated_library,
            res is Ok ==> stacks_kept(*old(self), *final(self)),
            !(expression.0 is Pair) && old(self).steps_left > 0 ==> (res matches Ok(None)),
            !(expression.0 is Pair) && old(self).steps_left > 0 ==> final(self).environment == old(self).environment
                && final(self).keyboard_interrupt_channel == old(self).keyboard_interrupt_channel
                && final(self).steps_left == old(self).steps_left - 1,
            old(self).keyboard_interrupt_channel is None ==> match list_items(old(self).pair_manager@, expression.0) {
                Some(items) => expression.0 is Pair && old(self).steps_left >= 3 + 2 * items.len() ==> match atomic_call(
                    *old(self),
                    items,
                ) {
                    Some(p) => res matches Ok(Some(c)) && c.bound_procedure.procedure == p && c.bound_procedure.range
                        == expression.1 && c.bound_procedure.operands@ == atom_results(
                        old(self).environment,
                        items.drop_first(),
                    ),
                    None => true,
                },
                None => true,
            },
            old(self).steps_left > 1 ==> match list_items(old(self).pair_manager@, expression.0) {
                Some(items) => expression.0 is Pair ==> tail_call_bound(
                    final(self).history@,
                    old(self).history@.len() as int,
                    items,
                    expression.1,
                    res,
                ),
                None => true,
            },
            old(self).steps_left > 1 && expression.0 is Pair && res == Ok::<Option<TailCallContext>, RuntimeError>(None)
                ==> (final(self).history@.last() matches Step::Evaluation { heap, .. } && heap == final(self).pair_manager@),
        decreases old(self).steps_left,
    {
        self.tick(expression.1)?;
        match expression.0 {
            Value::Pair(pair) => {
                let expressions = match self.pair_manager.try_as_rc_list(pair) {
                    Some(e) => e,
                    None => {
                        return Err(RuntimeErrorType::MalformedExpression.source_mapped(expression.1));
                    },
                };
                proof {
                    let heap = self.pair_manager@;
                    let chosen = choose|items: Seq<SourceValue>| is_chain(heap, expression.0, items, Value::EmptyList);
                    crate::pair::lemma_chain_unique(heap, expression.0, chosen, Value::EmptyList, expressions@, Value::EmptyList);
                    assert(expressions@.subrange(1, expressions@.len() as int) =~= expressions@.drop_first());
                }
                let operator = expressions[0];
                let callable = self.expect_callable(&operator)?;
                let ghost operator_done = self.history@;
                let operands = &expressions.as_slice()[1..expressions.len()];
                proof {
                    assert(operands@ == expressions@.drop_first());
                }
                match callable {
                    Callable::Procedure(procedure) => {
                        let bound = self.eval_and_bind(procedure, expression.1, operands)?;
                        let res = Ok(Some(TailCallContext { bound_procedure: bound }));
                        proof {
                            if old(self).steps_left > 1 {
                                let k = old(self).history@.len() as int;
                                let h = self.history@;
                                assert(h[k] == operator_done.last());
                                assert(bound_in_turn(h, k + 1, expressions@.drop_first(), 0, Seq::empty(), Ok(bound.operands@)));
                            }
                        }
                        res
                    },
                    Callable::SpecialForm(_) => Ok(None),
                }
            },
            _ => Ok(None),
        }
    }

    /// Evaluates `expression` in tail position: a procedure call is bound but
    /// left for the caller to make.
    pub fn eval_expression_in_tail_context(&mut self, expression: &SourceValue) -> (res: CallableResult)
        ensures
            final(self).steps_left <= old(self).steps_left,
            final(self).source_mapper@ == old(self).source_mapper@,
            final(self).has_evaluated_library == old(self).has_evaluated_library,
            res is Ok ==> stacks_kept(*old(self), *final(self)),
            old(self).steps_left >= 3 ==> match atom_result(old(self).environment, *expression) {
                Some(r) => res == Ok::<CallableSuccess, RuntimeError>(CallableSuccess::Value(r)),
                None => true,
            },
            old(self).keyboard_interrupt_channel is None ==> match list_items(old(self).pair_manager@, expression.0) {
                Some(items) => expression.0 is Pair && old(self).steps_left >= 4 + 2 * items.len() ==> match atomic_call(
                    *old(self),
                    items,
                ) {
                    Some(p) => res matches Ok(CallableSuccess::TailCall(c)) && c.bound_procedure.procedure == p
                        && c.bound_procedure.range == expression.1 && c.bound_procedure.operands@ == atom_results(
                        old(self).environment,
                        items.drop_first(),
                    ),
                    None => true,
                },
                None => true,
            },
            final(self).history@ == old(self).history@.push(
                Step::TailEvaluation { expression: *expression, result: res, inner: inner_steps(final(self).history@.last()) },
            ),
            old(self).steps_left > 2 ==> match list_items(old(self).pair_manager@, expression.0) {
                Some(items) => expression.0 is Pair ==> tail_evaluated(
                    inner_steps(final(self).history@.last()),
                    expression.0,
                    items,
                    expression.1,
                    res,
                ),
                None => true,
            },
        decreases old(self).steps_left,
    {
        let ghost outer = self.history@;
        self.history = Ghost(Seq::empty());
        if let Err(e) = self.tick(expression.1) {
            self.record_step(Ghost(outer), Ghost(Step::TailEvaluation { expression: *expression, result: Err(e), inner: self.history@ }));
            return Err(e);
        }
        let bound = self.try_bind_tail_call_context(expression);
        let ghost bound_steps = self.history@;
        let ghost after_bind = *self;
        let res = match bound {
            Err(e) => Err(e),
            Ok(Some(tail_call_context)) => Ok(CallableSuccess::TailCall(tail_call_context)),
            Ok(None) => self.lazy_eval_expression(expression),
        };
        proof {
            let h = self.history@;
            if old(self).steps_left > 2 && list_items(old(self).pair_manager@, expression.0) is Some && expression.0 is Pair {
                let items = list_items(old(self).pair_manager@, expression.0)->Some_0;
                assert(tail_call_bound(bound_steps, 0, items, expression.1, bound));
                if bound == Ok::<Option<TailCallContext>, RuntimeError>(None) && h.len() > 1 {
                    assert(bound_steps.len() == 1);
                    assert(h[0] == bound_steps[0]);
                    let again = list_items(after_bind.pair_manager@, expression.0)->Some_0;
                    assert(combination_called(h, 1, again, expression.1, res));
                    assert(combination_called(h.skip(1), 0, again, expression.1, res));
                }
            }
        }
        self.record_step(Ghost(outer), Ghost(Step::TailEvaluation { expression: *expression, result: res, inner: self.history@ }));
        res
    }

    /// Evaluates `expression`, possibly leaving a tail call to be made.
    pub fn lazy_eval_expression(&mut self, expression: &SourceValue) -> (res: CallableResult)
        ensures
            final(self).steps_left <= old(self).steps_left,
            final(self).source_mapper@ == old(self).source_mapper@,
            final(self).has_evaluated_library == old(self).has_evaluated_library,
            res is Ok ==> stacks_kept(*old(self), *final(self)),
            old(self).steps_left > 0 ==> match expression.0 {
                Value::EmptyList | Value::Callable(_) => res == Err::<CallableSuccess, RuntimeError>(
                    SourceMapped(RuntimeErrorType::MalformedExpression, expression.1),
                ),
                Value::Undefined | Value::Number(_) | Value::Boolean(_) | Value::String(_) => res matches Ok(
                    CallableSuccess::Value(v),
                ) && v == unmapped(expression.0),
                Value::Symbol(name) => match old(self).environment.spec_get(name) {
                    Some(v) => res matches Ok(CallableSuccess::Value(r)) && r == v,
                    None => res == Err::<CallableSuccess, RuntimeError>(
                        SourceMapped(RuntimeErrorType::UnboundVariable(name), expression.1),
                    ),
                },
                Value::Pair(_) => match list_items(old(self).pair_manager@, expression.0) {
                    None => res == Err::<CallableSuccess, RuntimeError>(
                        SourceMapped(RuntimeErrorType::MalformedExpression, expression.1),
                    ),
                    Some(items) => (old(self).steps_left >= 7 && old(self).keyboard_interrupt_channel is None ==> (
                    call_outcome(*old(self), items, expression.1) matches Some(r) ==> res == r)) && (old(self).steps_left
                        >= 13 + 2 * items.len() ==> (atomic_combination_outcome(*old(self), items, expression.1) matches Some(
                        r,
                    ) ==> res == r)),
                },
            },
            !(expression.0 is Pair) ==> final(self).keyboard_interrupt_channel == old(self).keyboard_interrupt_channel
                && final(self).environment == old(self).environment,
            old(self).steps_left > 0 && !(expression.0 is Pair) ==> *final(self) == (Interpreter {
                steps_left: (old(self).steps_left - 1) as u64,
                ..*old(self)
            }),
            old(self).steps_left > 1 ==> match list_items(old(self).pair_manager@, expression.0) {
                Some(items) => expression.0 is Pair ==> combination_called(
                    final(self).history@,
                    old(self).history@.len() as int,
                    items,
                    expression.1,
                    res,
                ),
                None => true,
            },
            extends(final(self).history@, old(self).history@),
            old(self).steps_left <= 1 && expression.0 is Pair ==> res is Err && final(self).history@ == old(self).history@,
            list_items(old(self).pair_manager@, expression.0) is None || !(expression.0 is Pair) ==> final(self).history@
                == old(self).history@,
        decreases old(self).steps_left,
    {
        self.tick(expression.1)?;
        match expression.0 {
            Value::EmptyList | Value::Callable(_) => Err(
                RuntimeErrorType::MalformedExpression.source_mapped(expression.1),
            ),
            Value::Undefined | Value::Number(_) | Value::Boolean(_) | Value::String(_) => Ok(
                CallableSuccess::Value(expression.0.into_source_value()),
            ),
            Value::Symbol(identifier) => {
                if let Some(value) = self.environment.get(identifier) {
                    Ok(CallableSuccess::Value(value))
                } else {
                    Err(RuntimeErrorType::UnboundVariable(identifier).source_mapped(expression.1))
                }
            },
            Value::Pair(pair) => {
                let expressions = match self.pair_manager.try_as_rc_list(pair) {
                    Some(e) => e,
                    None => {
                        return Err(RuntimeErrorType::MalformedExpression.source_mapped(expression.1));
                    },
                };
                proof {
                    let heap = self.pair_manager@;
                    let chosen = choose|items: Seq<SourceValue>| is_chain(heap, expression.0, items, Value::EmptyList);
                    crate::pair::lemma_chain_unique(heap, expression.0, chosen, Value::EmptyList, expressions@, Value::EmptyList);
                    assert(expressions@.subrange(1, expressions@.len() as int) =~= expressions@.drop_first());
                }
                let operator = expressions[0];
                let callable = self.expect_callable(&operator)?;
                let ghost operator_done = self.history@;
                let operands = &expressions.as_slice()[1..expressions.len()];
                if self.tracing {
                    let trace = self.source_mapper.trace(&expression.1);
                    let text = crate::tracked_stats::join_lines(&trace);
                    let line = concat("Evaluating callable ", text.as_str());
                    self.printer.println(line.as_str());
                }
                proof {
                    assert(self.history@ == operator_done);
                    assert(operands@ == expressions@.drop_first());
                }
                let res = self.eval_callable(callable, operands, operator.1, expression.1);
                proof {
                    if old(self).steps_left > 1 {
                        let k = old(self).history@.len() as int;
                        assert(self.history@[k] == operator_done.last());
                        assert(combination_called(self.history@, k, expressions@, expression.1, res));
                    }
                }
                res
            },
        }
    }

    /// Evaluates `expression` completely, making any tail calls it leads to.
    /// Replaces the steps taken since the history was `outer` by `step`.
    fn record_step(&mut self, Ghost(outer): Ghost<Seq<Step>>, Ghost(step): Ghost<Step>)
        ensures
            *final(self) == (Interpreter { history: Ghost(outer.push(step)), ..*old(self) }),
    {
        self.history = Ghost(outer.push(step));
    }

    pub fn eval_expression(&mut self, expression: &SourceValue) -> (res: Result<SourceValue, RuntimeError>)
        ensures
            final(self).steps_left <= old(self).steps_left,
            final(self).source_mapper@ == old(self).source_mapper@,
            final(self).has_evaluated_library == old(self).has_evaluated_library,
            res is Ok ==> stacks_kept(*old(self), *final(self)),
            old(self).steps_left >= 2 ==> match expression.0 {
                Value::EmptyList | Value::Callable(_) => res == Err::<SourceValue, RuntimeError>(
                    SourceMapped(RuntimeErrorType::MalformedExpression, expression.1),
                ),
                Value::Undefined | Value::Number(_) | Value::Boolean(_) | Value::String(_) => old(self).keyboard_interrupt_channel is None ==> res == Ok::<SourceValue, RuntimeError>(unmapped(expression.0)),
                Value::Symbol(name) => match old(self).environment.spec_get(name) {
                    Some(v) => old(self).keyboard_interrupt_channel is None ==> res == Ok::<SourceValue, RuntimeError>(v),
                    None => res == Err::<SourceValue, RuntimeError>(
                        SourceMapped(RuntimeErrorType::UnboundVariable(name), expression.1),
                    ),
                },
                Value::Pair(_) => match list_items(old(self).pair_manager@, expression.0) {
                    None => res == Err::<SourceValue, RuntimeError>(
                        SourceMapped(RuntimeErrorType::MalformedExpression, expression.1),
                    ),
                    Some(items) => old(self).steps_left >= 8 && old(self).keyboard_interrupt_channel is None ==> match call_outcome(
                        *old(self),
                        items,
                        expression.1,
                    ) {
                        Some(Err(e)) => res == Err::<SourceValue, RuntimeError>(e),
                        Some(Ok(CallableSuccess::Value(v))) => final(self).keyboard_interrupt_channel is None ==> res == Ok::<
                            SourceValue,
                            RuntimeError,
                        >(v),
                        _ => true,
                    } && (old(self).steps_left >= 14 + 2 * items.len() ==> match atomic_combination_outcome(
                        *old(self),
                        items,
                        expression.1,
                    ) {
                        Some(Err(e)) => res == Err::<SourceValue, RuntimeError>(e),
                        Some(Ok(CallableSuccess::Value(v))) => final(self).keyboard_interrupt_channel is None ==> res == Ok::<
                            SourceValue,
                            RuntimeError,
                        >(v),
                        _ => true,
                    }),
                },
            },
            old(self).steps_left >= 2 && !(expression.0 is Pair) ==> *final(self) == (Interpreter {
                steps_left: (old(self).steps_left - 2) as u64,
                history: Ghost(old(self).history@.push(evaluation_step(*old(self), old(self).environment, *expression, res, Seq::empty()))),
                ..*old(self)
            }),
            final(self).history@ == old(self).history@.push(
                evaluation_step(*final(self), old(self).environment, *expression, res, inner_steps(final(self).history@.last())),
            ),
            old(self).steps_left > 2 && final(self).keyboard_interrupt_channel is None ==> match list_items(
                old(self).pair_manager@,
                expression.0,
            ) {
                Some(items) => expression.0 is Pair ==> combination_evaluated(
                    inner_steps(final(self).history@.last()),
                    items,
                    expression.1,
                    res,
                ),
                None => true,
            },
        decreases old(self).steps_left,
    {
        let ghost outer = self.history@;
        self.history = Ghost(Seq::empty());
        if let Err(e) = self.tick(expression.1) {
            let ghost step = evaluation_step(*self, old(self).environment, *expression, Err(e), self.history@);
            self.record_step(Ghost(outer), Ghost(step));
            return Err(e);
        }
        let ghost after_tick = *self;
        proof {
            if let Some(items) = list_items(old(self).pair_manager@, expression.0) {
                assert(call_outcome(after_tick, items, expression.1) == call_outcome(*old(self), items, expression.1));
                assert(atomic_combination_outcome(after_tick, items, expression.1) == atomic_combination_outcome(
                    *old(self),
                    items,
                    expression.1,
                ));
            }
        }
        let lazily = self.lazy_eval_expression(expression);
        let ghost after_lazy = self.history@;
        proof {
            if old(self).steps_left > 2 && list_items(old(self).pair_manager@, expression.0) is Some && expression.0 is Pair {
                let items = list_items(old(self).pair_manager@, expression.0)->Some_0;
                assert(after_lazy.take(after_lazy.len() as int) =~= after_lazy);
                assert(combination_called(after_lazy.take(after_lazy.len() as int), 0, items, expression.1, lazily));
            }
        }
        let mut result = match lazily {
            Ok(r) => r,
            Err(e) => {
                let ghost step = evaluation_step(*self, old(self).environment, *expression, Err(e), self.history@);
                self.record_step(Ghost(outer), Ghost(step));
                return Err(e);
            },
        };
        let ghost first = result;
        loop
            invariant
                outer == old(self).history@,
                self.steps_left < old(self).steps_left,
                self.source_mapper@ == old(self).source_mapper@,
                self.has_evaluated_library == old(self).has_evaluated_library,
                stacks_kept(*old(self), *self),
                first is Value ==> result == first,
                expression.0 is Pair && old(self).steps_left >= 2 ==> list_items(old(self).pair_manager@, expression.0) is Some,
                expression.0 is Pair && old(self).steps_left >= 8 && old(self).keyboard_interrupt_channel is None
                    ==> match list_items(old(self).pair_manager@, expression.0) {
                    None => false,
                    Some(items) => match call_outcome(*old(self), items, expression.1) {
                        Some(Err(_)) => false,
                        Some(Ok(CallableSuccess::Value(v))) => first == CallableSuccess::Value(v),
                        _ => true,
                    },
                },
                expression.0 is Pair && old(self).keyboard_interrupt_channel is None ==> match list_items(
                    old(self).pair_manager@,
                    expression.0,
                ) {
                    None => true,
                    Some(items) => old(self).steps_left >= 14 + 2 * items.len() ==> match atomic_combination_outcome(
                        *old(self),
                        items,
                        expression.1,
                    ) {
                        Some(Err(_)) => false,
                        Some(Ok(CallableSuccess::Value(v))) => first == CallableSuccess::Value(v),
                        _ => true,
                    },
                },
                !(expression.0 is Pair) && old(self).steps_left >= 2 ==> result == first && first is Value
                    && *self == (Interpreter {
                    steps_left: (old(self).steps_left - 2) as u64,
                    history: Ghost(Seq::empty()),
                    ..*old(self)
                }),
                extends(self.history@, after_lazy),
                old(self).steps_left > 2 && expression.0 is Pair ==> match list_items(old(self).pair_manager@, expression.0) {
                    Some(items) => combination_called(after_lazy, 0, items, expression.1, Ok(first)),
                    None => true,
                },
                forall|h: Seq<Step>, r: Result<SourceValue, RuntimeError>|
                    extends(h, self.history@) && #[trigger] tail_calls_made(h, self.history@.len() as int, Ok(result), expression.1, r)
                        ==> tail_calls_made(h, after_lazy.len() as int, Ok(first), expression.1, r),
                !(expression.0 is Pair) && old(self).steps_left >= 2 ==> match expression.0 {
                    Value::Undefined | Value::Number(_) | Value::Boolean(_) | Value::String(_) => first matches CallableSuccess::Value(v)
                        && v == unmapped(expression.0),
                    Value::Symbol(name) => match old(self).environment.spec_get(name) {
                        Some(v) => first matches CallableSuccess::Value(r) && r == v,
                        None => false,
                    },
                    _ => false,
                },
            decreases self.steps_left,
        {
            if let Some(channel) = &self.keyboard_interrupt_channel {
                if interrupt_requested(channel) {
                    let e = RuntimeErrorType::KeyboardInterrupt.source_mapped(expression.1);
                    let ghost step = evaluation_step(*self, old(self).environment, *expression, Err(e), self.history@);
                    self.record_step(Ghost(outer), Ghost(step));
                    return Err(e);
                }
            }
            match result {
                CallableSuccess::Value(value) => {
                    proof {
                        let h = self.history@;
                        assert(tail_calls_made(h, h.len() as int, Ok(result), expression.1, Ok(value)));
                        assert(extends(h, h));
                        assert(h.take(after_lazy.len() as int) =~= after_lazy);
                        if old(self).steps_left > 2 && list_items(old(self).pair_manager@, expression.0) is Some && expression.0 is Pair {
                            let items = list_items(old(self).pair_manager@, expression.0)->Some_0;
                            assert(combination_called(h.take(after_lazy.len() as int), 0, items, expression.1, Ok(first)));
                        }
                    }
                    let ghost step = evaluation_step(*self, old(self).environment, *expression, Ok(value), self.history@);
                    self.record_step(Ghost(outer), Ghost(step));
                    return Ok(value);
                },
                CallableSuccess::TailCall(tail_call_context) => {
                    let name = tail_call_context.bound_procedure.name();
                    if let Some(stats) = &mut self.tracked_stats {
                        stats.track_tail_call(name);
                    }
                    if self.tracing {
                        let trace = self.source_mapper.trace(&tail_call_context.bound_procedure.range);
                        let text = crate::tracked_stats::join_lines(&trace);
                        let line = concat("Evaluating tail call ", text.as_str());
                        self.printer.println(line.as_str());
                    }
                    let before = self.steps_left;
                    if let Err(e) = self.tick(expression.1) {
                        proof {
                            let h = self.history@;
                            assert(tail_calls_made(h, h.len() as int, Ok(result), expression.1, Err(e)));
                            assert(extends(h, h));
                            assert(h.take(after_lazy.len() as int) =~= after_lazy);
                            if old(self).steps_left > 2 && list_items(old(self).pair_manager@, expression.0) is Some && expression.0 is Pair {
                                let items = list_items(old(self).pair_manager@, expression.0)->Some_0;
                                assert(combination_called(h.take(after_lazy.len() as int), 0, items, expression.1, Ok(first)));
                            }
                        }
                        let ghost step = evaluation_step(*self, old(self).environment, *expression, Err(e), self.history@);
                        self.record_step(Ghost(outer), Ghost(step));
                        return Err(e);
                    }
                    let ghost bound = tail_call_context.bound_procedure;
                    let ghost before_call = self.history@;
                    let ghost current = result;
                    let called = self.call_bound(tail_call_context.bound_procedure);
                    self.record_step(Ghost(before_call), Ghost(Step::TailCall { bound, result: called }));
                    let ghost after_call = self.history@;
                    result = match called {
                        Ok(r) => r,
                        Err(e) => {
                            proof {
                                let h = self.history@;
                                let j = before_call.len() as int;
                                assert(tail_calls_made(h, j + 1, Err(e), expression.1, Err(e)));
                                assert(tail_calls_made(h, j, Ok(current), expression.1, Err(e)));
                                assert(extends(h, before_call));
                                assert(h.take(after_lazy.len() as int) =~= after_lazy);
                                if old(self).steps_left > 2 && list_items(old(self).pair_manager@, expression.0) is Some && expression.0 is Pair {
                                    let items = list_items(old(self).pair_manager@, expression.0)->Some_0;
                                    assert(combination_called(h.take(after_lazy.len() as int), 0, items, expression.1, Ok(first)));
                                }
                            }
                            let ghost step = evaluation_step(*self, old(self).environment, *expression, Err(e), self.history@);
                            self.record_step(Ghost(outer), Ghost(step));
                            return Err(e);
                        },
                    };
                    proof {
                        assert forall|h: Seq<Step>, r: Result<SourceValue, RuntimeError>|
                            extends(h, self.history@) && #[trigger] tail_calls_made(h, self.history@.len() as int, Ok(result), expression.1, r)
                                implies tail_calls_made(h, after_lazy.len() as int, Ok(first), expression.1, r) by {
                            let j = before_call.len() as int;
                            assert(h[j] == after_call[j]);
                            assert(tail_calls_made(h, j, Ok(current), expression.1, r));
                            assert(extends(h, before_call));
                        }
                    }
                    assert(self.steps_left < before);
                },
            }
        }
    }

    /// Evaluates all but the last expression, then the last in tail position.
    /// Nothing to evaluate gives the undefined value.
    pub fn eval_expressions_in_tail_context(&mut self, expressions: &[SourceValue]) -> (res: CallableResult)
        ensures
            final(self).steps_left <= old(self).steps_left,
            final(self).source_mapper@ == old(self).source_mapper@,
            final(self).has_evaluated_library == old(self).has_evaluated_library,
            res is Ok ==> stacks_kept(*old(self), *final(self)),
            old(self).steps_left > 0 && expressions@.len() == 0 ==> (res matches Ok(CallableSuccess::Value(v)) && v == unmapped(Value::Undefined)),
            old(self).steps_left >= 4 && expressions@.len() == 1 ==> match atom_result(old(self).environment, expressions@[0]) {
                Some(r) => res == Ok::<CallableSuccess, RuntimeError>(CallableSuccess::Value(r)),
                None => true,
            },
            final(self).history@ == old(self).history@.push(
                Step::Sequence {
                    expressions: expressions@,
                    environment: old(self).environment,
                    heap: old(self).pair_manager@,
                    procedures: old(self).procedures@,
                    result: res,
                },
            ),
        decreases old(self).steps_left,
    {
        let ghost outer = self.history@;
        let ghost environment = self.environment;
        let ghost heap = self.pair_manager@;
        let ghost procedures = self.procedures@;
        let range = if expressions.len() > 0 { expressions[0].1 } else { (0, 0, None) };
        if let Err(e) = self.tick(range) {
            self.record_step(Ghost(outer), Ghost(Step::Sequence { expressions: expressions@, environment, heap, procedures, result: Err(e) }));
            return Err(e);
        }
        if expressions.len() == 0 {
            let res = Ok(CallableSuccess::Value(Value::Undefined.into_source_value()));
            self.record_step(Ghost(outer), Ghost(Step::Sequence { expressions: expressions@, environment, heap, procedures, result: res }));
            return res;
        }
        if expressions.len() > 1 {
            if let Err(e) = self.eval_expressions(&expressions[0..expressions.len() - 1]) {
                self.record_step(Ghost(outer), Ghost(Step::Sequence { expressions: expressions@, environment, heap, procedures, result: Err(e) }));
                return Err(e);
            }
        }
        let last_expression = expressions[expressions.len() - 1];
        let res = self.eval_expression_in_tail_context(&last_expression);
        self.record_step(Ghost(outer), Ghost(Step::Sequence { expressions: expressions@, environment, heap, procedures, result: res }));
        res
    }

    /// Evaluates the expressions in order and gives the last value (undefined
    /// if there are none).
    pub fn eval_expressions(&mut self, expressions: &[SourceValue]) -> (res: Result<SourceValue, RuntimeError>)
        ensures
            final(self).steps_left <= old(self).steps_left,
            final(self).source_mapper@ == old(self).source_mapper@,
            final(self).has_evaluated_library == old(self).has_evaluated_library,
            res is Ok ==> stacks_kept(*old(self), *final(self)),
            old(self).steps_left > 0 && expressions@.len() == 0 ==> res == Ok::<SourceValue, RuntimeError>(unmapped(Value::Undefined)),
            old(self).steps_left >= 3 && expressions@.len() == 1 && old(self).keyboard_interrupt_channel is None ==> match atom_result(
                old(self).environment,
                expressions@[0],
            ) {
                Some(r) => res == Ok::<SourceValue, RuntimeError>(r) && final(self).environment == old(self).environment
                    && final(self).steps_left == old(self).steps_left - 3,
                None => true,
            },
            old(self).steps_left > 0 ==> evaluated_in_turn(
                final(self).history@,
                old(self).history@.len() as int,
                expressions@,
                0,
                unmapped(Value::Undefined),
                res,
            ),
        decreases old(self).steps_left,
    {
        let range = if expressions.len() > 0 { expressions[0].1 } else { (0, 0, None) };
        self.tick(range)?;
        let ghost start = old(self).history@.len() as int;
        let mut last_value: SourceValue = Value::Undefined.into_source_value();
        let mut i: usize = 0;
        while i < expressions.len()
            invariant
                i <= expressions@.len(),
                self.steps_left < old(self).steps_left,
                self.source_mapper@ == old(self).source_mapper@,
                self.has_evaluated_library == old(self).has_evaluated_library,
                stacks_kept(*old(self), *self),
                i == 0 ==> last_value == unmapped(Value::Undefined),
                old(self).steps_left >= 3 && expressions@.len() == 1 && old(self).keyboard_interrupt_channel is None
                    && atom_result(old(self).environment, expressions@[0]) is Some ==> self.environment
                    == old(self).environment && self.keyboard_interrupt_channel is None && (i == 0
                    ==> self.steps_left == old(self).steps_left - 1) && (i == 1 ==> self.steps_left
                    == old(self).steps_left - 3 && last_value == atom_result(old(self).environment, expressions@[0])->Some_0),
                start == old(self).history@.len(),
                self.history@.len() == start + i,
                forall|h: Seq<Step>, r: Result<SourceValue, RuntimeError>|
                    extends(h, self.history@) && #[trigger] evaluated_in_turn(h, start + i, expressions@, i as nat, last_value, r)
                        ==> evaluated_in_turn(h, start, expressions@, 0, unmapped(Value::Undefined), r),
            decreases expressions@.len() - i,
        {
            let ghost before = self.history@;
            let ghost last_before = last_value;
            last_value = match self.eval_expression(&expressions[i]) {
                Ok(v) => v,
                Err(e) => {
                    proof {
                        let h = self.history@;
                        assert(evaluated_in_turn(h, start + i, expressions@, i as nat, last_before, Err(e)));
                        assert(extends(h, before));
                    }
                    return Err(e);
                },
            };
            let ghost after = self.history@;
            let ghost evaluated = i;
            i = i + 1;
            proof {
                assert forall|h: Seq<Step>, r: Result<SourceValue, RuntimeError>|
                    extends(h, self.history@) && #[trigger] evaluated_in_turn(h, start + i, expressions@, i as nat, last_value, r)
                        implies evaluated_in_turn(h, start, expressions@, 0, unmapped(Value::Undefined), r) by {
                    assert(h[start + evaluated] == after[start + evaluated]);
                    assert(evaluated_in_turn(h, start + evaluated, expressions@, evaluated as nat, last_before, r));
                    assert(extends(h, before));
                }
            }
        }
        proof {
            assert(evaluated_in_turn(self.history@, start + i, expressions@, i as nat, last_value, Ok(last_value)));
            assert(extends(self.history@, self.history@));
        }
        Ok(last_value)
    }

    /// Parses the source with the given id.
    pub fn parse(&mut self, source_id: SourceId) -> (res: Result<Vec<SourceValue>, ParseError>)
        requires
            source_id.0 < old(self).source_mapper@.len(),
        ensures
            final(self).steps_left == old(self).steps_left,
            final(self).source_mapper@ == old(self).source_mapper@,
            final(self).has_evaluated_library == old(self).has_evaluated_library,
            stacks_kept(*old(self), *final(self)),
            final(self).keyboard_interrupt_channel == old(self).keyboard_interrupt_channel,
            final(self).environment == old(self).environment,
            crate::parser::reads_all_as(
                crate::parser::read_all(old(self).source_mapper@[source_id.0 as int].1, Some(source_id), 0),
                res,
                final(self).pair_manager@,
                final(self).string_interner@,
                final(self).strings@,
                old(self).source_mapper@[source_id.0 as int].1,
            ),
            crate::parser::number_error_within_all(
                crate::parser::read_all(old(self).source_mapper@[source_id.0 as int].1, Some(source_id), 0),
                res,
                old(self).source_mapper@[source_id.0 as int].1,
                Some(source_id),
                0,
            ),
            final(self).history@ == old(self).history@.push(Step::Parse { source: source_id, result: res }),
    {
        let code = self.source_mapper.get_contents(source_id);
        let res = parse(code, &mut self.string_interner, &mut self.pair_manager, &mut self.strings, &self.numbers, Some(source_id));
        self.history = Ghost(self.history@.push(Step::Parse { source: source_id, result: res }));
        res
    }

    /// Evaluates the source with the given id, after the library if it has not
    /// been evaluated yet; gives the value of the last expression.
    pub fn evaluate(&mut self, source_id: SourceId) -> (res: Result<SourceValue, RuntimeError>)
        requires
            source_id.0 < old(self).source_mapper@.len(),
        ensures
            res is Ok ==> final(self).stack@.len() == 0 && final(self).environment.stack().len() == 0,
            res is Ok ==> final(self).has_evaluated_library,
            old(self).has_evaluated_library ==> final(self).source_mapper@ == old(self).source_mapper@,
            !old(self).has_evaluated_library ==> final(self).source_mapper@ == old(self).source_mapper@.push(
                (LIBRARY_FILENAME@, LIBRARY_CONTENTS@),
            ),
            old(self).has_evaluated_library ==> source_evaluation(*old(self), source_id, res),
            old(self).has_evaluated_library ==> source_evaluated(final(self).history@, old(self).history@.len() as int, source_id, res),
    {
        if !self.has_evaluated_library {
            let library_source_id = builtins::library::add_library_source(&mut self.source_mapper);
            self.evaluate_source_id(library_source_id)?;
            self.has_evaluated_library = true;
        }
        self.evaluate_source_id(source_id)
    }

    /// Evaluates the expressions of the source with the given id in order,
    /// keeping those not yet evaluated as garbage-collection roots.
    pub fn evaluate_source_id(&mut self, source_id: SourceId) -> (res: Result<SourceValue, RuntimeError>)
        requires
            source_id.0 < old(self).source_mapper@.len(),
        ensures
            final(self).source_mapper@ == old(self).source_mapper@,
            final(self).has_evaluated_library == old(self).has_evaluated_library,
            res is Ok ==> final(self).stack@.len() == 0 && final(self).environment.stack().len() == 0,
            source_evaluation(*old(self), source_id, res),
            source_evaluated(final(self).history@, old(self).history@.len() as int, source_id, res),
    {
        self.stack.clear();
        self.environment.clear_lexical_scopes();
        let ghost text = old(self).source_mapper@[source_id.0 as int].1;
        let ghost reading = crate::parser::read_all(text, Some(source_id), 0);
        let ghost start = old(self).history@.len() as int;
        let parsed = self.parse(source_id);
        let ghost after_parse = self.history@;
        match parsed {
            Ok(expressions) => {
                let n = expressions.len();
                let pending = values_to_vec(expressions.as_slice());
                let ghost atom = lone_constant(reading);
                proof {
                    if let Some(a) = atom {
                        let forms = reading->Ok_0;
                        assert(forms.len() == 1);
                        assert(forms[0] is Leaf);
                        assert(a is Boolean || a is Undefined);
                        assert(pending@[0].0 == a);
                    }
                }
                self.stack_traversal_root.root(expressions);
                let mut last_value: SourceValue = Value::Undefined.into_source_value();
                let mut i: usize = 0;
                while i < n
                    invariant
                        i <= n,
                        n == pending@.len(),
                        self.source_mapper@ == old(self).source_mapper@,
                        self.has_evaluated_library == old(self).has_evaluated_library,
                        self.stack@.len() == 0,
                        self.environment.stack().len() == 0,
                        i == 0 ==> last_value == unmapped(Value::Undefined),
                        i == 0 ==> self.steps_left == old(self).steps_left && self.keyboard_interrupt_channel
                            == old(self).keyboard_interrupt_channel,
                        atom is Some ==> n == 1 && pending@[0].0 == atom->Some_0,
                        atom is Some ==> (atom->Some_0 is Boolean || atom->Some_0 is Undefined),
                        atom == lone_constant(reading),
                        reading is Ok && reading->Ok_0.len() == n,
                        reading == crate::parser::read_all(text, Some(source_id), 0),
                        text == old(self).source_mapper@[source_id.0 as int].1,
                        atom is Some && i == 1 && old(self).steps_left >= 2 && old(self).keyboard_interrupt_channel is None
                            ==> last_value == unmapped(atom->Some_0),
                        start == old(self).history@.len(),
                        self.history@.len() == start + 1 + i,
                        self.history@[start] == after_parse[start],
                        after_parse[start] == (Step::Parse { source: source_id, result: Ok(expressions) }),
                        pending@ == expressions@,
                        forall|h: Seq<Step>, r: Result<SourceValue, RuntimeError>|
                            extends(h, self.history@) && #[trigger] evaluated_in_turn(h, start + 1 + i, pending@, i as nat, last_value, r)
                                ==> evaluated_in_turn(h, start + 1, pending@, 0, unmapped(Value::Undefined), r),
                    decreases n - i,
                {
                    let ghost before = self.history@;
                    let ghost last_before = last_value;
                    self.stack_traversal_root.unroot_before(i);
                    proof {
                        if atom is Some && old(self).steps_left >= 2 && old(self).keyboard_interrupt_channel is None {
                            assert(i == 0);
                            assert(self.steps_left >= 2);
                            assert(self.keyboard_interrupt_channel is None);
                            assert(pending@[i as int].0 == atom->Some_0);
                            assert(pending@[i as int].0 is Boolean || pending@[i as int].0 is Undefined);
                        }
                    }
                    match self.eval_expression(&pending[i]) {
                        Ok(value) => {
                            last_value = value;
                        },
                        Err(err) => {
                            self.stack_traversal_root.unroot_before(n);
                            proof {
                                let h = self.history@;
                                assert(evaluated_in_turn(h, start + 1 + i, pending@, i as nat, last_before, Err(err)));
                                assert(extends(h, before));
                                assert(h[start] == before[start]);
                            }
                            return Err(err);
                        },
                    }
                    let ghost after = self.history@;
                    let ghost evaluated = i;
                    i = i + 1;
                    proof {
                        assert(after[start] == before[start]);
                        assert forall|h: Seq<Step>, r: Result<SourceValue, RuntimeError>|
                            extends(h, self.history@) && #[trigger] evaluated_in_turn(h, start + 1 + i, pending@, i as nat, last_value, r)
                                implies evaluated_in_turn(h, start + 1, pending@, 0, unmapped(Value::Undefined), r) by {
                            assert(h[start + 1 + evaluated] == after[start + 1 + evaluated]);
                            assert(evaluated_in_turn(h, start + 1 + evaluated, pending@, evaluated as nat, last_before, r));
                            assert(extends(h, before));
                        }
                    }
                }
                self.stack_traversal_root.unroot_before(n);
                proof {
                    let h = self.history@;
                    assert(evaluated_in_turn(h, start + 1 + i, pending@, i as nat, last_value, Ok(last_value)));
                    assert(extends(h, h));
                }
                Ok(last_value)
            },
            Err(err) => Err(runtime_error_from_parse_error(err)),
        }
    }

    /// The places of the calls on the call stack, most recent last; empty when
    /// the stack is.
    pub fn traceback(&self) -> (res: String)
        ensures
            self.stack@.len() == 0 ==> res@.len() == 0,
            res@ == crate::tracked_stats::joined(traceback_lines(self.source_mapper@, self.stack@)),
    {
        if self.stack.len() == 0 {
            let empty = String::new();
            proof {
                assert(traceback_lines(self.source_mapper@, self.stack@) =~= Seq::<Seq<char>>::empty());
            }
            return empty;
        }
        let mut lines: Vec<String> = Vec::new();
        lines.push(String::from_str("Traceback (excluding tail calls, most recent call last):"));
        let ghost sources = self.source_mapper@;
        let ghost heading = seq!["Traceback (excluding tail calls, most recent call last):"@];
        proof {
            assert(string_texts(lines@) =~= heading + stack_lines(sources, self.stack@.take(0)));
        }
        let mut i: usize = 0;
        while i < self.stack.len()
            invariant
                i <= self.stack@.len(),
                sources == self.source_mapper@,
                string_texts(lines@) == heading + stack_lines(sources, self.stack@.take(i as int)),
            decreases self.stack@.len() - i,
        {
            let trace = self.source_mapper.trace(&self.stack[i]);
            let ghost indented = trace@.map_values(|l: String| l@).map_values(|l: Seq<char>| "  "@ + l);
            let ghost start = string_texts(lines@);
            let mut j: usize = 0;
            while j < trace.len()
                invariant
                    j <= trace@.len(),
                    indented == trace@.map_values(|l: String| l@).map_values(|l: Seq<char>| "  "@ + l),
                    string_texts(lines@) == start + indented.take(j as int),
                decreases trace@.len() - j,
            {
                let ghost before = lines@;
                lines.push(concat("  ", trace[j].as_str()));
                proof {
                    assert(string_texts(lines@) =~= string_texts(before).push(indented[j as int]));
                    assert(start + indented.take(j + 1) =~= (start + indented.take(j as int)).push(indented[j as int]));
                }
                j = j + 1;
            }
            proof {
                assert(indented.take(j as int) =~= indented);
                assert(self.stack@.take(i + 1).drop_last() =~= self.stack@.take(i as int));
                assert(self.stack@.take(i + 1).last() == self.stack@[i as int]);
                assert(heading + stack_lines(sources, self.stack@.take(i + 1)) =~= (heading + stack_lines(
                    sources,
                    self.stack@.take(i as int),
                )) + indented);
            }
            i = i + 1;
        }
        proof {
            assert(self.stack@.take(i as int) =~= self.stack@);
        }
        crate::tracked_stats::join_lines(&lines)
    }

    pub fn start_tracking_stats(&mut self)
        ensures
            final(self).tracked_stats is Some,
            *final(self) == (Interpreter { tracked_stats: final(self).tracked_stats, ..*old(self) }),
            final(self).steps_left == old(self).steps_left,
            final(self).source_mapper@ == old(self).source_mapper@,
            final(self).has_evaluated_library == old(self).has_evaluated_library,
            stacks_kept(*old(self), *final(self)),
    {
        self.tracked_stats = Some(TrackedStats::new());
    }

    pub fn take_tracked_stats(&mut self) -> (res: Option<TrackedStats>)
        ensures
            final(self).tracked_stats is None,
            *final(self) == (Interpreter { tracked_stats: final(self).tracked_stats, ..*old(self) }),
            final(self).steps_left == old(self).steps_left,
            final(self).source_mapper@ == old(self).source_mapper@,
            final(self).has_evaluated_library == old(self).has_evaluated_library,
            stacks_kept(*old(self), *final(self)),
    {
        let mut taken: Option<TrackedStats> = None;
        std::mem::swap(&mut taken, &mut self.tracked_stats);
        taken
    }
}

/// Whether `procedure` accepts `operands_len` operands.
pub open spec fn is_valid_arity(procedure: Procedure, operands_len: int, procedures: Seq<ClosureData>) -> bool {
    match procedure {
        Procedure::Builtin(b) => crate::builtin_procedure::spec_builtin_arity_ok(b.func, operands_len),
        Procedure::Compound(c) => c.id < procedures.len() ==> crate::compound_procedure::spec_signature_arity_ok(
            &procedures[c.id as int].signature,
            operands_len,
        ),
    }
}

/// Checks that `procedure` accepts `operands_len` operands.
pub fn check_arity(procedure: Procedure, operands_len: usize, range: SourceRange, procedures: &Vec<ClosureData>) -> (res: Result<(), RuntimeError>)
    ensures
        res is Ok <==> is_valid_arity(procedure, operands_len as int, procedures@),
        res is Err ==> res == Err::<(), RuntimeError>(SourceMapped(RuntimeErrorType::WrongNumberOfArguments, range)),
{
    let ok = match procedure {
        Procedure::Builtin(builtin) => builtin.is_valid_arity(operands_len),
        Procedure::Compound(compound) => {
            if compound.id < procedures.len() {
                procedures[compound.id].signature.is_valid_arity(operands_len)
            } else {
                true
            }
        },
    };
    if ok {
        Ok(())
    } else {
        Err(RuntimeErrorType::WrongNumberOfArguments.source_mapped(range))
    }
}

/// Binds already evaluated operands to `procedure`, after checking that it
/// accepts that many.
pub fn bind(procedure: Procedure, range: SourceRange, operands: &[SourceValue], procedures: &Vec<ClosureData>) -> (res: Result<BoundProcedure, RuntimeError>)
    ensures
        !is_valid_arity(procedure, operands@.len() as int, procedures@) ==> res == Err::<BoundProcedure, RuntimeError>(
            SourceMapped(RuntimeErrorType::WrongNumberOfArguments, range),
        ),
        is_valid_arity(procedure, operands@.len() as int, procedures@) ==> (res matches Ok(b) && b.procedure == procedure
            && b.range == range && b.operands@ == operands@),
{
    check_arity(procedure, operands.len(), range, procedures)?;
    Ok(BoundProcedure { procedure, operands: values_to_vec(operands), range })
}

} // verus!
