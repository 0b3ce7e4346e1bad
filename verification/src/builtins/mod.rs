use vstd::prelude::*;

use crate::builtin_procedure::{
    spec_builtin_arity_ok, BinaryFn, BuiltinProcedure, BuiltinProcedureFn, NullaryVariadicFn, UnaryFn, UnaryVariadicFn,
};
use crate::callable::{Callable, CallableResult, CallableSuccess};
use crate::compound_procedure::{Body, CompoundProcedure, Signature};
use crate::display::value_text;
use crate::stdio_printer::print_state;
use crate::environment::Environment;
use crate::interpreter::{
    atom_result, atom_value, evaluated_in_turn, extends, is_valid_arity, stacks_kept, unmapped, Interpreter, RuntimeError, RuntimeErrorType,
    Step,
};
use crate::number::{NumberSystem, NumericOp};
use crate::object_tracker::{fresh, with_object, TrackedRef};
use crate::pair::{inner, is_chain, is_proper_list, shares_structure, valid_pair, Pair, PairHeap, PairInner};
use crate::procedure::Procedure;
use crate::source_mapped::{SourceMappable, SourceMapped, SourceRange};
use crate::special_form::{SpecialForm, SpecialFormFn};
use crate::string_interner::{InternedString, StringInterner};
use crate::value::{list_items, spec_as_bool, SourceValue, Value};

pub mod _let;
pub mod eq;
pub mod library;
pub mod logic;
pub mod math;
pub mod non_standard;
pub mod ord;
pub mod pair;
pub mod util;

verus! {

/// A builtin and the name it is bound to.
pub enum Builtin {
    SpecialForm(&'static str, SpecialFormFn),
    Procedure(&'static str, BuiltinProcedureFn),
}

pub type Builtins = Vec<Builtin>;

/// The name a builtin is bound to.
pub open spec fn builtin_name(b: Builtin) -> Seq<char> {
    match b {
        Builtin::SpecialForm(name, _) => name@,
        Builtin::Procedure(name, _) => name@,
    }
}

/// The value a builtin is bound to, given the symbol of its name.
pub open spec fn builtin_value(b: Builtin, name: InternedString) -> Value {
    match b {
        Builtin::SpecialForm(_, func) => Value::Callable(Callable::SpecialForm(SpecialForm { func, name })),
        Builtin::Procedure(_, func) => Value::Callable(
            Callable::Procedure(Procedure::Builtin(BuiltinProcedure { func, name })),
        ),
    }
}

/// Whether no builtin after the `k`th of the first `n` of `table` has its name.
pub open spec fn last_of_its_name(table: Seq<Builtin>, n: int, k: int) -> bool {
    forall|j: int| k < j < n ==> builtin_name(#[trigger] table[j]) != builtin_name(table[k])
}

/// Whether `environment` binds builtin `b` under its name, whose symbol
/// `interner` holds.
pub open spec fn binds_builtin(interner: Seq<Seq<char>>, environment: Environment, b: Builtin) -> bool {
    exists|name: InternedString|
        0 <= name.id() < interner.len() && #[trigger] interner[name.id()] == builtin_name(b) && environment.spec_get(name)
            == Some(unmapped(builtin_value(b, name)))
}

/// Whether `environment` binds every builtin of `table` under its name, but
/// one whose name a later builtin of the table, or `else`, takes again.
pub open spec fn binds_builtins(interner: Seq<Seq<char>>, environment: Environment, table: Seq<Builtin>) -> bool {
    forall|k: int|
        0 <= k < table.len() && last_of_its_name(table, table.len() as int, k) && builtin_name(table[k]) != "else"@
            ==> binds_builtin(interner, environment, #[trigger] table[k])
}

/// Binds every builtin under its name in the global scope, and `else` to true.
pub fn populate_environment(environment: &mut Environment, interner: &mut StringInterner)
    requires
        old(environment).stack().len() == 0,
    ensures
        final(environment).stack() == old(environment).stack(),
        binds_builtins(final(interner)@, *final(environment), builtin_table()),
        exists|name: InternedString|
            0 <= name.id() < final(interner)@.len() && #[trigger] final(interner)@[name.id()] == "else"@
                && final(environment).spec_get(name) == Some(unmapped(Value::Boolean(true))),
{
    let builtins = get_builtins();
    let mut i: usize = 0;
    while i < builtins.len()
        invariant
            i <= builtins@.len(),
            builtins@ == builtin_table(),
            environment.stack() == old(environment).stack(),
            environment.stack().len() == 0,
            forall|k: int|
                0 <= k < i && last_of_its_name(builtins@, i as int, k) ==> binds_builtin(
                    interner@,
                    *environment,
                    #[trigger] builtins@[k],
                ),
        decreases builtins@.len() - i,
    {
        let ghost env_before = *environment;
        let ghost interner_before = interner@;
        let b = &builtins[i];
        let (interned_name, value) = match b {
            Builtin::SpecialForm(name, func) => {
                let interned_name = interner.intern(name);
                (interned_name, Value::Callable(Callable::SpecialForm(SpecialForm { func: *func, name: interned_name })))
            },
            Builtin::Procedure(name, func) => {
                let interned_name = interner.intern(name);
                (
                    interned_name,
                    Value::Callable(
                        Callable::Procedure(Procedure::Builtin(BuiltinProcedure { func: *func, name: interned_name })),
                    ),
                )
            },
        };
        environment.define(interned_name, value.into_source_value());
        proof {
            assert(interner@[interned_name.id()] == builtin_name(builtins@[i as int]));
            assert(value == builtin_value(builtins@[i as int], interned_name));
            assert forall|k: int|
                0 <= k < i + 1 && last_of_its_name(builtins@, i + 1, k) implies binds_builtin(
                interner@,
                *environment,
                #[trigger] builtins@[k],
            ) by {
                if k == i {
                    assert(interner@[interned_name.id()] == builtin_name(builtins@[k]));
                } else {
                    assert(builtin_name(builtins@[i as int]) != builtin_name(builtins@[k]));
                    assert(last_of_its_name(builtins@, i as int, k));
                    let name = choose|name: InternedString|
                        0 <= name.id() < interner_before.len() && #[trigger] interner_before[name.id()] == builtin_name(
                            builtins@[k],
                        ) && env_before.spec_get(name) == Some(unmapped(builtin_value(builtins@[k], name)));
                    assert(interner@[name.id()] == interner_before[name.id()]);
                    assert(name != interned_name);
                    assert(environment.spec_get(name) == env_before.spec_get(name));
                }
            }
        }
        i = i + 1;
    }
    let ghost env_before = *environment;
    let ghost interner_before = interner@;
    // Technically 'else' is just part of how the 'cond' special form is evaluated,
    // but just aliasing it to 'true' is easier for now.
    let else_name = interner.intern("else");
    environment.define(else_name, Value::Boolean(true).into_source_value());
    proof {
        reveal_strlit("else");
        assert(interner@[else_name.id()] == "else"@);
        assert forall|k: int|
            0 <= k < builtin_table().len() && last_of_its_name(builtin_table(), builtin_table().len() as int, k)
                && builtin_name(builtin_table()[k]) != "else"@ implies binds_builtin(
            interner@,
            *environment,
            #[trigger] builtin_table()[k],
        ) by {
            let name = choose|name: InternedString|
                0 <= name.id() < interner_before.len() && #[trigger] interner_before[name.id()] == builtin_name(
                    builtins@[k],
                ) && env_before.spec_get(name) == Some(unmapped(builtin_value(builtins@[k], name)));
            assert(interner@[name.id()] == interner_before[name.id()]);
            assert(name != else_name);
        }
    }
}

/// The builtins bound by this module itself, each with its name.
pub open spec fn core_table() -> Seq<Builtin> {
    seq![
        Builtin::SpecialForm("define", SpecialFormFn::Define),
        Builtin::SpecialForm("lambda", SpecialFormFn::Lambda),
        Builtin::SpecialForm("apply", SpecialFormFn::Apply),
        Builtin::SpecialForm("quote", SpecialFormFn::Quote),
        Builtin::SpecialForm("begin", SpecialFormFn::Begin),
        Builtin::SpecialForm("display", SpecialFormFn::Display),
        Builtin::SpecialForm("if", SpecialFormFn::If),
        Builtin::SpecialForm("cond", SpecialFormFn::Cond),
        Builtin::SpecialForm("set!", SpecialFormFn::SetBang),
    ]
}

/// Every builtin, with the name it is bound to: the core ones, then those of
/// each module in turn.
pub open spec fn builtin_table() -> Seq<Builtin> {
    core_table() + math::builtin_table() + eq::builtin_table() + ord::builtin_table() + logic::builtin_table() + non_standard::builtin_table() + _let::builtin_table() + pair::builtin_table()
}

/// Every builtin, with the name it is bound to.
pub fn get_builtins() -> (res: Builtins)
    ensures
        res@ == builtin_table(),
{
    let mut builtins: Builtins = Vec::new();
    builtins.push(Builtin::SpecialForm("define", SpecialFormFn::Define));
    builtins.push(Builtin::SpecialForm("lambda", SpecialFormFn::Lambda));
    builtins.push(Builtin::SpecialForm("apply", SpecialFormFn::Apply));
    builtins.push(Builtin::SpecialForm("quote", SpecialFormFn::Quote));
    builtins.push(Builtin::SpecialForm("begin", SpecialFormFn::Begin));
    builtins.push(Builtin::SpecialForm("display", SpecialFormFn::Display));
    builtins.push(Builtin::SpecialForm("if", SpecialFormFn::If));
    builtins.push(Builtin::SpecialForm("cond", SpecialFormFn::Cond));
    builtins.push(Builtin::SpecialForm("set!", SpecialFormFn::SetBang));
    builtins.append(&mut math::get_builtins());
    builtins.append(&mut eq::get_builtins());
    builtins.append(&mut ord::get_builtins());
    builtins.append(&mut logic::get_builtins());
    builtins.append(&mut non_standard::get_builtins());
    builtins.append(&mut _let::get_builtins());
    builtins.append(&mut pair::get_builtins());
    builtins
}

/// The undefined value, at the range of the form that gave it.
/// What calling builtin `func` on `operands` gives where the pairs of `heap`
/// alone decide it: a wrong number of operands, `car`, `cdr`, `pair?`, and
/// `set-car!` or `set-cdr!` (a pair, or the error for another value).
/// `None` where more goes into it.
pub open spec fn builtin_outcome(
    heap: PairHeap,
    func: BuiltinProcedureFn,
    range: SourceRange,
    operands: Seq<SourceValue>,
) -> Option<CallableResult> {
    if !spec_builtin_arity_ok(func, operands.len() as int) {
        Some(Err(SourceMapped(RuntimeErrorType::WrongNumberOfArguments, range)))
    } else if func == BuiltinProcedureFn::Unary(UnaryFn::Car) {
        Some(pair::field_result(heap, operands[0], true))
    } else if func == BuiltinProcedureFn::Unary(UnaryFn::Cdr) {
        Some(pair::field_result(heap, operands[0], false))
    } else if func == BuiltinProcedureFn::Unary(UnaryFn::IsPair) {
        Some(Ok(CallableSuccess::Value(unmapped(Value::Boolean(operands[0].0 is Pair)))))
    } else if func == BuiltinProcedureFn::Binary(BinaryFn::SetCar) || func == BuiltinProcedureFn::Binary(BinaryFn::SetCdr) {
        if operands[0].0 is Pair {
            Some(undefined_at(range))
        } else {
            Some(Err(SourceMapped(RuntimeErrorType::ExpectedPair, operands[0].1)))
        }
    } else {
        None
    }
}

pub open spec fn undefined_at(range: SourceRange) -> CallableResult {
    Ok(CallableSuccess::Value(SourceMapped(Value::Undefined, range)))
}

pub fn undefined(range: SourceRange) -> (res: CallableResult)
    ensures
        res matches Ok(CallableSuccess::Value(v)) && v == SourceMapped(Value::Undefined, range),
{
    Ok(CallableSuccess::Value(Value::Undefined.source_mapped(range)))
}

/// Fails with `WrongNumberOfArguments` unless there are exactly `len` operands.
pub fn ensure_operands_len(operands: &[SourceValue], len: usize, range: SourceRange) -> (res: Result<(), RuntimeError>)
    ensures
        res is Ok <==> operands@.len() == len,
        res is Err ==> res == Err::<(), RuntimeError>(SourceMapped(RuntimeErrorType::WrongNumberOfArguments, range)),
{
    if operands.len() != len {
        Err(RuntimeErrorType::WrongNumberOfArguments.source_mapped(range))
    } else {
        Ok(())
    }
}

/// Evaluates the only operand of a special form that takes one.
pub fn eval_unary<N: NumberSystem>(interpreter: &mut Interpreter<N>, range: SourceRange, operands: &[SourceValue]) -> (res: Result<SourceValue, RuntimeError>)
    ensures
        final(interpreter).steps_left <= old(interpreter).steps_left,
        final(interpreter).source_mapper@ == old(interpreter).source_mapper@,
        final(interpreter).has_evaluated_library == old(interpreter).has_evaluated_library,
        res is Ok ==> stacks_kept(*old(interpreter), *final(interpreter)),
        operands@.len() != 1 ==> res == Err::<SourceValue, RuntimeError>(SourceMapped(RuntimeErrorType::WrongNumberOfArguments, range)),
        operands@.len() == 1 && old(interpreter).steps_left >= 3 && !(operands@[0].0 is Pair) ==> *final(interpreter) == (
        Interpreter { steps_left: (old(interpreter).steps_left - 3) as u64, history: final(interpreter).history, ..*old(interpreter) }),
        operands@.len() == 1 && old(interpreter).steps_left >= 3 && old(interpreter).keyboard_interrupt_channel is None
            ==> match atom_result(old(interpreter).environment, operands@[0]) {
            Some(r) => res == Ok::<SourceValue, RuntimeError>(r),
            None => true,
        },
        operands@.len() == 1 && old(interpreter).steps_left > 0 ==> final(interpreter).history@
            == old(interpreter).history@.push(crate::interpreter::evaluation_step(
                *final(interpreter),
                old(interpreter).environment,
                operands@[0],
                res,
                crate::interpreter::inner_steps(final(interpreter).history@.last()),
            )),
    decreases old(interpreter).steps_left, 1int,
{
    ensure_operands_len(operands, 1, range)?;
    interpreter.tick(range)?;
    interpreter.eval_expression(&operands[0])
}

/// A value seen as the result of a callable.
pub fn value_result(value: Value) -> (res: CallableResult)
    ensures
        res matches Ok(CallableSuccess::Value(v)) && v == unmapped(value),
{
    Ok(CallableSuccess::Value(value.into_source_value()))
}

/// What a special form gives when its operands alone decide it: `quote` of one
/// datum gives the datum, `and` and `or` of nothing give `#t` and `#f`, and a
/// form with operands it cannot take fails (`MalformedSpecialForm` for a
/// malformed form, `WrongNumberOfArguments` for a form of fixed arity).
pub open spec fn special_form_outcome(func: SpecialFormFn, range: SourceRange, operands: Seq<SourceValue>) -> Option<CallableResult> {
    let malformed = Some(Err(SourceMapped(RuntimeErrorType::MalformedSpecialForm, range)));
    let wrong_arity = Some(Err(SourceMapped(RuntimeErrorType::WrongNumberOfArguments, range)));
    match func {
        SpecialFormFn::Quote => if operands.len() == 1 {
            Some(Ok(CallableSuccess::Value(operands[0])))
        } else {
            malformed
        },
        SpecialFormFn::If => if operands.len() < 2 || operands.len() > 3 { malformed } else { None },
        SpecialFormFn::Cond | SpecialFormFn::Define | SpecialFormFn::Let | SpecialFormFn::LetStar
        | SpecialFormFn::Letrec => if operands.len() == 0 { malformed } else { None },
        SpecialFormFn::Lambda => if operands.len() < 2 { malformed } else { None },
        SpecialFormFn::Apply | SpecialFormFn::SetBang | SpecialFormFn::Eq | SpecialFormFn::TestEq
        | SpecialFormFn::TestRepr => if operands.len() != 2 { wrong_arity } else { None },
        SpecialFormFn::Display | SpecialFormFn::Not | SpecialFormFn::Assert | SpecialFormFn::TrackStats => if operands.len()
            != 1 {
            wrong_arity
        } else {
            None
        },
        SpecialFormFn::And => if operands.len() == 0 {
            Some(Ok(CallableSuccess::Value(unmapped(Value::Boolean(true)))))
        } else {
            None
        },
        SpecialFormFn::Or => if operands.len() == 0 {
            Some(Ok(CallableSuccess::Value(unmapped(Value::Boolean(false)))))
        } else {
            None
        },
        _ => None,
    }
}

/// Whether applying the special form `func` to `operands`, taking the
/// interpreter from `before` to `after` and giving `res`, went as the law of
/// that form says (see each form's own function).
pub open spec fn special_form_law<N: NumberSystem>(
    func: SpecialFormFn,
    before: Interpreter<N>,
    after: Interpreter<N>,
    range: SourceRange,
    operands: Seq<SourceValue>,
    res: CallableResult,
) -> bool {
    let h = after.history@;
    let k = before.history@.len() as int;
    let written = |e: SourceValue|
        value_text(before.string_interner@, before.strings@, before.pair_manager@, e.0, false, before.pair_manager@.len());
    match func {
        SpecialFormFn::Define => operands.len() > 0 ==> variable_defined(h, k, operands, after.environment, range, res),
        SpecialFormFn::Apply => operands.len() == 2 ==> applied(h, k, operands, range, res),
        SpecialFormFn::Begin => h == before.history@.push(
            Step::Sequence {
                expressions: operands,
                environment: before.environment,
                heap: before.pair_manager@,
                procedures: before.procedures@,
                result: res,
            },
        ),
        SpecialFormFn::Display => operands.len() == 1 ==> h.len() == k + 1 && displayed(h.last(), operands[0], after, range, res),
        SpecialFormFn::If => 2 <= operands.len() <= 3 ==> branched(h, k, operands, range, res),
        SpecialFormFn::Cond => operands.len() > 0 ==> cond_from(h, k, before.pair_manager@, operands, 0, range, res),
        SpecialFormFn::SetBang => operands.len() == 2 ==> assigned(h, k, operands, after.environment, range, res),
        SpecialFormFn::Let => match _let::let_bindings(before.pair_manager@, operands, false) {
            Some(b) => _let::let_from(h, k, b, operands.drop_first(), Seq::empty(), range, res),
            None => true,
        },
        SpecialFormFn::LetStar => match _let::let_bindings(before.pair_manager@, operands, true) {
            Some(b) => _let::sequential_from(h, k, b, operands.drop_first(), 0, unmapped(Value::Undefined), true, false, range, res),
            None => true,
        },
        SpecialFormFn::Letrec => match _let::let_bindings(before.pair_manager@, operands, false) {
            Some(b) => _let::sequential_from(h, k, b, operands.drop_first(), 0, unmapped(Value::Undefined), true, true, range, res),
            None => true,
        },
        SpecialFormFn::Eq => operands.len() == 2 ==> exists|r: Result<bool, RuntimeError>|
            #[trigger] eq::compared(h, k, operands[0], operands[1], r) && res == eq::eq_result(r),
        SpecialFormFn::And => operands.len() > 0 ==> logic::junction_from(h, k, operands, 0, false, res),
        SpecialFormFn::Or => operands.len() > 0 ==> logic::junction_from(h, k, operands, 0, true, res),
        SpecialFormFn::Not => operands.len() == 1 ==> h.len() == k + 1 && logic::negated(h.last(), operands[0], res),
        SpecialFormFn::TestEq => operands.len() == 2 ==> non_standard::eq_tested(
            h,
            k,
            operands,
            written(operands[0]),
            written(operands[1]),
            after,
            range,
            res,
        ),
        SpecialFormFn::TestRepr => operands.len() == 2 ==> non_standard::repr_tested(h, k, operands, written(operands[0]), after, range, res),
        SpecialFormFn::Assert => operands.len() == 1 ==> h.len() == k + 1 && non_standard::asserted(h.last(), operands[0], range, res),
        SpecialFormFn::RustBacktrace => h == before.history@.push(
            Step::Sequence {
                expressions: operands,
                environment: before.environment,
                heap: before.pair_manager@,
                procedures: before.procedures@,
                result: res,
            },
        ),
        SpecialFormFn::TrackStats => operands.len() == 1 ==> h.len() == k + 1 && non_standard::stats_taken(h.last(), operands[0], range, res),
        _ => true,
    }
}

/// Evaluates a special form with its (unevaluated) operands.
pub fn eval_special_form<N: NumberSystem>(
    interpreter: &mut Interpreter<N>,
    special_form: SpecialForm,
    range: SourceRange,
    operands: &[SourceValue],
) -> (res: CallableResult)
    ensures
        final(interpreter).steps_left <= old(interpreter).steps_left,
        final(interpreter).source_mapper@ == old(interpreter).source_mapper@,
        final(interpreter).has_evaluated_library == old(interpreter).has_evaluated_library,
        res is Ok ==> stacks_kept(*old(interpreter), *final(interpreter)),
        old(interpreter).steps_left >= 2 ==> (special_form_outcome(special_form.func, range, operands@) matches Some(r)
            ==> res == r),
        old(interpreter).steps_left >= 3 ==> special_form_law(
            special_form.func,
            *old(interpreter),
            *final(interpreter),
            range,
            operands@,
            res,
        ),
    decreases old(interpreter).steps_left, 2int,
{
    interpreter.tick(range)?;
    match special_form.func {
        SpecialFormFn::Define => define(interpreter, range, operands),
        SpecialFormFn::Lambda => lambda(interpreter, range, operands),
        SpecialFormFn::Apply => apply(interpreter, range, operands),
        SpecialFormFn::Quote => quote(range, operands),
        SpecialFormFn::Begin => begin(interpreter, range, operands),
        SpecialFormFn::Display => display(interpreter, range, operands),
        SpecialFormFn::If => _if(interpreter, range, operands),
        SpecialFormFn::Cond => cond(interpreter, range, operands),
        SpecialFormFn::SetBang => set(interpreter, range, operands),
        SpecialFormFn::Let => _let::_let(interpreter, range, operands),
        SpecialFormFn::LetStar => _let::let_star(interpreter, range, operands),
        SpecialFormFn::Letrec => _let::letrec(interpreter, range, operands),
        SpecialFormFn::Eq => eq::eq(interpreter, range, operands),
        SpecialFormFn::And => logic::and(interpreter, range, operands),
        SpecialFormFn::Or => logic::or(interpreter, range, operands),
        SpecialFormFn::Not => logic::not(interpreter, range, operands),
        SpecialFormFn::RustBacktrace => non_standard::rust_backtrace(interpreter, range, operands),
        SpecialFormFn::Stats => non_standard::stats(interpreter, range),
        SpecialFormFn::Gc => non_standard::gc(interpreter),
        SpecialFormFn::GcVerbose => non_standard::gc_verbose(interpreter),
        SpecialFormFn::TestEq => non_standard::test_eq(interpreter, range, operands),
        SpecialFormFn::TestRepr => non_standard::test_repr(interpreter, range, operands),
        SpecialFormFn::Assert => non_standard::_assert(interpreter, range, operands),
        SpecialFormFn::PrintAndEval => non_standard::print_and_eval(interpreter, range, operands),
        SpecialFormFn::TrackStats => non_standard::track_stats(interpreter, range, operands),
    }
}

/// Whether a builtin computes with numbers.
pub open spec fn is_numeric_builtin(func: BuiltinProcedureFn) -> bool {
    match func {
        BuiltinProcedureFn::Unary(f) => f == UnaryFn::Sqrt,
        BuiltinProcedureFn::Binary(f) => f == BinaryFn::Remainder,
        BuiltinProcedureFn::NullaryVariadic(f) => f != NullaryVariadicFn::List,
        BuiltinProcedureFn::UnaryVariadic(_) => true,
    }
}

/// Calls a builtin procedure with its (evaluated) operands: a pair builtin
/// reads or changes pairs, a numeric one fails with `ExpectedNumber` unless
/// every operand is a number and otherwise leaves the computation to the
/// number system. A wrong number of operands gives `WrongNumberOfArguments`.
pub fn call_builtin<N: NumberSystem>(
    interpreter: &mut Interpreter<N>,
    builtin: BuiltinProcedure,
    range: SourceRange,
    operands: Vec<SourceValue>,
) -> (res: CallableResult)
    ensures
        final(interpreter).history == old(interpreter).history,
        final(interpreter).steps_left == old(interpreter).steps_left,
        final(interpreter).source_mapper@ == old(interpreter).source_mapper@,
        final(interpreter).has_evaluated_library == old(interpreter).has_evaluated_library,
        stacks_kept(*old(interpreter), *final(interpreter)),
        !spec_builtin_arity_ok(builtin.func, operands@.len() as int) ==> res == Err::<CallableSuccess, RuntimeError>(
            SourceMapped(RuntimeErrorType::WrongNumberOfArguments, range),
        ),
        builtin.func == BuiltinProcedureFn::Unary(UnaryFn::Car) && operands@.len() == 1 ==> res == pair::field_result(
            old(interpreter).pair_manager@,
            operands@[0],
            true,
        ),
        builtin.func == BuiltinProcedureFn::Unary(UnaryFn::Cdr) && operands@.len() == 1 ==> res == pair::field_result(
            old(interpreter).pair_manager@,
            operands@[0],
            false,
        ),
        builtin.func == BuiltinProcedureFn::Unary(UnaryFn::IsPair) && operands@.len() == 1 ==> (res matches Ok(
            CallableSuccess::Value(v),
        ) && v == unmapped(Value::Boolean(operands@[0].0 is Pair))),
        builtin.func == BuiltinProcedureFn::Binary(BinaryFn::Cons) && operands@.len() == 2 ==> final(interpreter).pair_manager@ == old(interpreter).pair_manager@.push(fresh(PairInner { car: operands@[0], cdr: operands@[1] }))
            && (res matches Ok(CallableSuccess::Value(v)) && v.1 == range && v.0 == Value::Pair(
            Pair(TrackedRef(old(interpreter).pair_manager@.len() as usize)),
        )),
        builtin.func == BuiltinProcedureFn::NullaryVariadic(NullaryVariadicFn::List) ==> (res matches Ok(
            CallableSuccess::Value(v),
        ) && v == unmapped(v.0) && is_chain(final(interpreter).pair_manager@, v.0, operands@, Value::EmptyList)),
        (builtin.func == BuiltinProcedureFn::Binary(BinaryFn::SetCar) || builtin.func == BuiltinProcedureFn::Binary(
            BinaryFn::SetCdr,
        )) && operands@.len() == 2 && !(operands@[0].0 is Pair) ==> res == Err::<CallableSuccess, RuntimeError>(
            SourceMapped(RuntimeErrorType::ExpectedPair, operands@[0].1),
        ),
        (builtin.func == BuiltinProcedureFn::Binary(BinaryFn::SetCar) || builtin.func == BuiltinProcedureFn::Binary(
            BinaryFn::SetCdr,
        )) && operands@.len() == 2 && operands@[0].0 is Pair ==> res == undefined_at(range),
        builtin.func == BuiltinProcedureFn::Binary(BinaryFn::SetCar) && operands@.len() == 2 && (operands@[0].0 matches Value::Pair(p)
            && valid_pair(old(interpreter).pair_manager@, p)) ==> final(interpreter).pair_manager@ == old(interpreter).pair_manager@.update(
            operands@[0].0->Pair_0.0.0 as int,
            with_object(
                old(interpreter).pair_manager@[operands@[0].0->Pair_0.0.0 as int],
                PairInner { car: operands@[1], ..inner(old(interpreter).pair_manager@, operands@[0].0->Pair_0) },
            ),
        ),
        builtin.func == BuiltinProcedureFn::Binary(BinaryFn::SetCdr) && operands@.len() == 2 && (operands@[0].0 matches Value::Pair(p)
            && valid_pair(old(interpreter).pair_manager@, p)) ==> final(interpreter).pair_manager@ == old(interpreter).pair_manager@.update(
            operands@[0].0->Pair_0.0.0 as int,
            with_object(
                old(interpreter).pair_manager@[operands@[0].0->Pair_0.0.0 as int],
                PairInner { cdr: operands@[1], ..inner(old(interpreter).pair_manager@, operands@[0].0->Pair_0) },
            ),
        ),
        is_numeric_builtin(builtin.func) && spec_builtin_arity_ok(builtin.func, operands@.len() as int) && (exists|i: int|
            0 <= i < operands@.len() && !(#[trigger] operands@[i].0 is Number)) ==> (res matches Err(e) && e.0 is ExpectedNumber),
        builtin_outcome(old(interpreter).pair_manager@, builtin.func, range, operands@) matches Some(r) ==> res == r,
{
    match builtin.func {
        BuiltinProcedureFn::Unary(func) => {
            if operands.len() != 1 {
                return Err(RuntimeErrorType::WrongNumberOfArguments.source_mapped(range));
            }
            match func {
                UnaryFn::Sqrt => math::sqrt(interpreter, range, &operands[0]),
                UnaryFn::Car => pair::car(interpreter, &operands[0]),
                UnaryFn::Cdr => pair::cdr(interpreter, &operands[0]),
                UnaryFn::IsPair => pair::pair(&operands[0]),
            }
        },
        BuiltinProcedureFn::Binary(func) => {
            if operands.len() != 2 {
                return Err(RuntimeErrorType::WrongNumberOfArguments.source_mapped(range));
            }
            match func {
                BinaryFn::Remainder => math::remainder(interpreter, range, &operands[0], &operands[1]),
                BinaryFn::SetCar => pair::set_car(interpreter, range, &operands[0], &operands[1]),
                BinaryFn::SetCdr => pair::set_cdr(interpreter, range, &operands[0], &operands[1]),
                BinaryFn::Cons => pair::cons(interpreter, range, &operands[0], &operands[1]),
            }
        },
        BuiltinProcedureFn::NullaryVariadic(func) => match func {
            NullaryVariadicFn::Add => math::add(interpreter, range, operands.as_slice()),
            NullaryVariadicFn::Multiply => math::multiply(interpreter, range, operands.as_slice()),
            NullaryVariadicFn::List => pair::list(interpreter, operands.as_slice()),
            NullaryVariadicFn::LessThan => ord::compare(interpreter, NumericOp::LessThan, range, operands.as_slice()),
            NullaryVariadicFn::LessThanOrEqualTo => ord::compare(
                interpreter,
                NumericOp::LessThanOrEqualTo,
                range,
                operands.as_slice(),
            ),
            NullaryVariadicFn::GreaterThan => ord::compare(interpreter, NumericOp::GreaterThan, range, operands.as_slice()),
            NullaryVariadicFn::GreaterThanOrEqualTo => ord::compare(
                interpreter,
                NumericOp::GreaterThanOrEqualTo,
                range,
                operands.as_slice(),
            ),
            NullaryVariadicFn::NumericEq => ord::compare(interpreter, NumericOp::NumericEq, range, operands.as_slice()),
        },
        BuiltinProcedureFn::UnaryVariadic(func) => {
            if operands.len() < 1 {
                return Err(RuntimeErrorType::WrongNumberOfArguments.source_mapped(range));
            }
            match func {
                UnaryVariadicFn::Subtract => math::subtract(interpreter, range, operands.as_slice()),
                UnaryVariadicFn::Divide => math::divide(interpreter, range, operands.as_slice()),
            }
        },
    }
}

/// Whether `history`, from index `k` on, shows `(if test consequent
/// alternative)` with operands `operands` giving `res`: the test is
/// evaluated; a true value has the consequent evaluated in tail position,
/// giving the result, and a false one the alternative, or gives the
/// undefined value where there is none. A test that fails ends it with that
/// error.
pub open spec fn branched(history: Seq<Step>, k: int, operands: Seq<SourceValue>, range: SourceRange, res: CallableResult) -> bool {
    history.len() > k && match history[k] {
        Step::Evaluation { expression, result, .. } => expression == operands[0] && match result {
            Err(e) => history.len() == k + 1 && res == Err::<CallableSuccess, RuntimeError>(e),
            Ok(test) => if spec_as_bool(test.0) {
                history.len() == k + 2 && crate::interpreter::tail_evaluation_of(history[k + 1], operands[1], res)
            } else if operands.len() == 3 {
                history.len() == k + 2 && crate::interpreter::tail_evaluation_of(history[k + 1], operands[2], res)
            } else {
                history.len() == k + 1 && res == undefined_at(range)
            },
        },
        _ => false,
    }
}

/// `(if test consequent [alternate])`
pub fn _if<N: NumberSystem>(interpreter: &mut Interpreter<N>, range: SourceRange, operands: &[SourceValue]) -> (res: CallableResult)
    ensures
        final(interpreter).steps_left <= old(interpreter).steps_left,
        final(interpreter).source_mapper@ == old(interpreter).source_mapper@,
        final(interpreter).has_evaluated_library == old(interpreter).has_evaluated_library,
        res is Ok ==> stacks_kept(*old(interpreter), *final(interpreter)),
        operands@.len() < 2 || operands@.len() > 3 ==> res == Err::<CallableSuccess, RuntimeError>(
            SourceMapped(RuntimeErrorType::MalformedSpecialForm, range),
        ),
        2 <= operands@.len() <= 3 && old(interpreter).steps_left >= 6 && old(interpreter).keyboard_interrupt_channel is None
            ==> match atom_value(old(interpreter).environment, operands@[0]) {
            Some(test) => if spec_as_bool(test) {
                match atom_result(old(interpreter).environment, operands@[1]) {
                    Some(r) => res == Ok::<CallableSuccess, RuntimeError>(CallableSuccess::Value(r)),
                    None => true,
                }
            } else if operands@.len() == 3 {
                match atom_result(old(interpreter).environment, operands@[2]) {
                    Some(r) => res == Ok::<CallableSuccess, RuntimeError>(CallableSuccess::Value(r)),
                    None => true,
                }
            } else {
                res == undefined_at(range)
            },
            None => true,
        },
        2 <= operands@.len() <= 3 && old(interpreter).steps_left > 0 ==> branched(
            final(interpreter).history@,
            old(interpreter).history@.len() as int,
            operands@,
            range,
            res,
        ),
    decreases old(interpreter).steps_left, 1int,
{
    if operands.len() < 2 || operands.len() > 3 {
        return Err(RuntimeErrorType::MalformedSpecialForm.source_mapped(range));
    }
    interpreter.tick(range)?;
    let test = interpreter.eval_expression(&operands[0])?.0;
    if test.as_bool() {
        interpreter.eval_expression_in_tail_context(&operands[1])
    } else {
        if operands.len() == 3 {
            interpreter.eval_expression_in_tail_context(&operands[2])
        } else {
            undefined(range)
        }
    }
}

/// The items of a `cond` clause, where it is a list that shares no pair.
pub open spec fn clause_items(heap: PairHeap, clause: SourceValue) -> Option<Seq<SourceValue>> {
    if !(clause.0 is Pair) || shares_structure(heap, clause.0) || !is_proper_list(heap, clause.0) {
        None
    } else {
        Some(choose|items: Seq<SourceValue>| is_chain(heap, clause.0, items, Value::EmptyList))
    }
}

/// Whether `history`, from index `k` on, shows `(cond clause ...)` going on
/// from its clause `i`, the pair heap being `heap`: the clause's test is
/// evaluated; a false value passes on to the next clause, in the heap that
/// the test left; a true one is the result where the clause has nothing
/// more, and otherwise the rest of the clause is evaluated in turn and gives
/// the result. Past the last clause, the result is the undefined value. A
/// clause that is not a list, or a test that fails, ends it with that error.
pub open spec fn cond_from(
    history: Seq<Step>,
    k: int,
    heap: PairHeap,
    clauses: Seq<SourceValue>,
    i: nat,
    range: SourceRange,
    res: CallableResult,
) -> bool
    decreases clauses.len() - i,
{
    if i >= clauses.len() {
        history.len() == k && res == undefined_at(range)
    } else {
        match clause_items(heap, clauses[i as int]) {
            None => history.len() == k && res == Err::<CallableSuccess, RuntimeError>(
                SourceMapped(RuntimeErrorType::MalformedSpecialForm, clauses[i as int].1),
            ),
            Some(items) => history.len() > k && match history[k] {
                Step::Evaluation { expression, result, heap: after, .. } => expression == items[0] && match result {
                    Err(e) => history.len() == k + 1 && res == Err::<CallableSuccess, RuntimeError>(e),
                    Ok(test) => if spec_as_bool(test.0) {
                        if items.len() == 1 {
                            history.len() == k + 1 && res == Ok::<CallableSuccess, RuntimeError>(
                                CallableSuccess::Value(unmapped(test.0)),
                            )
                        } else {
                            history.len() == k + 2 && (history[k + 1] matches Step::Sequence { expressions, result, .. }
                                && expressions == items.drop_first() && result == res)
                        }
                    } else {
                        cond_from(history, k + 1, after, clauses, i + 1, range, res)
                    },
                },
                _ => false,
            },
        }
    }
}

/// What `(cond clause ...)` gives when each test it comes to evaluate, and the
/// one expression after the first true test, is an atom or a bound symbol:
/// the value of that expression, or the test's value when the clause has
/// nothing after it, or undefined when no test is true. A clause that is not
/// a list (or shares a pair) is malformed. `None` where `cond` would evaluate
/// anything else.
pub open spec fn cond_outcome(
    heap: PairHeap,
    environment: Environment,
    range: SourceRange,
    clauses: Seq<SourceValue>,
) -> Option<CallableResult>
    decreases clauses.len(),
{
    if clauses.len() == 0 {
        Some(undefined_at(range))
    } else {
        let clause = clauses[0];
        let malformed = Some(Err(SourceMapped(RuntimeErrorType::MalformedSpecialForm, clause.1)));
        if !(clause.0 is Pair) || shares_structure(heap, clause.0) || !is_proper_list(heap, clause.0) {
            malformed
        } else {
            let items = choose|items: Seq<SourceValue>| is_chain(heap, clause.0, items, Value::EmptyList);
            match atom_value(environment, items[0]) {
                Some(test) => if spec_as_bool(test) {
                    if items.len() == 1 {
                        Some(Ok(CallableSuccess::Value(unmapped(test))))
                    } else if items.len() == 2 {
                        match atom_result(environment, items[1]) {
                            Some(r) => Some(Ok(CallableSuccess::Value(r))),
                            None => None,
                        }
                    } else {
                        None
                    }
                } else {
                    cond_outcome(heap, environment, range, clauses.drop_first())
                },
                None => None,
            }
        }
    }
}

/// `(cond (test expression ...) ...)`
pub fn cond<N: NumberSystem>(interpreter: &mut Interpreter<N>, range: SourceRange, operands: &[SourceValue]) -> (res: CallableResult)
    ensures
        final(interpreter).steps_left <= old(interpreter).steps_left,
        final(interpreter).source_mapper@ == old(interpreter).source_mapper@,
        final(interpreter).has_evaluated_library == old(interpreter).has_evaluated_library,
        res is Ok ==> stacks_kept(*old(interpreter), *final(interpreter)),
        operands@.len() == 0 ==> res == Err::<CallableSuccess, RuntimeError>(
            SourceMapped(RuntimeErrorType::MalformedSpecialForm, range),
        ),
        operands@.len() > 0 && old(interpreter).steps_left >= 2 * operands@.len() + 5
            && old(interpreter).keyboard_interrupt_channel is None ==> match cond_outcome(
            old(interpreter).pair_manager@,
            old(interpreter).environment,
            range,
            operands@,
        ) {
            Some(o) => res == o,
            None => true,
        },
        operands@.len() > 0 && old(interpreter).steps_left > 0 ==> cond_from(
            final(interpreter).history@,
            old(interpreter).history@.len() as int,
            old(interpreter).pair_manager@,
            operands@,
            0,
            range,
            res,
        ),
    decreases old(interpreter).steps_left, 1int,
{
    if operands.len() == 0 {
        return Err(RuntimeErrorType::MalformedSpecialForm.source_mapped(range));
    }
    interpreter.tick(range)?;
    let ghost start = old(interpreter).history@.len() as int;
    let mut i: usize = 0;
    let ghost heap = interpreter.pair_manager@;
    let ghost env = interpreter.environment;
    proof {
        assert(operands@.skip(0) =~= operands@);
    }
    while i < operands.len()
        invariant
            i <= operands@.len(),
            interpreter.steps_left < old(interpreter).steps_left,
            interpreter.source_mapper@ == old(interpreter).source_mapper@,
            interpreter.has_evaluated_library == old(interpreter).has_evaluated_library,
            stacks_kept(*old(interpreter), *interpreter),
            heap == old(interpreter).pair_manager@,
            env == old(interpreter).environment,
            old(interpreter).steps_left >= 2 * operands@.len() + 5 && old(interpreter).keyboard_interrupt_channel is None
                && cond_outcome(heap, env, range, operands@) is Some ==> *interpreter == (Interpreter {
                steps_left: (old(interpreter).steps_left - 1 - 2 * i) as u64,
                history: interpreter.history,
                ..*old(interpreter)
            }) && cond_outcome(heap, env, range, operands@) == cond_outcome(heap, env, range, operands@.skip(i as int)),
            start == old(interpreter).history@.len(),
            interpreter.history@.len() == start + i,
            forall|h: Seq<Step>, r: CallableResult|
                extends(h, interpreter.history@) && #[trigger] cond_from(h, start + i, interpreter.pair_manager@, operands@, i as nat, range, r)
                    ==> cond_from(h, start, heap, operands@, 0, range, r),
        decreases operands@.len() - i,
    {
        proof {
            assert(operands@.skip(i as int)[0] == operands@[i as int]);
            assert(operands@.skip(i as int).drop_first() =~= operands@.skip(i + 1));
        }
        let clause = operands[i];
        let ghost at_clause = interpreter.history@;
        let ghost heap_now = interpreter.pair_manager@;
        let pair = match clause.0 {
            Value::Pair(pair) => pair,
            _ => {
                let res = Err(RuntimeErrorType::MalformedSpecialForm.source_mapped(clause.1));
                proof {
                    assert(cond_from(at_clause, start + i, heap_now, operands@, i as nat, range, res));
                    assert(extends(at_clause, at_clause));
                }
                return res;
            },
        };
        let items = match interpreter.pair_manager.try_as_rc_list(pair) {
            Some(items) => items,
            None => {
                let res = Err(RuntimeErrorType::MalformedSpecialForm.source_mapped(clause.1));
                proof {
                    assert(cond_from(at_clause, start + i, heap_now, operands@, i as nat, range, res));
                    assert(extends(at_clause, at_clause));
                }
                return res;
            },
        };
        proof {
            let now = interpreter.pair_manager@;
            let chosen = choose|c: Seq<SourceValue>| is_chain(now, clause.0, c, Value::EmptyList);
            crate::pair::lemma_chain_unique(now, clause.0, chosen, Value::EmptyList, items@, Value::EmptyList);
            assert(items@.subrange(1, items@.len() as int).len() == items@.len() - 1);
            if items@.len() == 2 {
                assert(items@.subrange(1, 2)[0] == items@[1]);
            }
        }
        proof {
            assert(clause_items(heap_now, clause) == Some(items@));
        }
        let tested = interpreter.eval_expression(&items[0]);
        let ghost after_test = interpreter.history@;
        let test = match tested {
            Ok(t) => t.0,
            Err(e) => {
                proof {
                    assert(cond_from(after_test, start + i, heap_now, operands@, i as nat, range, Err(e)));
                    assert(extends(after_test, after_test));
                }
                return Err(e);
            },
        };
        if test.as_bool() {
            if items.len() == 1 {
                let res = value_result(test);
                proof {
                    assert(cond_from(after_test, start + i, heap_now, operands@, i as nat, range, res));
                    assert(extends(after_test, after_test));
                }
                return res;
            }
            let res = interpreter.eval_expressions_in_tail_context(&items.as_slice()[1..items.len()]);
            proof {
                let h = interpreter.history@;
                assert(items@.subrange(1, items@.len() as int) =~= items@.drop_first());
                assert(h[start + i] == after_test[start + i]);
                assert(cond_from(h, start + i, heap_now, operands@, i as nat, range, res));
                assert(extends(h, at_clause));
            }
            return res;
        }
        let ghost tested_clause = i;
        i = i + 1;
        proof {
            assert forall|h: Seq<Step>, r: CallableResult|
                extends(h, interpreter.history@) && #[trigger] cond_from(h, start + i, interpreter.pair_manager@, operands@, i as nat, range, r)
                    implies cond_from(h, start, heap, operands@, 0, range, r) by {
                assert(h[start + tested_clause] == after_test[start + tested_clause]);
                assert(cond_from(h, start + tested_clause, heap_now, operands@, tested_clause as nat, range, r));
                assert(extends(h, at_clause));
            }
        }
    }
    let res = undefined(range);
    proof {
        assert(cond_from(interpreter.history@, start + i, interpreter.pair_manager@, operands@, i as nat, range, res));
        assert(extends(interpreter.history@, interpreter.history@));
    }
    res
}

/// Whether `after` is `before` with the procedure that `(define head body ...)`
/// makes bound: `head` is a pair whose car is the procedure's name, and the
/// name is bound to a new compound procedure of that name at `head`'s range.
/// What `(define (name parameter ...) body ...)` gives, the form's operands
/// being `operands`: `ExpectedIdentifier` where the head's first item is not
/// a symbol, the error of reading the parameters, `MalformedSpecialForm`
/// for an empty body, and otherwise the undefined value, with a new
/// compound procedure of those parameters and body, capturing the innermost
/// active scope.
pub open spec fn procedure_definition<N: NumberSystem>(
    before: Interpreter<N>,
    after: Interpreter<N>,
    range: SourceRange,
    operands: Seq<SourceValue>,
    res: CallableResult,
) -> bool {
    let heap = before.pair_manager@;
    let p = operands[0].0->Pair_0;
    let head = if valid_pair(heap, p) { inner(heap, p).car } else { crate::pair::undefined_value() };
    let params = if valid_pair(heap, p) { inner(heap, p).cdr } else { crate::pair::undefined_value() };
    if !(head.0 is Symbol) {
        res == Err::<CallableSuccess, RuntimeError>(SourceMapped(RuntimeErrorType::ExpectedIdentifier, head.1))
    } else {
        match crate::compound_procedure::signature_error(heap, params) {
            Some(e) => res == Err::<CallableSuccess, RuntimeError>(e),
            None => if operands.len() == 1 {
                res == Err::<CallableSuccess, RuntimeError>(SourceMapped(RuntimeErrorType::MalformedSpecialForm, range))
            } else {
                &&& res == undefined_at(range)
                &&& after.procedures@.len() == before.procedures@.len() + 1
                &&& after.procedures@.take(before.procedures@.len() as int) == before.procedures@
                &&& crate::compound_procedure::signature_of(heap, params, after.procedures@.last().signature)
                &&& after.procedures@.last().body.0.0@ == operands.drop_first()
                &&& after.procedures@.last().body.0.1 == range
                &&& after.procedures@.last().captured_lexical_scope.0 == if before.environment.stack().len() == 0 {
                    None::<TrackedRef>
                } else {
                    Some(before.environment.stack().last())
                }
            },
        }
    }
}

pub open spec fn defines_procedure<N: NumberSystem>(before: Interpreter<N>, after: Interpreter<N>, head: SourceValue) -> bool {
    &&& head.0 is Pair
    &&& valid_pair(before.pair_manager@, head.0->Pair_0)
    &&& inner(before.pair_manager@, head.0->Pair_0).car.0 is Symbol
    &&& before.environment.top_is_valid() ==> after.environment.spec_get(
        inner(before.pair_manager@, head.0->Pair_0).car.0->Symbol_0,
    ) == Some(
        SourceMapped(
            Value::Callable(
                Callable::Procedure(
                    Procedure::Compound(
                        CompoundProcedure {
                            name: Some(inner(before.pair_manager@, head.0->Pair_0).car.0->Symbol_0),
                            id: before.procedures@.len() as usize,
                        },
                    ),
                ),
            ),
            head.1,
        ),
    )
}

/// Whether `history`, from index `k` on, shows `(define name expression
/// ...)` with operands `operands`, leaving the environment `after` and
/// giving `res`: the expressions are evaluated in turn, and the name is bound
/// to the value of the last (where the innermost scope is valid; an
/// anonymous compound procedure takes the name), the result being the
/// undefined value. An evaluation that fails ends it with that error.
pub open spec fn variable_defined(
    history: Seq<Step>,
    k: int,
    operands: Seq<SourceValue>,
    after: Environment,
    range: SourceRange,
    res: CallableResult,
) -> bool {
    match operands[0].0 {
        Value::Symbol(name) => (exists|v: SourceValue|
            #[trigger] evaluated_in_turn(history, k, operands.drop_first(), 0, unmapped(Value::Undefined), Ok(v))
                && res == undefined_at(range) && (after.top_is_valid() ==> after.spec_get(name) == Some(named_after(v, name))))
            || (exists|e: RuntimeError|
            #[trigger] evaluated_in_turn(history, k, operands.drop_first(), 0, unmapped(Value::Undefined), Err(e)) && res
                == Err::<CallableSuccess, RuntimeError>(e)),
        _ => true,
    }
}

// TODO: According to R5RS section 5.2, definitions are only allowed at the top level
// of a program file, and at the beginning of a body. Currently we support it anywhere.
/// What `(define name expression)` binds `name` to, given the value of the
/// expression: that value, but an anonymous compound procedure takes the name.
pub open spec fn named_after(v: SourceValue, name: InternedString) -> SourceValue {
    match v.0 {
        Value::Callable(Callable::Procedure(Procedure::Compound(c))) => if c.name is None {
            SourceMapped(
                Value::Callable(
                    Callable::Procedure(Procedure::Compound(CompoundProcedure { name: Some(name), id: c.id })),
                ),
                v.1,
            )
        } else {
            v
        },
        _ => v,
    }
}

/// `(define name expression)` or `(define (name parameters ...) body ...)`
pub fn define<N: NumberSystem>(interpreter: &mut Interpreter<N>, range: SourceRange, operands: &[SourceValue]) -> (res: CallableResult)
    ensures
        final(interpreter).steps_left <= old(interpreter).steps_left,
        final(interpreter).source_mapper@ == old(interpreter).source_mapper@,
        final(interpreter).has_evaluated_library == old(interpreter).has_evaluated_library,
        res is Ok ==> stacks_kept(*old(interpreter), *final(interpreter)),
        operands@.len() == 0 ==> res == Err::<CallableSuccess, RuntimeError>(
            SourceMapped(RuntimeErrorType::MalformedSpecialForm, range),
        ),
        operands@.len() > 0 && !(operands@[0].0 is Symbol) && !(operands@[0].0 is Pair) ==> res == Err::<CallableSuccess, RuntimeError>(
            SourceMapped(RuntimeErrorType::MalformedSpecialForm, range),
        ),
        res is Ok ==> res == undefined_at(range),
        res is Ok && operands@[0].0 is Pair ==> defines_procedure(*old(interpreter), *final(interpreter), operands@[0]),
        operands@.len() > 0 && operands@[0].0 is Pair ==> procedure_definition(
            *old(interpreter),
            *final(interpreter),
            range,
            operands@,
            res,
        ),
        operands@.len() == 2 && old(interpreter).steps_left >= 4 && old(interpreter).keyboard_interrupt_channel is None
            && old(interpreter).environment.top_is_valid() ==> match (
            operands@[0].0,
            atom_result(old(interpreter).environment, operands@[1]),
        ) {
            (Value::Symbol(name), Some(r)) => res == undefined_at(range) && final(interpreter).environment.spec_get(name)
                == Some(named_after(r, name)) && forall|other: InternedString|
                other != name ==> #[trigger] final(interpreter).environment.spec_get(other)
                    == old(interpreter).environment.spec_get(other),
            _ => true,
        },
        operands@.len() > 0 && old(interpreter).steps_left > 1 ==> variable_defined(
            final(interpreter).history@,
            old(interpreter).history@.len() as int,
            operands@,
            final(interpreter).environment,
            range,
            res,
        ),
    decreases old(interpreter).steps_left, 1int,
{
    if operands.len() == 0 {
        return Err(RuntimeErrorType::MalformedSpecialForm.source_mapped(range));
    }
    match operands[0].0 {
        Value::Symbol(name) => {
            interpreter.tick(range)?;
            proof {
                assert(operands@.subrange(1, operands@.len() as int) =~= operands@.drop_first());
            }
            let mut value = match interpreter.eval_expressions(&operands[1..operands.len()]) {
                Ok(v) => v,
                Err(e) => {
                    proof {
                        if old(interpreter).steps_left > 1 {
                            assert(evaluated_in_turn(
                                interpreter.history@,
                                old(interpreter).history@.len() as int,
                                operands@.drop_first(),
                                0,
                                unmapped(Value::Undefined),
                                Err(e),
                            ));
                        }
                    }
                    return Err(e);
                },
            };
            let ghost evaluated = value;
            proof {
                if old(interpreter).steps_left > 1 {
                    assert(evaluated_in_turn(
                        interpreter.history@,
                        old(interpreter).history@.len() as int,
                        operands@.drop_first(),
                        0,
                        unmapped(Value::Undefined),
                        Ok(evaluated),
                    ));
                }
            }
            if let Value::Callable(Callable::Procedure(Procedure::Compound(compound))) = value.0 {
                if compound.name.is_none() {
                    let named = crate::compound_procedure::CompoundProcedure { name: Some(name), id: compound.id };
                    value = SourceMapped(Value::Callable(Callable::Procedure(Procedure::Compound(named))), value.1);
                }
            }
            let ghost before_define = interpreter.environment;
            let ghost history_before = interpreter.history@;
            proof {
                assert(value == named_after(evaluated, name));
            }
            interpreter.environment.define(name, value);
            proof {
                assert(interpreter.history@ == history_before);
                assert(interpreter.environment.top_is_valid() ==> before_define.top_is_valid());
                if old(interpreter).steps_left > 1 {
                    assert(evaluated_in_turn(
                        interpreter.history@,
                        old(interpreter).history@.len() as int,
                        operands@.drop_first(),
                        0,
                        unmapped(Value::Undefined),
                        Ok(evaluated),
                    ));
                }
            }
            undefined(range)
        },
        Value::Pair(pair) => {
            let pair_range = operands[0].1;
            let name = interpreter.pair_manager.car(pair).expect_identifier()?;
            let signature = Signature::parse(interpreter.pair_manager.cdr(pair), &interpreter.pair_manager)?;
            let body = Body::try_new(&operands[1..operands.len()], range)?;
            let scope = interpreter.environment.capture_lexical_scope();
            let created = interpreter.create_procedure(signature, body, scope);
            let proc = crate::compound_procedure::CompoundProcedure { name: Some(name), id: created.id };
            interpreter.environment.define(
                name,
                Value::Callable(Callable::Procedure(Procedure::Compound(proc))).source_mapped(pair_range),
            );
            undefined(range)
        },
        _ => Err(RuntimeErrorType::MalformedSpecialForm.source_mapped(range)),
    }
}

/// `(lambda parameters body ...)`
pub fn lambda<N: NumberSystem>(interpreter: &mut Interpreter<N>, range: SourceRange, operands: &[SourceValue]) -> (res: CallableResult)
    ensures
        final(interpreter).steps_left == old(interpreter).steps_left,
        final(interpreter).source_mapper@ == old(interpreter).source_mapper@,
        final(interpreter).has_evaluated_library == old(interpreter).has_evaluated_library,
        stacks_kept(*old(interpreter), *final(interpreter)),
        operands@.len() < 2 ==> res == Err::<CallableSuccess, RuntimeError>(
            SourceMapped(RuntimeErrorType::MalformedSpecialForm, range),
        ),
        res matches Ok(CallableSuccess::Value(v)) ==> v.0 matches Value::Callable(
            Callable::Procedure(Procedure::Compound(c)),
        ) && c.name is None && c.id == old(interpreter).procedures@.len(),
{
    if operands.len() < 2 {
        return Err(RuntimeErrorType::MalformedSpecialForm.source_mapped(range));
    }
    let signature = Signature::parse(operands[0], &interpreter.pair_manager)?;
    let body = Body::try_new(&operands[1..operands.len()], range)?;
    let scope = interpreter.environment.capture_lexical_scope();
    let proc = interpreter.create_procedure(signature, body, scope);
    value_result(Value::Callable(Callable::Procedure(Procedure::Compound(proc))))
}

/// Whether `history`, from index `start` on, shows `(apply procedure list)`
/// with operands `operands` giving `res`: the procedure is evaluated, then
/// the list, and the procedure is called with the items of the list, in
/// their order and unevaluated, `res` being what that call gives. An
/// evaluation that fails, a procedure that is not one or a list that is not
/// one ends it there with that error; with no step taken, the step limit was
/// reached.
pub open spec fn applied(
    history: Seq<Step>,
    start: int,
    operands: Seq<SourceValue>,
    range: SourceRange,
    res: CallableResult,
) -> bool {
    if history.len() == start {
        res == Err::<CallableSuccess, RuntimeError>(SourceMapped(RuntimeErrorType::EvaluationLimit, range))
    } else {
        history.len() > start && match history[start] {
            Step::Evaluation { expression, result, .. } => expression == operands[0] && match result {
                Err(e) => history.len() == start + 1 && res == Err::<CallableSuccess, RuntimeError>(e),
                Ok(p) => match p.0 {
                    Value::Callable(Callable::Procedure(procedure)) => history.len() > start + 1 && match history[start + 1] {
                        Step::Evaluation { expression, result, heap, .. } => expression == operands[1] && match result {
                            Err(e) => history.len() == start + 2 && res == Err::<CallableSuccess, RuntimeError>(e),
                            Ok(l) => match list_items(heap, l.0) {
                                None => history.len() == start + 2 && res == Err::<CallableSuccess, RuntimeError>(
                                    SourceMapped(RuntimeErrorType::ExpectedList, l.1),
                                ),
                                Some(items) => history.len() == start + 3 && crate::interpreter::call_made(
                                    history[start + 2],
                                    procedure,
                                    items,
                                    false,
                                    res,
                                ),
                            },
                        },
                        _ => false,
                    },
                    _ => history.len() == start + 1 && res == Err::<CallableSuccess, RuntimeError>(
                        SourceMapped(RuntimeErrorType::ExpectedProcedure, p.1),
                    ),
                },
            },
            _ => false,
        }
    }
}

/// `(apply procedure list)`
pub fn apply<N: NumberSystem>(interpreter: &mut Interpreter<N>, range: SourceRange, operands: &[SourceValue]) -> (res: CallableResult)
    ensures
        final(interpreter).steps_left <= old(interpreter).steps_left,
        final(interpreter).source_mapper@ == old(interpreter).source_mapper@,
        final(interpreter).has_evaluated_library == old(interpreter).has_evaluated_library,
        res is Ok ==> stacks_kept(*old(interpreter), *final(interpreter)),
        operands@.len() != 2 ==> res == Err::<CallableSuccess, RuntimeError>(
            SourceMapped(RuntimeErrorType::WrongNumberOfArguments, range),
        ),
        operands@.len() == 2 && old(interpreter).steps_left >= 7 && old(interpreter).keyboard_interrupt_channel is None
            ==> match atom_result(old(interpreter).environment, operands@[0]) {
            Some(r0) => match r0.0 {
                Value::Callable(Callable::Procedure(p)) => match atom_result(old(interpreter).environment, operands@[1]) {
                    Some(r1) => match list_items(old(interpreter).pair_manager@, r1.0) {
                        None => res == Err::<CallableSuccess, RuntimeError>(
                            SourceMapped(RuntimeErrorType::ExpectedList, r1.1),
                        ),
                        Some(items) => if old(interpreter).stack@.len() >= old(interpreter).max_stack_size {
                            res == Err::<CallableSuccess, RuntimeError>(SourceMapped(RuntimeErrorType::StackOverflow, range))
                        } else {
                            !is_valid_arity(p, items.len() as int, old(interpreter).procedures@) ==> res == Err::<
                                CallableSuccess,
                                RuntimeError,
                            >(SourceMapped(RuntimeErrorType::WrongNumberOfArguments, range))
                        },
                    },
                    None => true,
                },
                _ => res == Err::<CallableSuccess, RuntimeError>(SourceMapped(RuntimeErrorType::ExpectedProcedure, r0.1)),
            },
            None => true,
        },
        operands@.len() == 2 ==> applied(final(interpreter).history@, old(interpreter).history@.len() as int, operands@, range, res),
    decreases old(interpreter).steps_left, 1int,
{
    ensure_operands_len(operands, 2, range)?;
    interpreter.tick(range)?;
    let procedure = interpreter.eval_expression(&operands[0])?.expect_procedure()?;
    let list = interpreter.eval_expression(&operands[1])?;
    let items = list.expect_list(&interpreter.pair_manager)?;
    interpreter.eval_procedure(procedure, items.as_slice(), operands[0].1, range, false)
}

/// `(quote datum)`
pub fn quote(range: SourceRange, operands: &[SourceValue]) -> (res: CallableResult)
    ensures
        operands@.len() == 1 ==> (res matches Ok(CallableSuccess::Value(v)) && v == operands@[0]),
        operands@.len() != 1 ==> res == Err::<CallableSuccess, RuntimeError>(
            SourceMapped(RuntimeErrorType::MalformedSpecialForm, range),
        ),
{
    if operands.len() == 1 {
        Ok(CallableSuccess::Value(operands[0]))
    } else {
        Err(RuntimeErrorType::MalformedSpecialForm.source_mapped(range))
    }
}

/// `(begin expression ...)`
pub fn begin<N: NumberSystem>(interpreter: &mut Interpreter<N>, range: SourceRange, operands: &[SourceValue]) -> (res: CallableResult)
    ensures
        final(interpreter).steps_left <= old(interpreter).steps_left,
        final(interpreter).source_mapper@ == old(interpreter).source_mapper@,
        final(interpreter).has_evaluated_library == old(interpreter).has_evaluated_library,
        res is Ok ==> stacks_kept(*old(interpreter), *final(interpreter)),
        old(interpreter).steps_left >= 2 && operands@.len() == 0 ==> res == Ok::<CallableSuccess, RuntimeError>(
            CallableSuccess::Value(unmapped(Value::Undefined)),
        ),
        old(interpreter).steps_left >= 5 && operands@.len() == 1 ==> match atom_result(
            old(interpreter).environment,
            operands@[0],
        ) {
            Some(r) => res == Ok::<CallableSuccess, RuntimeError>(CallableSuccess::Value(r)),
            None => true,
        },
        old(interpreter).steps_left > 0 ==> final(interpreter).history@ == old(interpreter).history@.push(
            Step::Sequence {
                expressions: operands@,
                environment: old(interpreter).environment,
                heap: old(interpreter).pair_manager@,
                procedures: old(interpreter).procedures@,
                result: res,
            },
        ),
    decreases old(interpreter).steps_left, 1int,
{
    interpreter.tick(range)?;
    interpreter.eval_expressions_in_tail_context(operands)
}

/// Whether `history`, from index `k` on, shows `(set! name expression)`
/// with operands `operands`, leaving the environment `after` and giving
/// `res`: the expression is evaluated, and where the name is then bound, it
/// is bound to that value instead and the result is the undefined value;
/// where it is not, the result is `UnboundVariable`. An evaluation that
/// fails ends it with that error.
pub open spec fn assigned(
    history: Seq<Step>,
    k: int,
    operands: Seq<SourceValue>,
    after: Environment,
    range: SourceRange,
    res: CallableResult,
) -> bool {
    match operands[0].0 {
        Value::Symbol(name) => history.len() == k + 1 && match history[k] {
            Step::Evaluation { expression, result, environment, .. } => expression == operands[1] && match result {
                Err(e) => res == Err::<CallableSuccess, RuntimeError>(e),
                Ok(v) => if environment.spec_get(name) is Some {
                    res == undefined_at(range) && after.spec_get(name) == Some(v)
                } else {
                    res == Err::<CallableSuccess, RuntimeError>(
                        SourceMapped(RuntimeErrorType::UnboundVariable(name), operands[0].1),
                    )
                },
            },
            _ => false,
        },
        _ => true,
    }
}

/// `(set! name expression)`
pub fn set<N: NumberSystem>(interpreter: &mut Interpreter<N>, range: SourceRange, operands: &[SourceValue]) -> (res: CallableResult)
    ensures
        final(interpreter).steps_left <= old(interpreter).steps_left,
        final(interpreter).source_mapper@ == old(interpreter).source_mapper@,
        final(interpreter).has_evaluated_library == old(interpreter).has_evaluated_library,
        res is Ok ==> stacks_kept(*old(interpreter), *final(interpreter)),
        operands@.len() != 2 ==> res == Err::<CallableSuccess, RuntimeError>(
            SourceMapped(RuntimeErrorType::WrongNumberOfArguments, range),
        ),
        operands@.len() == 2 && !(operands@[0].0 is Symbol) ==> res == Err::<CallableSuccess, RuntimeError>(
            SourceMapped(RuntimeErrorType::ExpectedIdentifier, operands@[0].1),
        ),
        res is Ok ==> res == undefined_at(range),
        operands@.len() == 2 && old(interpreter).steps_left >= 3 && old(interpreter).keyboard_interrupt_channel is None
            ==> match (operands@[0].0, atom_result(old(interpreter).environment, operands@[1])) {
            (Value::Symbol(name), Some(r)) => if old(interpreter).environment.spec_get(name) is Some {
                res == undefined_at(range) && final(interpreter).environment.spec_get(name) == Some(r)
            } else {
                res == Err::<CallableSuccess, RuntimeError>(
                    SourceMapped(RuntimeErrorType::UnboundVariable(name), operands@[0].1),
                )
            },
            _ => true,
        },
        operands@.len() == 2 && old(interpreter).steps_left > 0 ==> assigned(
            final(interpreter).history@,
            old(interpreter).history@.len() as int,
            operands@,
            final(interpreter).environment,
            range,
            res,
        ),
    decreases old(interpreter).steps_left, 1int,
{
    ensure_operands_len(operands, 2, range)?;
    let identifier = match operands[0].expect_identifier() {
        Ok(id) => id,
        Err(e) => {
            return Err(e);
        },
    };
    interpreter.tick(range)?;
    let value = interpreter.eval_expression(&operands[1])?;
    if let Err(err) = interpreter.environment.change(identifier, value) {
        Err(err.source_mapped(operands[0].1))
    } else {
        undefined(range)
    }
}

/// Whether `step`, the one step of `(display operand)` that left the
/// interpreter as `after`, giving `res`, shows the operand evaluated and its
/// value printed as `display` shows it (strings without quotes), after what
/// the evaluation printed, the result being the undefined value; or the
/// evaluation failing with the error that is the result.
pub open spec fn displayed<N: NumberSystem>(
    step: Step,
    operand: SourceValue,
    after: Interpreter<N>,
    range: SourceRange,
    res: CallableResult,
) -> bool {
    match step {
        Step::Evaluation { expression, result, heap, printer, .. } => expression == operand && match result {
            Err(e) => res == Err::<CallableSuccess, RuntimeError>(e),
            Ok(v) => res == undefined_at(range) && (value_text(
                after.string_interner@,
                after.strings@,
                heap,
                v.0,
                true,
                heap.len(),
            ) matches Some(t) ==> (after.printer.buffer(), after.printer.output()) == print_state(
                printer.buffer(),
                printer.output(),
                t,
                printer.autoflush_disabled(),
            )),
        },
        _ => false,
    }
}

/// `(display expression)`: prints the value as `display` shows it (strings
/// without quotes).
pub fn display<N: NumberSystem>(interpreter: &mut Interpreter<N>, range: SourceRange, operands: &[SourceValue]) -> (res: CallableResult)
    ensures
        final(interpreter).steps_left <= old(interpreter).steps_left,
        final(interpreter).source_mapper@ == old(interpreter).source_mapper@,
        final(interpreter).has_evaluated_library == old(interpreter).has_evaluated_library,
        res is Ok ==> stacks_kept(*old(interpreter), *final(interpreter)),
        operands@.len() != 1 ==> res == Err::<CallableSuccess, RuntimeError>(
            SourceMapped(RuntimeErrorType::WrongNumberOfArguments, range),
        ),
        res is Ok ==> res == undefined_at(range),
        operands@.len() == 1 && old(interpreter).steps_left >= 3 && old(interpreter).keyboard_interrupt_channel is None
            ==> match atom_result(old(interpreter).environment, operands@[0]) {
            Some(r) => res == undefined_at(range) && (value_text(
                old(interpreter).string_interner@,
                old(interpreter).strings@,
                old(interpreter).pair_manager@,
                r.0,
                true,
                old(interpreter).pair_manager@.len(),
            ) matches Some(t) ==> (final(interpreter).printer.buffer(), final(interpreter).printer.output()) == print_state(
                old(interpreter).printer.buffer(),
                old(interpreter).printer.output(),
                t,
                old(interpreter).printer.autoflush_disabled(),
            )),
            None => true,
        },
        operands@.len() == 1 && old(interpreter).steps_left > 0 ==> final(interpreter).history@.len()
            == old(interpreter).history@.len() + 1 && displayed(
            final(interpreter).history@.last(),
            operands@[0],
            *final(interpreter),
            range,
            res,
        ),
    decreases old(interpreter).steps_left, 2int,
{
    let value = eval_unary(interpreter, range, operands)?;
    let text = interpreter.repr(&value.0, true);
    interpreter.printer.print(text.as_str());
    undefined(range)
}

} // verus!
