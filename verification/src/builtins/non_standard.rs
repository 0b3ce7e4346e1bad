use vstd::prelude::*;

use colored::Colorize;

use crate::builtins::eq::{compared, is_eq, spec_same};
use crate::display::value_text;
use crate::stdio_printer::{print_pieces_state, printed_line, StdioPrinter};
use crate::builtins::{ensure_operands_len, eval_unary, undefined, undefined_at, value_result, Builtin, Builtins};
use crate::callable::{CallableResult, CallableSuccess};
use crate::interpreter::{
    all_atoms, atom_result, atom_value, stacks_kept, unmapped, Interpreter, RuntimeError, RuntimeErrorType, Step,
};
use crate::number::NumberSystem;
use crate::source_mapped::{SourceMappable, SourceMapped, SourceRange};
use crate::special_form::SpecialFormFn;
use crate::text::{concat, str_eq};
use crate::tracked_stats::join_lines;
use crate::value::{spec_as_bool, SourceValue, Value};

verus! {

/// The builtins of this module, each with the name it is bound to.
pub open spec fn builtin_table() -> Seq<Builtin> {
    seq![
        Builtin::SpecialForm("rust-backtrace", SpecialFormFn::RustBacktrace),
        Builtin::SpecialForm("stats", SpecialFormFn::Stats),
        Builtin::SpecialForm("gc", SpecialFormFn::Gc),
        Builtin::SpecialForm("gc-verbose", SpecialFormFn::GcVerbose),
        Builtin::SpecialForm("test-eq", SpecialFormFn::TestEq),
        Builtin::SpecialForm("test-repr", SpecialFormFn::TestRepr),
        Builtin::SpecialForm("assert", SpecialFormFn::Assert),
        Builtin::SpecialForm("print-and-eval", SpecialFormFn::PrintAndEval),
        Builtin::SpecialForm("track-stats", SpecialFormFn::TrackStats),
    ]
}

pub fn get_builtins() -> (res: Builtins)
    ensures
        res@ == builtin_table(),
{
    let mut builtins: Builtins = Vec::new();
    builtins.push(Builtin::SpecialForm("rust-backtrace", SpecialFormFn::RustBacktrace));
    builtins.push(Builtin::SpecialForm("stats", SpecialFormFn::Stats));
    builtins.push(Builtin::SpecialForm("gc", SpecialFormFn::Gc));
    builtins.push(Builtin::SpecialForm("gc-verbose", SpecialFormFn::GcVerbose));
    builtins.push(Builtin::SpecialForm("test-eq", SpecialFormFn::TestEq));
    builtins.push(Builtin::SpecialForm("test-repr", SpecialFormFn::TestRepr));
    builtins.push(Builtin::SpecialForm("assert", SpecialFormFn::Assert));
    builtins.push(Builtin::SpecialForm("print-and-eval", SpecialFormFn::PrintAndEval));
    builtins.push(Builtin::SpecialForm("track-stats", SpecialFormFn::TrackStats));
    builtins
}

/// The escape sequence that ends a colored span in a terminal.
pub open spec fn reset_code() -> Seq<char> {
    seq!['\u{1b}', '[', '0', 'm']
}

/// The escape sequence that starts a span in the foreground color `code`.
pub open spec fn color_code(code: Seq<char>) -> Seq<char> {
    seq!['\u{1b}', '['] + code + seq!['m']
}

/// Whether `s` holds the reset sequence somewhere.
pub open spec fn has_reset(s: Seq<char>) -> bool {
    exists|i: int| 0 <= i && i + 4 <= s.len() && #[trigger] s.subrange(i, i + 4) == reset_code()
}

/// Whether `res` is how `colored` renders `text` in the color `code`: the
/// text alone when coloring is off (which depends on the terminal and the
/// environment), or else wrapped in the color's start and reset sequences.
/// Text that holds a reset sequence itself is rendered otherwise, and is not
/// described.
pub open spec fn rendered_in_color(res: Seq<char>, text: Seq<char>, code: Seq<char>) -> bool {
    !has_reset(text) ==> (res == text || res == color_code(code) + text + reset_code())
}

/// Calls `Colorize::green` from `colored` and renders the result with its
/// `Display` impl: the text alone, or between `ESC[32m` and `ESC[0m`.
#[verifier::external_body]
fn green(text: &str) -> (res: String)
    ensures
        rendered_in_color(res@, text@, seq!['3', '2']),
{
    format!("{}", text.green())
}

/// Calls `Colorize::red` from `colored` and renders the result with its
/// `Display` impl: the text alone, or between `ESC[31m` and `ESC[0m`.
#[verifier::external_body]
fn red(text: &str) -> (res: String)
    ensures
        rendered_in_color(res@, text@, seq!['3', '1']),
{
    format!("{}", text.red())
}

/// Calls `Colorize::blue` from `colored` and renders the result with its
/// `Display` impl: the text alone, or between `ESC[34m` and `ESC[0m`.
#[verifier::external_body]
fn blue(text: &str) -> (res: String)
    ensures
        rendered_in_color(res@, text@, seq!['3', '4']),
{
    format!("{}", text.blue())
}

/// Calls `std::backtrace::Backtrace::force_capture` and renders the backtrace
/// of the running thread; what it holds depends on the machine.
#[verifier::external_body]
fn capture_backtrace() -> (res: String) {
    format!("{}", std::backtrace::Backtrace::force_capture())
}

/// `(stats)`: prints statistics about the interpreter's objects.
pub fn stats<N: NumberSystem>(interpreter: &mut Interpreter<N>, range: SourceRange) -> (res: CallableResult)
    ensures
        final(interpreter).history == old(interpreter).history,
        final(interpreter).steps_left == old(interpreter).steps_left,
        final(interpreter).source_mapper@ == old(interpreter).source_mapper@,
        final(interpreter).has_evaluated_library == old(interpreter).has_evaluated_library,
        stacks_kept(*old(interpreter), *final(interpreter)),
        res == undefined_at(range),
{
    interpreter.print_stats();
    undefined(range)
}

/// `(gc)`: collects garbage and gives how many objects were found in cycles.
pub fn gc<N: NumberSystem>(interpreter: &mut Interpreter<N>) -> (res: CallableResult)
    ensures
        final(interpreter).history == old(interpreter).history,
        final(interpreter).steps_left == old(interpreter).steps_left,
        final(interpreter).source_mapper@ == old(interpreter).source_mapper@,
        final(interpreter).has_evaluated_library == old(interpreter).has_evaluated_library,
        stacks_kept(*old(interpreter), *final(interpreter)),
        res matches Ok(CallableSuccess::Value(v)) && v.0 is Number && v == unmapped(v.0),
        old(interpreter).stack@.len() > 1 ==> printed_line(
            old(interpreter).printer,
            final(interpreter).printer,
            "Cannot currently collect garbage when call stack is non-empty."@,
        ) && final(interpreter).pair_manager@ == old(interpreter).pair_manager@,
{
    let found = interpreter.gc(false);
    value_result(Value::Number(interpreter.numbers.count_to_number(found)))
}

/// `(gc-verbose)`: like `(gc)`, also printing what was reclaimed.
pub fn gc_verbose<N: NumberSystem>(interpreter: &mut Interpreter<N>) -> (res: CallableResult)
    ensures
        final(interpreter).history == old(interpreter).history,
        final(interpreter).steps_left == old(interpreter).steps_left,
        final(interpreter).source_mapper@ == old(interpreter).source_mapper@,
        final(interpreter).has_evaluated_library == old(interpreter).has_evaluated_library,
        stacks_kept(*old(interpreter), *final(interpreter)),
        res matches Ok(CallableSuccess::Value(v)) && v.0 is Number && v == unmapped(v.0),
{
    let found = interpreter.gc(true);
    value_result(Value::Number(interpreter.numbers.count_to_number(found)))
}

/// The text that `repr` gives for `v` with the heaps of `st`, where it has one.
pub open spec fn shown<N: NumberSystem>(st: Interpreter<N>, v: Value) -> Option<Seq<char>> {
    value_text(st.string_interner@, st.strings@, st.pair_manager@, v, false, st.pair_manager@.len())
}

/// What `print-and-eval` prints for one operand: its text rendered as
/// `name`, ` = `, the text of its value, and a comma or, after the last, a
/// newline.
pub open spec fn evaluated_piece(name: Seq<char>, value: Seq<char>, last: bool) -> Seq<char> {
    name + " = "@ + value + if last {
        "\n"@
    } else {
        ", "@
    }
}

/// Whether each of the atoms `operands`, and what it gives, has a text.
pub open spec fn all_shown<N: NumberSystem>(st: Interpreter<N>, operands: Seq<SourceValue>) -> bool {
    forall|k: int|
        0 <= k < operands.len() ==> shown(st, operands[k].0) is Some && shown(
            st,
            #[trigger] atom_value(st.environment, operands[k])->Some_0,
        ) is Some
}

/// What `print-and-eval` prints for the first `count` of `operands`, their
/// texts rendered as `names`.
pub open spec fn evaluated_pieces<N: NumberSystem>(
    st: Interpreter<N>,
    operands: Seq<SourceValue>,
    names: Seq<Seq<char>>,
    count: int,
) -> Seq<Seq<char>> {
    Seq::new(
        count as nat,
        |k: int|
            evaluated_piece(
                names[k],
                shown(st, atom_value(st.environment, operands[k])->Some_0)->Some_0,
                k == operands.len() - 1,
            ),
    )
}

/// `(print-and-eval expression ...)`: prints each expression's source and its value.
pub fn print_and_eval<N: NumberSystem>(interpreter: &mut Interpreter<N>, range: SourceRange, operands: &[SourceValue]) -> (res: CallableResult)
    ensures
        final(interpreter).steps_left <= old(interpreter).steps_left,
        final(interpreter).source_mapper@ == old(interpreter).source_mapper@,
        final(interpreter).has_evaluated_library == old(interpreter).has_evaluated_library,
        res is Ok ==> stacks_kept(*old(interpreter), *final(interpreter)),
        res is Ok ==> res == undefined_at(range),
        old(interpreter).steps_left == 0 ==> res == Err::<CallableSuccess, RuntimeError>(
            SourceMapped(RuntimeErrorType::EvaluationLimit, range),
        ),
        old(interpreter).steps_left >= 1 + 2 * operands@.len() && old(interpreter).keyboard_interrupt_channel is None
            && all_atoms(old(interpreter).environment, operands@) ==> res == undefined_at(range)
            && final(interpreter).environment == old(interpreter).environment && final(interpreter).steps_left
            == old(interpreter).steps_left - 1 - 2 * operands@.len(),
        old(interpreter).steps_left > 0 && operands@.len() == 0 ==> *final(interpreter) == (Interpreter {
            steps_left: (old(interpreter).steps_left - 1) as u64,
            ..*old(interpreter)
        }),
        old(interpreter).steps_left >= 1 + 2 * operands@.len() && old(interpreter).keyboard_interrupt_channel is None
            && all_atoms(old(interpreter).environment, operands@) && all_shown(*old(interpreter), operands@) ==> exists|
            names: Seq<Seq<char>>,
        |
            names.len() == operands@.len() && (forall|k: int|
                0 <= k < operands@.len() ==> rendered_in_color(
                    #[trigger] names[k],
                    shown(*old(interpreter), operands@[k].0)->Some_0,
                    seq!['3', '4'],
                )) && (final(interpreter).printer.buffer(), final(interpreter).printer.output())
                == print_pieces_state(
                old(interpreter).printer.buffer(),
                old(interpreter).printer.output(),
                evaluated_pieces(*old(interpreter), operands@, names, operands@.len() as int),
                old(interpreter).printer.autoflush_disabled(),
            ),
    decreases old(interpreter).steps_left, 1int,
{
    interpreter.tick(range)?;
    let ghost start = *interpreter;
    let ghost mut names: Seq<Seq<char>> = Seq::empty();
    proof {
        assert(evaluated_pieces(*old(interpreter), operands@, names, 0) =~= Seq::<Seq<char>>::empty());
    }
    let mut i: usize = 0;
    while i < operands.len()
        invariant
            i <= operands@.len(),
            interpreter.steps_left < old(interpreter).steps_left,
            interpreter.source_mapper@ == old(interpreter).source_mapper@,
            interpreter.has_evaluated_library == old(interpreter).has_evaluated_library,
            stacks_kept(*old(interpreter), *interpreter),
            old(interpreter).steps_left >= 1 + 2 * operands@.len() && old(interpreter).keyboard_interrupt_channel is None
                && all_atoms(old(interpreter).environment, operands@) ==> interpreter.environment
                == old(interpreter).environment && interpreter.keyboard_interrupt_channel is None
                && interpreter.steps_left == old(interpreter).steps_left - 1 - 2 * i,
            operands@.len() == 0 ==> *interpreter == (Interpreter {
                steps_left: (old(interpreter).steps_left - 1) as u64,
                ..*old(interpreter)
            }),
            start == (Interpreter { steps_left: (old(interpreter).steps_left - 1) as u64, ..*old(interpreter) }),
            old(interpreter).steps_left >= 1 + 2 * operands@.len() && old(interpreter).keyboard_interrupt_channel is None
                && all_atoms(old(interpreter).environment, operands@) ==> *interpreter == (Interpreter {
                steps_left: (old(interpreter).steps_left - 1 - 2 * i) as u64,
                printer: interpreter.printer,
                history: interpreter.history,
                ..*old(interpreter)
            }) && names.len() == i && (all_shown(*old(interpreter), operands@) ==> forall|k: int|
                0 <= k < i ==> rendered_in_color(
                    #[trigger] names[k],
                    shown(*old(interpreter), operands@[k].0)->Some_0,
                    seq!['3', '4'],
                )) && (all_shown(*old(interpreter), operands@) ==> (interpreter.printer.buffer(), interpreter.printer.output())
                == print_pieces_state(
                old(interpreter).printer.buffer(),
                old(interpreter).printer.output(),
                evaluated_pieces(*old(interpreter), operands@, names, i as int),
                old(interpreter).printer.autoflush_disabled(),
            )) && interpreter.printer.autoflush_disabled() == old(interpreter).printer.autoflush_disabled(),
        decreases operands@.len() - i,
    {
        let ghost before = *interpreter;
        proof {
            if old(interpreter).steps_left >= 1 + 2 * operands@.len() && old(interpreter).keyboard_interrupt_channel is None
                && all_atoms(old(interpreter).environment, operands@) {
                assert(atom_result(old(interpreter).environment, operands@[i as int]) is Some);
            }
        }
        let operand_repr = interpreter.repr(&operands[i].0, false);
        let value = interpreter.eval_expression(&operands[i])?;
        let value_repr = interpreter.repr(&value.0, false);
        let end = if i == operands.len() - 1 { "\n" } else { ", " };
        let name = blue(operand_repr.as_str());
        let line = concat(concat(concat(name.as_str(), " = ").as_str(), value_repr.as_str()).as_str(), end);
        interpreter.printer.print(line.as_str());
        proof {
            if old(interpreter).steps_left >= 1 + 2 * operands@.len() && old(interpreter).keyboard_interrupt_channel is None
                && all_atoms(old(interpreter).environment, operands@) {
                let names2 = names.push(name@);
                if all_shown(*old(interpreter), operands@) {
                    let v = atom_value(old(interpreter).environment, operands@[i as int])->Some_0;
                    assert(shown(*old(interpreter), operands@[i as int].0) is Some);
                    assert(shown(*old(interpreter), v) is Some);
                    assert(value.0 == v);
                    assert(line@ == evaluated_piece(
                        name@,
                        shown(*old(interpreter), v)->Some_0,
                        i == operands@.len() - 1,
                    ));
                    let prev = evaluated_pieces(*old(interpreter), operands@, names, i as int);
                    assert(evaluated_pieces(*old(interpreter), operands@, names2, i + 1) =~= prev.push(line@));
                    assert(prev.push(line@).drop_last() =~= prev);
                    assert((interpreter.printer.buffer(), interpreter.printer.output()) == print_pieces_state(
                        old(interpreter).printer.buffer(),
                        old(interpreter).printer.output(),
                        prev.push(line@),
                        old(interpreter).printer.autoflush_disabled(),
                    ));
                }
                assert forall|k: int| 0 <= k < i + 1 && all_shown(*old(interpreter), operands@) implies rendered_in_color(
                    #[trigger] names2[k],
                    shown(*old(interpreter), operands@[k].0)->Some_0,
                    seq!['3', '4'],
                ) by {
                    if k < i {
                        assert(names2[k] == names[k]);
                    } else {
                        assert(names2[k] == name@);
                        assert(shown(*old(interpreter), operands@[i as int].0) is Some);
                    }
                }
                assert(*interpreter == (Interpreter {
                    steps_left: (old(interpreter).steps_left - 1 - 2 * (i + 1)) as u64,
                    printer: interpreter.printer,
                    history: interpreter.history,
                    ..*old(interpreter)
                }));
                names = names2;
            }
        }
        i = i + 1;
    }
    proof {
        if old(interpreter).steps_left >= 1 + 2 * operands@.len() && old(interpreter).keyboard_interrupt_channel is None
            && all_atoms(old(interpreter).environment, operands@) && all_shown(*old(interpreter), operands@) {
            assert(names.len() == operands@.len());
        }
    }
    undefined(range)
}

/// Whether `step`, the one step of `(assert operand)`, giving `res`, shows
/// the operand evaluated and the result the undefined value where its value
/// is true, `AssertionFailure` where it is `#f`; or the evaluation failing
/// with the error that is the result.
pub open spec fn asserted(step: Step, operand: SourceValue, range: SourceRange, res: CallableResult) -> bool {
    match step {
        Step::Evaluation { expression, result, .. } => expression == operand && match result {
            Err(e) => res == Err::<CallableSuccess, RuntimeError>(e),
            Ok(v) => if spec_as_bool(v.0) {
                res == undefined_at(range)
            } else {
                res == Err::<CallableSuccess, RuntimeError>(SourceMapped(RuntimeErrorType::AssertionFailure, range))
            },
        },
        _ => false,
    }
}

/// `(assert expression)`: fails with `AssertionFailure` when the value is `#f`.
pub fn _assert<N: NumberSystem>(interpreter: &mut Interpreter<N>, range: SourceRange, operands: &[SourceValue]) -> (res: CallableResult)
    ensures
        final(interpreter).steps_left <= old(interpreter).steps_left,
        final(interpreter).source_mapper@ == old(interpreter).source_mapper@,
        final(interpreter).has_evaluated_library == old(interpreter).has_evaluated_library,
        res is Ok ==> stacks_kept(*old(interpreter), *final(interpreter)),
        operands@.len() != 1 ==> res == Err::<CallableSuccess, RuntimeError>(
            SourceMapped(RuntimeErrorType::WrongNumberOfArguments, range),
        ),
        res is Ok ==> res == undefined_at(range),
        operands@.len() == 1 && old(interpreter).steps_left >= 3 && old(interpreter).keyboard_interrupt_channel is None
            ==> match atom_value(old(interpreter).environment, operands@[0]) {
            Some(v) => if spec_as_bool(v) {
                res == undefined_at(range)
            } else {
                res == Err::<CallableSuccess, RuntimeError>(SourceMapped(RuntimeErrorType::AssertionFailure, range))
            },
            None => true,
        },
        operands@.len() == 1 && old(interpreter).steps_left > 0 ==> final(interpreter).history@.len()
            == old(interpreter).history@.len() + 1 && asserted(final(interpreter).history@.last(), operands@[0], range, res),
    decreases old(interpreter).steps_left, 2int,
{
    let value = eval_unary(interpreter, range, operands)?;
    if !value.0.as_bool() {
        Err(RuntimeErrorType::AssertionFailure.source_mapped(range))
    } else {
        undefined(range)
    }
}

/// Whether `(test-eq a b)` with operands `operands`, which took the steps
/// of `history` from index `k` on and left the interpreter as `after`, giving
/// `res`, compared the values of the two operands as `eq?` does and printed
/// a line telling whether they are the same, `OK` in green or `ERR` in red,
/// followed by the operands as written (`t0` and `t1`, where they can be).
pub open spec fn eq_tested<N: NumberSystem>(
    history: Seq<Step>,
    k: int,
    operands: Seq<SourceValue>,
    t0: Option<Seq<char>>,
    t1: Option<Seq<char>>,
    after: Interpreter<N>,
    range: SourceRange,
    res: CallableResult,
) -> bool {
    exists|r: Result<bool, RuntimeError>|
        #[trigger] compared(history, k, operands[0], operands[1], r) && match r {
            Err(e) => res == Err::<CallableSuccess, RuntimeError>(e),
            Ok(same) => res == undefined_at(range) && (history[k + 1] matches Step::Evaluation { printer, .. } && (t0 matches Some(
                text0,
            ) ==> t1 matches Some(text1) ==> exists|msg: Seq<char>|
                {
                    &&& (if same {
                        rendered_in_color(msg, "OK"@, seq!['3', '2'])
                    } else {
                        rendered_in_color(msg, "ERR"@, seq!['3', '1'])
                    })
                    &&& printed_line(printer, after.printer, msg + " "@ + text0 + " = "@ + text1)
                })),
        }
}

/// `(test-eq a b)`: prints whether `a` and `b` are `eq?`.
pub fn test_eq<N: NumberSystem>(interpreter: &mut Interpreter<N>, range: SourceRange, operands: &[SourceValue]) -> (res: CallableResult)
    ensures
        final(interpreter).steps_left <= old(interpreter).steps_left,
        final(interpreter).source_mapper@ == old(interpreter).source_mapper@,
        final(interpreter).has_evaluated_library == old(interpreter).has_evaluated_library,
        res is Ok ==> stacks_kept(*old(interpreter), *final(interpreter)),
        operands@.len() != 2 ==> res == Err::<CallableSuccess, RuntimeError>(
            SourceMapped(RuntimeErrorType::WrongNumberOfArguments, range),
        ),
        res is Ok ==> res == undefined_at(range),
        operands@.len() == 2 && old(interpreter).steps_left >= 5 && old(interpreter).keyboard_interrupt_channel is None
            ==> match (
            atom_value(old(interpreter).environment, operands@[0]),
            atom_value(old(interpreter).environment, operands@[1]),
            value_text(
                old(interpreter).string_interner@,
                old(interpreter).strings@,
                old(interpreter).pair_manager@,
                operands@[0].0,
                false,
                old(interpreter).pair_manager@.len(),
            ),
            value_text(
                old(interpreter).string_interner@,
                old(interpreter).strings@,
                old(interpreter).pair_manager@,
                operands@[1].0,
                false,
                old(interpreter).pair_manager@.len(),
            ),
        ) {
            (Some(x), Some(y), Some(t0), Some(t1)) => !(x is Number && y is Number) ==> res == undefined_at(range) && exists|
                msg: Seq<char>,
            |
                {
                    &&& (if spec_same(x, y) {
                        rendered_in_color(msg, "OK"@, seq!['3', '2'])
                    } else {
                        rendered_in_color(msg, "ERR"@, seq!['3', '1'])
                    })
                    &&& printed_line(
                        old(interpreter).printer,
                        final(interpreter).printer,
                        msg + " "@ + t0 + " = "@ + t1,
                    )
                },
            _ => true,
        },
        operands@.len() == 2 && old(interpreter).steps_left > 0 ==> eq_tested(
            final(interpreter).history@,
            old(interpreter).history@.len() as int,
            operands@,
            value_text(
                old(interpreter).string_interner@,
                old(interpreter).strings@,
                old(interpreter).pair_manager@,
                operands@[0].0,
                false,
                old(interpreter).pair_manager@.len(),
            ),
            value_text(
                old(interpreter).string_interner@,
                old(interpreter).strings@,
                old(interpreter).pair_manager@,
                operands@[1].0,
                false,
                old(interpreter).pair_manager@.len(),
            ),
            *final(interpreter),
            range,
            res,
        ),
    decreases old(interpreter).steps_left, 1int,
{
    ensure_operands_len(operands, 2, range)?;
    let operand_0_repr = interpreter.repr(&operands[0].0, false);
    let operand_1_repr = interpreter.repr(&operands[1].0, false);
    let outcome = is_eq(interpreter, &operands[0], &operands[1]);
    let ghost evaluated = interpreter.history@;
    proof {
        if old(interpreter).steps_left > 0 {
            assert(compared(evaluated, old(interpreter).history@.len() as int, operands@[0], operands@[1], outcome));
        }
    }
    let same = outcome?;
    let msg = if same { green("OK") } else { red("ERR") };
    let line = concat(
        concat(concat(concat(msg.as_str(), " ").as_str(), operand_0_repr.as_str()).as_str(), " = ").as_str(),
        operand_1_repr.as_str(),
    );
    interpreter.printer.println(line.as_str());
    proof {
        reveal_strlit(" ");
        reveal_strlit(" = ");
        reveal_strlit("OK");
        reveal_strlit("ERR");
        assert(line@ =~= msg@ + " "@ + operand_0_repr@ + " = "@ + operand_1_repr@);
        if old(interpreter).steps_left > 0 {
            assert(compared(interpreter.history@, old(interpreter).history@.len() as int, operands@[0], operands@[1], Ok(same)));
        }
    }
    undefined(range)
}

/// Whether `(test-repr expression expected)` with operands `operands`, which
/// took the steps of `history` from index `k` on and left the interpreter as
/// `after`, giving `res`, evaluated both operands in turn and printed a line
/// telling whether their values are written the same way: `OK` in green, the
/// first operand as written (`e0`, where it can be) and the second value; or
/// `ERR` in red, the first operand, its value and the second value. An
/// evaluation that fails ends it with that error.
pub open spec fn repr_tested<N: NumberSystem>(
    history: Seq<Step>,
    k: int,
    operands: Seq<SourceValue>,
    e0: Option<Seq<char>>,
    after: Interpreter<N>,
    range: SourceRange,
    res: CallableResult,
) -> bool {
    history.len() > k && match history[k] {
        Step::Evaluation { expression, result, .. } => expression == operands[0] && match result {
            Err(e) => history.len() == k + 1 && res == Err::<CallableSuccess, RuntimeError>(e),
            Ok(v0) => history.len() == k + 2 && match history[k + 1] {
                Step::Evaluation { expression, result, heap, printer, .. } => expression == operands[1] && match result {
                    Err(e) => res == Err::<CallableSuccess, RuntimeError>(e),
                    Ok(v1) => res == undefined_at(range) && match (
                        e0,
                        value_text(after.string_interner@, after.strings@, heap, v0.0, false, heap.len()),
                        value_text(after.string_interner@, after.strings@, heap, v1.0, false, heap.len()),
                    ) {
                        (Some(t), Some(s0), Some(s1)) => exists|msg: Seq<char>|
                            if s0 == s1 {
                                rendered_in_color(msg, "OK"@, seq!['3', '2']) && printed_line(
                                    printer,
                                    after.printer,
                                    msg + " "@ + t + " = "@ + s1,
                                )
                            } else {
                                rendered_in_color(msg, "ERR"@, seq!['3', '1']) && printed_line(
                                    printer,
                                    after.printer,
                                    msg + " "@ + t + " = "@ + s0 + " \u{2260} "@ + s1,
                                )
                            },
                        _ => true,
                    },
                },
                _ => false,
            },
        },
        _ => false,
    }
}

/// `(test-repr expression expected)`: prints whether the two values are
/// written the same way.
pub fn test_repr<N: NumberSystem>(interpreter: &mut Interpreter<N>, range: SourceRange, operands: &[SourceValue]) -> (res: CallableResult)
    ensures
        final(interpreter).steps_left <= old(interpreter).steps_left,
        final(interpreter).source_mapper@ == old(interpreter).source_mapper@,
        final(interpreter).has_evaluated_library == old(interpreter).has_evaluated_library,
        res is Ok ==> stacks_kept(*old(interpreter), *final(interpreter)),
        operands@.len() != 2 ==> res == Err::<CallableSuccess, RuntimeError>(
            SourceMapped(RuntimeErrorType::WrongNumberOfArguments, range),
        ),
        res is Ok ==> res == undefined_at(range),
        operands@.len() == 2 && old(interpreter).steps_left >= 5 && old(interpreter).keyboard_interrupt_channel is None
            ==> match (
            atom_result(old(interpreter).environment, operands@[0]),
            atom_result(old(interpreter).environment, operands@[1]),
        ) {
            (Some(r0), Some(r1)) => match (
                value_text(
                    old(interpreter).string_interner@,
                    old(interpreter).strings@,
                    old(interpreter).pair_manager@,
                    operands@[0].0,
                    false,
                    old(interpreter).pair_manager@.len(),
                ),
                value_text(
                    old(interpreter).string_interner@,
                    old(interpreter).strings@,
                    old(interpreter).pair_manager@,
                    r0.0,
                    false,
                    old(interpreter).pair_manager@.len(),
                ),
                value_text(
                    old(interpreter).string_interner@,
                    old(interpreter).strings@,
                    old(interpreter).pair_manager@,
                    r1.0,
                    false,
                    old(interpreter).pair_manager@.len(),
                ),
            ) {
                (Some(e0), Some(v0), Some(v1)) => res == undefined_at(range) && exists|msg: Seq<char>|
                    if v0 == v1 {
                        rendered_in_color(msg, "OK"@, seq!['3', '2']) && printed_line(
                            old(interpreter).printer,
                            final(interpreter).printer,
                            msg + " "@ + e0 + " = "@ + v1,
                        )
                    } else {
                        rendered_in_color(msg, "ERR"@, seq!['3', '1']) && printed_line(
                            old(interpreter).printer,
                            final(interpreter).printer,
                            msg + " "@ + e0 + " = "@ + v0 + " \u{2260} "@ + v1,
                        )
                    },
                _ => true,
            },
            _ => true,
        },
        operands@.len() == 2 && old(interpreter).steps_left > 0 ==> repr_tested(
            final(interpreter).history@,
            old(interpreter).history@.len() as int,
            operands@,
            value_text(
                old(interpreter).string_interner@,
                old(interpreter).strings@,
                old(interpreter).pair_manager@,
                operands@[0].0,
                false,
                old(interpreter).pair_manager@.len(),
            ),
            *final(interpreter),
            range,
            res,
        ),
    decreases old(interpreter).steps_left, 1int,
{
    ensure_operands_len(operands, 2, range)?;
    interpreter.tick(range)?;
    let operand_0_repr = interpreter.repr(&operands[0].0, false);
    let value_0 = interpreter.eval_expression(&operands[0])?;
    let value_1 = interpreter.eval_expression(&operands[1])?;
    let value_0_repr = interpreter.repr(&value_0.0, false);
    let value_1_repr = interpreter.repr(&value_1.0, false);
    let msg = if str_eq(value_0_repr.as_str(), value_1_repr.as_str()) {
        let ok = green("OK");
        concat(
            concat(concat(concat(ok.as_str(), " ").as_str(), operand_0_repr.as_str()).as_str(), " = ").as_str(),
            value_1_repr.as_str(),
        )
    } else {
        let err = red("ERR");
        let left = concat(
            concat(concat(concat(err.as_str(), " ").as_str(), operand_0_repr.as_str()).as_str(), " = ").as_str(),
            value_0_repr.as_str(),
        );
        concat(concat(left.as_str(), " \u{2260} ").as_str(), value_1_repr.as_str())
    };
    interpreter.printer.println(msg.as_str());
    proof {
        reveal_strlit(" ");
        reveal_strlit(" = ");
        reveal_strlit(" \u{2260} ");
        reveal_strlit("OK");
        reveal_strlit("ERR");
    }
    undefined(range)
}

/// `(rust-backtrace expression ...)`: prints where it was called and the
/// interpreter's own backtrace, then evaluates the expressions like `begin`.
pub fn rust_backtrace<N: NumberSystem>(interpreter: &mut Interpreter<N>, range: SourceRange, operands: &[SourceValue]) -> (res: CallableResult)
    ensures
        final(interpreter).steps_left <= old(interpreter).steps_left,
        final(interpreter).source_mapper@ == old(interpreter).source_mapper@,
        final(interpreter).has_evaluated_library == old(interpreter).has_evaluated_library,
        res is Ok ==> stacks_kept(*old(interpreter), *final(interpreter)),
        old(interpreter).steps_left == 0 ==> res == Err::<CallableSuccess, RuntimeError>(
            SourceMapped(RuntimeErrorType::EvaluationLimit, range),
        ),
        old(interpreter).steps_left > 1 && operands@.len() == 0 ==> res == Ok::<CallableSuccess, RuntimeError>(
            CallableSuccess::Value(unmapped(Value::Undefined)),
        ),
        old(interpreter).steps_left >= 5 && operands@.len() == 1 ==> match atom_result(
            old(interpreter).environment,
            operands@[0],
        ) {
            Some(r) => res == Ok::<CallableSuccess, RuntimeError>(CallableSuccess::Value(r)),
            None => true,
        },
        old(interpreter).steps_left > 0 ==> final(interpreter).history@ == old(interpreter).history@.push(
            Step::Sequence {
                expressions: operands@,
                environment: old(interpreter).environment,
                heap: old(interpreter).pair_manager@,
                procedures: old(interpreter).procedures@,
                result: res,
            },
        ),
    decreases old(interpreter).steps_left, 1int,
{
    interpreter.tick(range)?;
    let trace = interpreter.source_mapper.trace(&range);
    let location = join_lines(&trace);
    let backtrace = capture_backtrace();
    let line = concat(concat(concat("Rust backtrace at ", location.as_str()).as_str(), "\n").as_str(), backtrace.as_str());
    interpreter.printer.println(line.as_str());
    interpreter.eval_expressions_in_tail_context(operands)
}

/// Whether `step`, the one step of `(track-stats operand)`, giving `res`,
/// shows the operand evaluated and the result the undefined value, or the
/// evaluation failing with the error that is the result.
pub open spec fn stats_taken(step: Step, operand: SourceValue, range: SourceRange, res: CallableResult) -> bool {
    match step {
        Step::Evaluation { expression, result, .. } => expression == operand && match result {
            Err(e) => res == Err::<CallableSuccess, RuntimeError>(e),
            Ok(_) => res == undefined_at(range),
        },
        _ => false,
    }
}

/// `(track-stats expression)`: evaluates the expression while counting calls,
/// then prints the counts.
pub fn track_stats<N: NumberSystem>(interpreter: &mut Interpreter<N>, range: SourceRange, operands: &[SourceValue]) -> (res: CallableResult)
    ensures
        final(interpreter).steps_left <= old(interpreter).steps_left,
        final(interpreter).source_mapper@ == old(interpreter).source_mapper@,
        final(interpreter).has_evaluated_library == old(interpreter).has_evaluated_library,
        res is Ok ==> stacks_kept(*old(interpreter), *final(interpreter)),
        operands@.len() != 1 ==> res == Err::<CallableSuccess, RuntimeError>(
            SourceMapped(RuntimeErrorType::WrongNumberOfArguments, range),
        ),
        res is Ok ==> res == undefined_at(range),
        operands@.len() == 1 ==> final(interpreter).tracked_stats is None,
        operands@.len() == 1 && old(interpreter).steps_left > 0 ==> final(interpreter).history@.len()
            == old(interpreter).history@.len() + 1 && stats_taken(final(interpreter).history@.last(), operands@[0], range, res),
    decreases old(interpreter).steps_left, 2int,
{
    ensure_operands_len(operands, 1, range)?;
    let repr = interpreter.repr(&operands[0].0, false);
    interpreter.start_tracking_stats();
    let result = eval_unary(interpreter, range, operands);
    let heading = concat(concat("Statistics for evaluation of ", blue(repr.as_str()).as_str()).as_str(), "\n");
    interpreter.printer.println(heading.as_str());
    if let Some(stats) = interpreter.take_tracked_stats() {
        let table = stats.as_table(&interpreter.string_interner);
        interpreter.printer.println(table.as_str());
    }
    result?;
    undefined(range)
}

} // verus!
