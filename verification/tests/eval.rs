use ascheme::bound_procedure::BoundProcedure;
use ascheme::builtin_procedure::{BuiltinProcedure, BuiltinProcedureFn, UnaryFn};
use ascheme::callable::CallableSuccess;
use ascheme::environment::Scope;
use ascheme::object_tracker::CycleBreaker;
use ascheme::pair::PairInner;
use ascheme::parser::ParseErrorType;
use ascheme::procedure::Procedure;
use ascheme::string_interner::InternedString;
use ascheme::tokenizer::TokenType;
use ascheme::tracked_stats::TrackedStats;
use ascheme::interpreter::{Interpreter, RuntimeErrorType};
use ascheme::number::{NumberSystem, NumericOp, NumericOutcome};
use ascheme::value::Value;

/// Scheme numbers as 64-bit floats, as the command-line interpreter has them.
struct Floats;

fn float(code: u64) -> f64 {
    f64::from_bits(code)
}

impl NumberSystem for Floats {
    fn parse_number(&self, text: &str) -> Option<u64> {
        text.parse::<f64>().ok().map(f64::to_bits)
    }

    fn number_to_string(&self, number: u64) -> String {
        format!("{}", float(number))
    }

    fn count_to_number(&self, count: usize) -> u64 {
        (count as f64).to_bits()
    }

    fn numbers_equal(&self, a: u64, b: u64) -> bool {
        float(a) == float(b)
    }

    fn compute(&self, op: NumericOp, operands: &[u64]) -> NumericOutcome {
        let numbers: Vec<f64> = operands.iter().map(|n| float(*n)).collect();
        let number = |x: f64| NumericOutcome::Number(x.to_bits());
        match op {
            NumericOp::Add => number(numbers.iter().fold(0.0, |a, b| a + b)),
            NumericOp::Multiply => number(numbers.iter().fold(1.0, |a, b| a * b)),
            NumericOp::Subtract => {
                if numbers.len() == 1 {
                    number(-numbers[0])
                } else {
                    number(numbers[1..].iter().fold(numbers[0], |a, b| a - b))
                }
            }
            NumericOp::Divide => {
                let (mut result, rest) = if numbers.len() == 1 {
                    (1.0, &numbers[..])
                } else {
                    (numbers[0], &numbers[1..])
                };
                for divisor in rest {
                    if *divisor == 0.0 {
                        return NumericOutcome::DivisionByZero;
                    }
                    result /= divisor;
                }
                number(result)
            }
            NumericOp::Sqrt => number(numbers[0].sqrt()),
            NumericOp::Remainder => number(numbers[0] % numbers[1]),
            NumericOp::LessThan => {
                NumericOutcome::Boolean(increasing(&numbers, f64::NEG_INFINITY, |n, latest| n <= latest))
            }
            NumericOp::LessThanOrEqualTo => {
                NumericOutcome::Boolean(increasing(&numbers, f64::NEG_INFINITY, |n, latest| n < latest))
            }
            NumericOp::GreaterThan => {
                NumericOutcome::Boolean(increasing(&numbers, f64::INFINITY, |n, latest| n >= latest))
            }
            NumericOp::GreaterThanOrEqualTo => {
                NumericOutcome::Boolean(increasing(&numbers, f64::INFINITY, |n, latest| n > latest))
            }
            NumericOp::NumericEq => NumericOutcome::Boolean(
                numbers.len() < 2 || numbers[1..].iter().all(|n| *n == numbers[0]),
            ),
        }
    }
}

/// Whether no number breaks the order, starting from `start`: `breaks` tells
/// whether a number breaks it after the previous one.
fn increasing(numbers: &[f64], start: f64, breaks: impl Fn(f64, f64) -> bool) -> bool {
    let mut latest = start;
    for &n in numbers {
        if breaks(n, latest) {
            return false;
        }
        latest = n;
    }
    true
}

fn test_eval_successes(code_and_expected_values: &[(&str, &str)]) {
    let mut interpreter = Interpreter::new(Floats);
    interpreter.printer.disable_autoflush = true;
    for (i, &(code, expected_value)) in code_and_expected_values.iter().enumerate() {
        let source_id = interpreter
            .source_mapper
            .add(format!("<code[{i}]>"), code.to_string());
        match interpreter.evaluate(source_id) {
            Ok(value) => {
                let value = match value.0 {
                    Value::Undefined => "".to_string(),
                    _ => interpreter.repr(&value.0, false),
                };
                let flushed = interpreter.printer.take_output();
    let output = flushed + &interpreter.printer.take_buffered_output();
                let final_value = format!("{output}{value}");
                assert_eq!(final_value, expected_value, "Evaluating code #{i} '{code}'");
            }
            Err(err) => {
                panic!(
                    "Evaluating code #{i} '{code}' raised error {:?}\n{}",
                    err.0,
                    interpreter.traceback()
                );
            }
        }
    }
}

fn test_eval_success(code: &'static str, expected_value: &'static str) {
    test_eval_successes(&[(code, expected_value)]);
}

fn test_eval_err(code: &'static str, expected_err: RuntimeErrorType) {
    let mut interpreter = Interpreter::new(Floats);
    let source_id = interpreter.source_mapper.add("<code>".to_string(), code.to_string());
    match interpreter.evaluate(source_id) {
        Ok(value) => {
            panic!(
                "Evaluating code '{code}' did not raise error and returned {}",
                interpreter.repr(&value.0, false)
            );
        }
        Err(err) => {
            assert_eq!(err.0, expected_err);
        }
    }
}

#[test]
fn let_works() {
        test_eval_success("(let ((x 1)) x)", "1");

        // From R5RS section 4.2.2.
        test_eval_success(
            "
            (let ((x 2) (y 3))
              (* x y))
            ",
            "6",
        );

        // From R5RS section 4.2.2.
        test_eval_success(
            "
            (let ((x 2) (y 3))
              (let ((x 7)
                    (z (+ x y)))
                (* z x)))
            ",
            "35",
        );
    }

#[test]
fn let_errors_on_bad_syntax() {
        test_eval_err("(let)", RuntimeErrorType::MalformedSpecialForm);
        test_eval_err("(let (x 1) x)", RuntimeErrorType::MalformedBindingList);
        test_eval_err("(let ((x 1 2)) x)", RuntimeErrorType::MalformedBindingList);
        test_eval_err("(let ((x 1)))", RuntimeErrorType::MalformedSpecialForm);
        test_eval_err("(let ((1 1)) x)", RuntimeErrorType::ExpectedIdentifier);
        test_eval_err(
            "(let ((x 1) (x 2)) x)",
            RuntimeErrorType::DuplicateVariableInBindings,
        );
    }

#[test]
fn let_star_works() {
        // Note that duplicates are OK!
        test_eval_success("(let* ((x 1) (x 2)) x)", "2");

        // From R5RS section 4.2.2.
        test_eval_success(
            "
            (let ((x 2) (y 3))
              (let* ((x 7)
                     (z (+ x y)))
                (* z x)))
            ",
            "70",
        );
    }

#[test]
fn let_star_errors_on_bad_syntax() {
        test_eval_err("(let*)", RuntimeErrorType::MalformedSpecialForm);
        test_eval_err("(let* (x 1) x)", RuntimeErrorType::MalformedBindingList);
        test_eval_err("(let* ((x 1 2)) x)", RuntimeErrorType::MalformedBindingList);
        test_eval_err("(let* ((x 1)))", RuntimeErrorType::MalformedSpecialForm);
        test_eval_err("(let* ((1 1)) x)", RuntimeErrorType::ExpectedIdentifier);
    }

#[test]
fn letrec_works() {
        // From R5RS section 4.2.2.
        test_eval_success(
            "
        (letrec ((even?
                  (lambda (n)
                    (if (zero? n)
                        #t
                        (odd? (- n 1)))))
                 (odd?
                  (lambda (n)
                    (if (zero? n)
                        #f
                        (even? (- n 1))))))
          (even? 88))
        ",
            "#t",
        )
    }

#[test]
fn letrec_errors_on_bad_syntax() {
        test_eval_err("(letrec)", RuntimeErrorType::MalformedSpecialForm);
        test_eval_err("(letrec (x 1) x)", RuntimeErrorType::MalformedBindingList);
        test_eval_err(
            "(letrec ((x 1 2)) x)",
            RuntimeErrorType::MalformedBindingList,
        );
        test_eval_err("(letrec ((x 1)))", RuntimeErrorType::MalformedSpecialForm);
        test_eval_err("(letrec ((1 1)) x)", RuntimeErrorType::ExpectedIdentifier);
        test_eval_err(
            "(letrec ((x 1) (x 2)) x)",
            RuntimeErrorType::DuplicateVariableInBindings,
        );
    }

#[test]
fn eq_works() {
        // From R5RS section 6.1.
        test_eval_success("(eq? (quote a) (quote a))", "#t");
        test_eval_success("(eq? (quote a) (quote b))", "#f");
        test_eval_success("(eq? (quote ()) (quote ()))", "#t");
        test_eval_success("(eq? + +)", "#t");
        test_eval_success("(eq? 2 2)", "#t");
        test_eval_success("(eq? 2 1)", "#f");
        test_eval_success("(define (x) (x)) (eq? x x)", "#t");
        test_eval_success("(eq? #t #f)", "#f");
        test_eval_success("(eq? #t #t)", "#t");
        test_eval_success("(eq? #f #f)", "#t");

        // Stuff specific to our implementation.
        test_eval_success("(eq? (quote (a)) (quote (a)))", "#f");
        test_eval_success("(eq? (quote (1 . 2)) (quote (1 . 2)))", "#f");
        test_eval_success("(define x (quote (a))) (eq? x x)", "#t");
        test_eval_success("(eq? (lambda (x) (x)) (lambda (x) (x)))", "#f");
    }

#[test]
fn eq_strings_work() {
        test_eval_success(r#"(eq? "blarg" "blarg")"#, "#f");
        test_eval_success(r#"(define x "blarg") (eq? x x)"#, "#t");
    }

#[test]
fn library_abs_works() {
        test_eval_success("(abs 1)", "1");
        test_eval_success("(abs -1)", "1");
        test_eval_success("(abs 0)", "0");
    }

#[test]
fn newline_works() {
        test_eval_success("(newline)", "\n");
    }

#[test]
fn zero_works() {
        test_eval_success("(zero? 0)", "#t");
        test_eval_success("(zero? 0.0)", "#t");
        test_eval_success("(zero? 1)", "#f");
    }

#[test]
fn null_works() {
        test_eval_success("(null? 0)", "#f");
        test_eval_success("(null? '())", "#t");
    }

#[test]
fn and_works() {
        test_eval_success("(and)", "#t");
        test_eval_success("(and 1)", "1");
        test_eval_success("(and 1 2)", "2");
        test_eval_success("(and #f 2)", "#f");
        test_eval_success("(and #f lololol)", "#f");
    }

#[test]
fn or_works() {
        test_eval_success("(or)", "#f");
        test_eval_success("(or 1)", "1");
        test_eval_success("(or 1 2)", "1");
        test_eval_success("(or #f 2)", "2");
        test_eval_success("(or 1 lololol)", "1");
    }

#[test]
fn not_works() {
        test_eval_success("(not #t)", "#f");
        test_eval_success("(not 0)", "#f");
        test_eval_success("(not #f)", "#t");
        test_eval_success("(not (= 3 1))", "#t");
    }

#[test]
fn basic_arithmetic_works() {
        // This is how try.scheme.org works, at least.
        test_eval_success("(+)", "0");
        test_eval_success("(*)", "1");

        test_eval_success("(+ 1 2)", "3");
        test_eval_success("(+ +1 2)", "3");
        test_eval_success("(+ -10 2)", "-8");
        test_eval_success("  (+ 1 2 (* 3 4)) ", "15");

        test_eval_success("(/ 2.0)", "0.5");
        test_eval_success("(/ 1.0 2.0)", "0.5");
        test_eval_success("(/ 1.0 2.0 2.0)", "0.25");
        test_eval_success("(/ 6 2)", "3");

        test_eval_success("(- 2)", "-2");
        test_eval_success("(- 5 2)", "3");
        test_eval_success("(- 5 2 1)", "2");
        test_eval_success("(- 5 2 10)", "-7");
    }

#[test]
fn remainder_works() {
        // From R5RS 6.2.5.
        test_eval_success("(remainder 13 4)", "1");
        test_eval_success("(remainder -13 4)", "-1");
        test_eval_success("(remainder 13 -4)", "1");
        test_eval_success("(remainder -13 -4)", "-1");
    }

#[test]
fn division_by_zero_raises_err() {
        test_eval_err("(/ 5 0)", RuntimeErrorType::DivisionByZero);
    }

#[test]
fn mod_quote_works() {
        test_eval_success("(quote 1)", "1");
        test_eval_success("(quote (1   2    3  ))", "(1 2 3)");
        test_eval_success("(quote (1 2 3 (4)))", "(1 2 3 (4))");
        test_eval_success("(quote #t)", "#t");
        test_eval_success("(quote #f)", "#f");
        test_eval_success("(quote ())", "()");
        test_eval_success("(quote blarg)", "blarg");

        test_eval_success("'1", "1");
        test_eval_success("'(1   2    3  )", "(1 2 3)");
        test_eval_success("'(1 2 3 (4))", "(1 2 3 (4))");
        test_eval_success("'#t", "#t");
        test_eval_success("'#f", "#f");
        test_eval_success("'()", "()");
        test_eval_success("'blarg", "blarg");
    }

#[test]
fn mod_cond_works() {
        test_eval_success("(cond (1))", "1");
        test_eval_success("(cond (0))", "0");
        test_eval_success("(cond (#f))", "");
        test_eval_success("(cond (1 2 3 4))", "4");
        test_eval_success("(cond (#f 1) (else (+ 1 1)))", "2");
        test_eval_success("(cond (1) (lolol))", "1");
    }

#[test]
fn mod_variable_definitions_work() {
        test_eval_success("(define x 3) x", "3");
        test_eval_success("(define x 3) (define y (+ x 1)) (+ x y)", "7");
        test_eval_success("(define x) x", "");
    }

#[test]
fn compound_procedure_definitions_with_fixed_args_work() {
        test_eval_success("(define (x) 3)", "");
        test_eval_success("(define (x) 3) (x)", "3");
        test_eval_success("(define (add-three n) (+ 3 n)) (add-three 1)", "4");
        test_eval_success(
            "(define x 9) (define (boop x y) (+ x y)) (boop 1 (+ x 1))",
            "11",
        );
    }

#[test]
fn compound_procedure_definitions_with_any_args_work() {
        test_eval_success("(define (n . z) z)", "");
        test_eval_success("(define (n . z) z) (n)", "()");
        test_eval_success("(define (n . z) z) (n 1 2)", "(1 2)");
    }

#[test]
fn compound_procedure_definitions_with_min_args_work() {
        test_eval_success("(define (n a . z) z) (n 1 2)", "(2)");
        test_eval_success("(define (n a . z) z) (n 1)", "()");
    }

#[test]
fn procedures_raise_wrong_number_of_args_errors() {
        test_eval_err("((lambda (x) x))", RuntimeErrorType::WrongNumberOfArguments);
        test_eval_err(
            "((lambda (x y . z) 1) 1)",
            RuntimeErrorType::WrongNumberOfArguments,
        );
        test_eval_err(
            "(define (x a) a) (x)",
            RuntimeErrorType::WrongNumberOfArguments,
        );
        test_eval_err(
            "(define (x a b . c) a) (x 1)",
            RuntimeErrorType::WrongNumberOfArguments,
        );
    }

#[test]
fn define_errors_on_duplicate_parameters() {
        test_eval_err("(define (foo x x) 3)", RuntimeErrorType::DuplicateParameter);
    }

#[test]
fn define_errors_on_no_body() {
        test_eval_err("(define (a))", RuntimeErrorType::MalformedSpecialForm);
    }

#[test]
fn lambda_fixed_arg_definitions_work() {
        test_eval_success("(define x (lambda () 3))", "");
        test_eval_success("(define x (lambda () 3)) (x)", "3");
        test_eval_success("(define add-three (lambda (n) (+ 3 n))) (add-three 1)", "4");
        test_eval_success(
            "(define x 9) (define boop (lambda (x y) (+ x y))) (boop 1 (+ x 1))",
            "11",
        );
    }

#[test]
fn lambda_any_arg_definitions_work() {
        test_eval_success("(define x (lambda n n))", "");
        test_eval_success("(define x (lambda n n)) (x)", "()");
        test_eval_success("(define x (lambda n n)) (x 1 2 3)", "(1 2 3)");
    }

#[test]
fn lambda_min_arg_definitions_work() {
        test_eval_success("(define x (lambda (n . z) n))", "");
        test_eval_success("(define x (lambda (n . z) n)) (x 5 4 3 2 1)", "5");
        test_eval_success("(define x (lambda (n . z) z)) (x 5 4 3 2 1)", "(4 3 2 1)");
    }

#[test]
fn lambda_errors_on_duplicate_parameters() {
        test_eval_err("(lambda (a a) 3)", RuntimeErrorType::DuplicateParameter);
    }

#[test]
fn lambda_errors_on_no_body() {
        test_eval_err("(lambda (a))", RuntimeErrorType::MalformedSpecialForm);
    }

#[test]
fn mod_set_works_with_globals() {
        test_eval_success("(define x 1) (set! x 2) x", "2");
        test_eval_success("(define x 1) (set! x (+ x 1)) x", "2");
    }

#[test]
fn mod_set_works_in_closures() {
        test_eval_successes(&[
            (
                "
                (define (make-incrementer)
                  (define n 0)
                  (lambda ()
                    (set! n (+ n 1))
                    n
                  )
                )
                (define foo (make-incrementer)) 
                (define bar (make-incrementer)) 
                ",
                "",
            ),
            ("(foo)", "1"),
            ("(foo)", "2"),
            ("(foo)", "3"),
            ("(bar)", "1"),
            ("(bar)", "2"),
        ]);
    }

#[test]
fn mod_if_works() {
        test_eval_success("(if #t 1)", "1");
        test_eval_success("(if #t 1 2)", "1");
        test_eval_success("(if #f 1 2)", "2");

        // R5RS section 4.1.5 says this behavior is unspecified, we'll just return undefined.
        test_eval_success("(if #f 1)", "");
    }

#[test]
fn mod_compound_procedues_prefer_argument_values_to_globals() {
        test_eval_success(
            "
            (define n 5)
            (define (add-three n) (+ 3 n))
            (+ (add-three 1) n)
        ",
            "9",
        );
    }

#[test]
fn mod_compound_procedues_use_lexical_scope() {
        test_eval_success(
            "
            (define (make-adder n)
              (define (add-n x) (+ x n))
              add-n
            )
            (define add-three (make-adder 3))
            (add-three 1)
        ",
            "4",
        );
    }

#[test]
fn display_works() {
        test_eval_success(r#"(display "boop")"#, "boop");
        test_eval_success(r#"(display '("boop"))"#, "(boop)");
        test_eval_success(r#"(display 1)"#, "1");
    }

#[test]
fn begin_works() {
        test_eval_success("(begin)", "");
        test_eval_success("(begin 1)", "1");
        test_eval_success("(begin 1 2)", "2");
        test_eval_success("(begin (+ 1 2))", "3");
    }

#[test]
fn apply_works() {
        // From R5RS 6.4.
        test_eval_success("(apply + (list 3 4))", "7");

        // From R5RS 6.4.
        test_eval_success(
            "
            (define compose
                (lambda (f g)
                  (lambda args
                    (f (apply g args)))))
            ((compose sqrt *) 12 75)
            ",
            "30",
        );

        test_eval_success("(apply + '())", "0");
    }

#[test]
fn assert_does_nothing_when_operand_is_true() {
        test_eval_success("(assert #t)", "");
        test_eval_success("(assert (+ 0 0))", "");
    }

#[test]
fn assert_errors_when_operand_is_false() {
        test_eval_err("(assert #f)", RuntimeErrorType::AssertionFailure);
    }

#[test]
fn less_than_works() {
        test_eval_success("(<)", "#t");
        test_eval_success("(< 1)", "#t");
        test_eval_success("(< 1 0)", "#f");
        test_eval_success("(< 0 1)", "#t");
        test_eval_success("(< 1 1)", "#f");
        test_eval_success("(< 0 1 2)", "#t");
        test_eval_success("(< 0 1 2 3 1)", "#f");
    }

#[test]
fn less_than_or_equal_to_works() {
        test_eval_success("(<=)", "#t");
        test_eval_success("(<= 1)", "#t");
        test_eval_success("(<= 1 0)", "#f");
        test_eval_success("(<= 0 1)", "#t");
        test_eval_success("(<= 1 1)", "#t");
        test_eval_success("(<= 0 1 2)", "#t");
        test_eval_success("(<= 0 1 2 3 1)", "#f");
        test_eval_success("(<= 0 1 1 1 1)", "#t");
    }

#[test]
fn greater_than_works() {
        test_eval_success("(>)", "#t");
        test_eval_success("(> 1)", "#t");
        test_eval_success("(> 1 0)", "#t");
        test_eval_success("(> 0 1)", "#f");
        test_eval_success("(> 1 1)", "#f");
        test_eval_success("(> 2 1 0)", "#t");
        test_eval_success("(< 3 2 1 0 1)", "#f");
    }

#[test]
fn greater_than_or_equal_to_works() {
        test_eval_success("(>=)", "#t");
        test_eval_success("(>= 1)", "#t");
        test_eval_success("(>= 1 0)", "#t");
        test_eval_success("(>= 0 1)", "#f");
        test_eval_success("(>= 1 1)", "#t");
        test_eval_success("(>= 2 1 0)", "#t");
        test_eval_success("(<= 3 2 1 0 1)", "#f");
        test_eval_success("(>= 2 1 1 1 1)", "#t");
    }

#[test]
fn numeric_eq_works() {
        test_eval_success("(=)", "#t");
        test_eval_success("(= 1)", "#t");
        test_eval_success("(= 1 0)", "#f");
        test_eval_success("(= 1 1)", "#t");
        test_eval_success("(= 1 1 1)", "#t");
        test_eval_success("(= 1 2 3 4)", "#f");
    }

#[test]
fn pair_set_car_works() {
        test_eval_success("(define a (quote (1 . 2))) (set-car! a 5) a", "(5 . 2)");
    }

#[test]
fn pair_set_cdr_works() {
        test_eval_success("(define a (quote (1 . 2))) (set-cdr! a 5) a", "(1 . 5)");
    }

#[test]
fn cons_works() {
        test_eval_success("(cons 1 2)", "(1 . 2)");
        test_eval_success("(cons 1 '())", "(1)");
    }

#[test]
fn car_works() {
        test_eval_success("(car '(1 . 2))", "1");
    }

#[test]
fn cdr_works() {
        test_eval_success("(cdr '(1 . 2))", "2");
    }

#[test]
fn list_works() {
        test_eval_success("(list)", "()");
        test_eval_success("(list 1 2 3)", "(1 2 3)");
        test_eval_success("(list (+ 1 2))", "(3)");
    }

#[test]
fn pair_works() {
        test_eval_success("(pair? 1)", "#f");
        test_eval_success("(pair? '())", "#f");
        test_eval_success("(pair? '(1 . 2))", "#t");
        test_eval_success("(pair? '(1 2))", "#t");
    }

#[test]
fn interpreter_trivial_expressions_work() {
        test_eval_success("5", "5");
    }

#[test]
fn interpreter_dot_works() {
        test_eval_success("(quote (1 . ()))", "(1)");
        test_eval_success("(quote (1 . (2 . (3 . ()))))", "(1 2 3)");
        test_eval_success("(quote (1 . 2))", "(1 . 2)");
        test_eval_success("(quote (1 2 . 3))", "(1 2 . 3)");
    }

#[test]
fn interpreter_booleans_work() {
        test_eval_success("#t", "#t");
        test_eval_success("#f", "#f");
    }

#[test]
fn undefined_works() {
        test_eval_success("#!void", "");
    }

#[test]
fn interpreter_cyclic_lists_work() {
        // TODO: Eventually we should implement proper display of cyclic lists, at which point
        // the expected values will need to change.
        test_eval_success("(define x '(1 . 2)) (set-cdr! x x) x", "<CYCLIC LIST>");
        test_eval_success(
            "(define y '(1)) (define x '(1)) (set-car! y x) (set-car! x y) x",
            "<CYCLIC LIST>",
        );
    }

#[test]
fn interpreter_gc_finds_cycles() {
        // These print 0 because there aren't any objects trapped in cycles--regular ref-counting
        // will clean up the data.
        test_eval_success("(gc)", "0");
        test_eval_success("(define (x n) (+ n 1)) (gc)", "0");
        test_eval_success("(define (x n) (+ n 1)) (define x 0) (gc)", "0");

        // This prints 1 because an object is caught in a cycle.
        test_eval_success(
            "(define x (quote (1 . 2))) (set-cdr! x x) (define x 0) (gc)",
            "1",
        );
    }

#[test]
fn interpreter_gc_does_not_collect_objects_yet_to_be_evaluated() {
        test_eval_success("(define (x) 1) (gc) (x)", "1");
    }

#[test]
fn interpreter_strings_work() {
        test_eval_success(r#""blarg""#, r#""blarg""#);
        test_eval_success(r#""bl\narg""#, r#""bl\narg""#);
        test_eval_success(r#""bl\"arg""#, r#""bl\"arg""#);
        test_eval_success(r#""bl\\arg""#, r#""bl\\arg""#);
    }

#[test]
fn interpreter_undefined_stringifies() {
        test_eval_success(
            "
        (define y 1)
        (define x '(1))
        (set-car! x (set! y 2))
        x
        ",
            "(#!void)",
        )
    }

#[test]
fn interpreter_tests_trivial_expressions_work() {
    test_eval_success("5", "5");
}

#[test]
fn interpreter_tests_quote_works() {
    test_eval_success("(quote 1)", "1");
    test_eval_success("(quote (1   2    3  ))", "(1 2 3)");
    test_eval_success("(quote (1 2 3 (4)))", "(1 2 3 (4))");
    test_eval_success("(quote #t)", "#t");
    test_eval_success("(quote #f)", "#f");
    test_eval_success("(quote ())", "()");
    test_eval_success("(quote blarg)", "blarg");

    test_eval_success("'1", "1");
    test_eval_success("'(1   2    3  )", "(1 2 3)");
    test_eval_success("'(1 2 3 (4))", "(1 2 3 (4))");
    test_eval_success("'#t", "#t");
    test_eval_success("'#f", "#f");
    test_eval_success("'()", "()");
    test_eval_success("'blarg", "blarg");
}

#[test]
fn interpreter_tests_set_car_works() {
    test_eval_success("(define a (quote (1 . 2))) (set-car! a 5) a", "(5 . 2)");
}

#[test]
fn interpreter_tests_set_cdr_works() {
    test_eval_success("(define a (quote (1 . 2))) (set-cdr! a 5) a", "(1 . 5)");
}

#[test]
fn interpreter_tests_dot_works() {
    test_eval_success("(quote (1 . ()))", "(1)");
    test_eval_success("(quote (1 . (2 . (3 . ()))))", "(1 2 3)");
    test_eval_success("(quote (1 . 2))", "(1 . 2)");
    test_eval_success("(quote (1 2 . 3))", "(1 2 . 3)");
}

#[test]
fn interpreter_tests_cond_works() {
    test_eval_success("(cond (1))", "1");
    test_eval_success("(cond (0))", "0");
    test_eval_success("(cond (#f))", "");
    test_eval_success("(cond (1 2 3 4))", "4");
    test_eval_success("(cond (#f 1) (else (+ 1 1)))", "2");
    test_eval_success("(cond (1) (lolol))", "1");
}

#[test]
fn interpreter_tests_variable_definitions_work() {
    test_eval_success("(define x 3) x", "3");
    test_eval_success("(define x 3) (define y (+ x 1)) (+ x y)", "7");
}

#[test]
fn compound_procedure_definitions_work() {
    test_eval_success("(define (x) 3)", "");
    test_eval_success("(define (x) 3) (x)", "3");
    test_eval_success("(define (add-three n) (+ 3 n)) (add-three 1)", "4");
}

#[test]
fn lambda_definitions_work() {
    test_eval_success("(define x (lambda () 3))", "");
    test_eval_success("(define x (lambda () 3)) (x)", "3");
    test_eval_success("(define add-three (lambda (n) (+ 3 n))) (add-three 1)", "4");
}

#[test]
fn interpreter_tests_booleans_work() {
    test_eval_success("#t", "#t");
    test_eval_success("#f", "#f");
}

#[test]
fn interpreter_tests_cyclic_lists_work() {
    // TODO: Eventually we should implement proper display of cyclic lists, at which point
    // the expected values will need to change.
    test_eval_success("(define x '(1 . 2)) (set-cdr! x x) x", "<CYCLIC LIST>");
    test_eval_success(
        "(define y '(1)) (define x '(1)) (set-car! y x) (set-car! x y) x",
        "<CYCLIC LIST>",
    );
}

#[test]
fn interpreter_tests_gc_finds_cycles() {
    // These print 0 because there aren't any objects trapped in cycles--regular ref-counting
    // will clean up the data.
    test_eval_success("(gc)", "0");
    test_eval_success("(define (x n) (+ n 1)) (gc)", "0");
    test_eval_success("(define (x n) (+ n 1)) (define x 0) (gc)", "0");

    // This prints 1 because an object is caught in a cycle.
    test_eval_success(
        "(define x (quote (1 . 2))) (set-cdr! x x) (define x 0) (gc)",
        "1",
    );
}

#[test]
fn interpreter_tests_gc_does_not_collect_objects_yet_to_be_evaluated() {
    test_eval_success("(define (x) 1) (gc) (x)", "1");
}

#[test]
fn interpreter_tests_set_works_with_globals() {
    test_eval_success("(define x 1) (set! x 2) x", "2");
    test_eval_success("(define x 1) (set! x (+ x 1)) x", "2");
}

#[test]
fn interpreter_tests_set_works_in_closures() {
    test_eval_successes(&[
        (
            "
            (define (make-incrementer)
              (define n 0)
              (lambda ()
                (set! n (+ n 1))
                n
              )
            )
            (define foo (make-incrementer)) 
            (define bar (make-incrementer)) 
            ",
            "",
        ),
        ("(foo)", "1"),
        ("(foo)", "2"),
        ("(foo)", "3"),
        ("(bar)", "1"),
        ("(bar)", "2"),
    ]);
}

#[test]
fn interpreter_tests_if_works() {
    test_eval_success("(if #t 1)", "1");
    test_eval_success("(if #t 1 2)", "1");
    test_eval_success("(if #f 1 2)", "2");

    // R5RS section 4.1.5 says this behavior is unspecified, we'll just return undefined.
    test_eval_success("(if #f 1)", "");
}

#[test]
fn interpreter_tests_compound_procedues_prefer_argument_values_to_globals() {
    test_eval_success(
        "
        (define n 5)
        (define (add-three n) (+ 3 n))
        (+ (add-three 1) n)
    ",
        "9",
    );
}

#[test]
fn interpreter_tests_compound_procedues_use_lexical_scope() {
    test_eval_success(
        "
        (define (make-adder n)
          (define (add-n x) (+ x n))
          add-n
        )
        (define add-three (make-adder 3))
        (add-three 1)
    ",
        "4",
    );
}

#[test]
fn interpreter_tests_strings_work() {
    test_eval_success(r#""blarg""#, r#""blarg""#);
    test_eval_success(r#""bl\narg""#, r#""bl\narg""#);
    test_eval_success(r#""bl\"arg""#, r#""bl\"arg""#);
    test_eval_success(r#""bl\\arg""#, r#""bl\\arg""#);
}

#[test]
fn interpreter_tests_undefined_stringifies() {
    test_eval_success(
        "
    (define y 1)
    (define x '(1))
    (set-car! x (set! y 2))
    x
    ",
        "(#!void)",
    )
}

#[test]
fn library_tests_abs_works() {
    test_eval_success("(abs 1)", "1");
    test_eval_success("(abs -1)", "1");
    test_eval_success("(abs 0)", "0");
}

fn eval_err_range(code: &'static str) -> (RuntimeErrorType, (usize, usize)) {
    let mut interpreter = Interpreter::new(Floats);
    let source_id = interpreter.source_mapper.add("<code>".to_string(), code.to_string());
    match interpreter.evaluate(source_id) {
        Ok(_) => panic!("Evaluating code '{code}' did not raise error"),
        Err(err) => (err.0, (err.1 .0, err.1 .1)),
    }
}

#[test]
fn every_error_variant_is_raised() {
    test_eval_err("(", RuntimeErrorType::Parse(ascheme::parser::ParseErrorType::MissingRightParen));
    test_eval_err(")", RuntimeErrorType::Parse(ascheme::parser::ParseErrorType::Unexpected(ascheme::tokenizer::TokenType::RightParen)));
    test_eval_err("\"abc", RuntimeErrorType::Parse(ascheme::parser::ParseErrorType::Tokenize(ascheme::tokenizer::TokenizeErrorType::UnterminatedString)));
    test_eval_err("()", RuntimeErrorType::MalformedExpression);
    test_eval_err("(1 2)", RuntimeErrorType::ExpectedCallable);
    test_eval_err("(+ 1 'a)", RuntimeErrorType::ExpectedNumber);
    test_eval_err("(apply 1 '())", RuntimeErrorType::ExpectedProcedure);
    test_eval_err("(car 1)", RuntimeErrorType::ExpectedPair);
    test_eval_err("(apply + 1)", RuntimeErrorType::ExpectedList);
    test_eval_err("(set! 1 2)", RuntimeErrorType::ExpectedIdentifier);
    test_eval_err("(define (f) (+ 1 (f))) (f)", RuntimeErrorType::StackOverflow);
    test_eval_err("(if 1)", RuntimeErrorType::MalformedSpecialForm);
    test_eval_err("(car 1 2)", RuntimeErrorType::WrongNumberOfArguments);
}

#[test]
fn unbound_variables_are_reported_where_they_are() {
    let (err, range) = eval_err_range("(+ 1 undefined-name)");
    assert!(matches!(err, RuntimeErrorType::UnboundVariable(_)));
    assert_eq!(range, (5, 19));
}

#[test]
fn set_of_an_unbound_variable_fails() {
    let (err, range) = eval_err_range("(set! nope 1)");
    assert!(matches!(err, RuntimeErrorType::UnboundVariable(_)));
    assert_eq!(range, (6, 10));
}

#[test]
fn evaluation_stops_when_no_steps_are_left() {
    let mut interpreter = Interpreter::new(Floats);
    let library = interpreter.source_mapper.add("<warm-up>".to_string(), "1".to_string());
    interpreter.evaluate(library).unwrap();
    interpreter.steps_left = 50;
    let source_id = interpreter
        .source_mapper
        .add("<code>".to_string(), "(define (loop) (loop)) (loop)".to_string());
    let err = interpreter.evaluate(source_id).unwrap_err();
    assert_eq!(err.0, RuntimeErrorType::EvaluationLimit);
}

#[test]
fn keyboard_interrupts_stop_evaluation() {
    let mut interpreter = Interpreter::new(Floats);
    let (tx, rx) = std::sync::mpsc::channel();
    interpreter.keyboard_interrupt_channel = Some(rx);
    tx.send(()).unwrap();
    let source_id = interpreter.source_mapper.add("<code>".to_string(), "(+ 1 2)".to_string());
    let err = interpreter.evaluate(source_id).unwrap_err();
    assert_eq!(err.0, RuntimeErrorType::KeyboardInterrupt);
}

#[test]
fn tail_calls_do_not_grow_the_stack() {
    test_eval_success(
        "(define (count n) (if (= n 0) 'done (count (- n 1)))) (count 1000)",
        "done",
    );
}

#[test]
fn a_successful_evaluation_leaves_no_traceback() {
    let mut interpreter = Interpreter::new(Floats);
    let source_id = interpreter
        .source_mapper
        .add("<code>".to_string(), "(define (f x) (let ((y x)) (* y 2))) (f 21)".to_string());
    let value = interpreter.evaluate(source_id).unwrap();
    assert_eq!(interpreter.repr(&value.0, false), "42");
    assert_eq!(interpreter.traceback(), "");
}

#[test]
fn errors_are_reported_with_a_traceback() {
    let mut interpreter = Interpreter::new(Floats);
    let source_id = interpreter
        .source_mapper
        .add("boom.sch".to_string(), "(define (f) (+ 1 (car 'x)))\n(f)".to_string());
    let err = interpreter.evaluate(source_id).unwrap_err();
    let report = interpreter.show_err_and_traceback(err);
    assert!(report.starts_with("Error: ExpectedPair in \"boom.sch\", line 1:"), "{report}");
    assert!(report.contains("Traceback (excluding tail calls, most recent call last):"), "{report}");
    assert!(report.contains("\"boom.sch\", line 2:"), "{report}");
}

#[test]
fn parameters_are_bound_to_operands() {
    test_eval_success("(define (f a b . c) (list a b c)) (f 1 2 3 4)", "(1 2 (3 4))");
    test_eval_success("(define (g . all) all) (g 1 2)", "(1 2)");
}

#[test]
fn define_in_a_scope_does_not_change_the_global() {
    test_eval_success("(define x 1) (define (f) (define x 2) x) (f)", "2");
    test_eval_success("(define x 1) (define (f) (define x 2) x) (f) x", "1");
}

#[test]
fn display_prints_strings_without_quotes() {
    test_eval_success(r#"(display "a\nb")"#, "a\nb");
    test_eval_success(r#""a\nb""#, r#""a\nb""#);
}

#[test]
fn printed_values_are_written_as_the_repl_shows_them() {
    test_eval_success("+", "#<builtin procedure +>");
    test_eval_success("if", "#<special form if>");
    test_eval_success("(define (f) 1) f", "#<procedure f #5>");
    test_eval_success("(lambda () 1)", "#<procedure #5>");
    test_eval_success("'(a (b . c) \"d\")", "(a (b . c) \"d\")");
}

#[test]
fn gc_counts_scopes_held_by_cycles() {
    test_eval_success(
        "(define (make) (define (inner) 1) inner) (define f (make)) (define f 0) (gc)",
        "1",
    );
}

#[test]
fn gc_keeps_what_is_reachable() {
    test_eval_success(
        "(define x (list 1 2 3)) (set-cdr! (cdr (cdr x)) x) (gc) (car (cdr x))",
        "2",
    );
}

#[test]
fn gc_is_refused_inside_a_call() {
    test_eval_success(
        "(define (f) (gc)) (define (g) (+ 0 (f))) (+ 0 (g))",
        "Cannot currently collect garbage when call stack is non-empty.\n0",
    );
}

#[test]
fn test_eq_and_test_repr_report_their_result() {
    let mut interpreter = Interpreter::new(Floats);
    interpreter.printer.disable_autoflush = true;
    let source_id = interpreter
        .source_mapper
        .add("<code>".to_string(), "(test-eq 1 1) (test-repr (+ 1 1) 3)".to_string());
    interpreter.evaluate(source_id).unwrap();
    let flushed = interpreter.printer.take_output();
    let output = flushed + &interpreter.printer.take_buffered_output();
    assert!(output.contains("OK"), "{output}");
    assert!(output.contains(" 1 = 1\n"), "{output}");
    assert!(output.contains("ERR"), "{output}");
    assert!(output.contains(" (+ 1 1) = 2 \u{2260} 3\n"), "{output}");
}

#[test]
fn rust_backtrace_evaluates_its_operands() {
    let mut interpreter = Interpreter::new(Floats);
    interpreter.printer.disable_autoflush = true;
    let source_id = interpreter
        .source_mapper
        .add("<code>".to_string(), "(rust-backtrace 1 2)".to_string());
    let value = interpreter.evaluate(source_id).unwrap();
    assert_eq!(interpreter.repr(&value.0, false), "2");
    let flushed = interpreter.printer.take_output();
    let output = flushed + &interpreter.printer.take_buffered_output();
    assert!(output.starts_with("Rust backtrace at \"<code>\", line 1:"), "{output}");
}

#[test]
fn track_stats_prints_a_table() {
    let mut interpreter = Interpreter::new(Floats);
    interpreter.printer.disable_autoflush = true;
    let source_id = interpreter.source_mapper.add(
        "<code>".to_string(),
        "(define (f n) (if (= n 0) 0 (f (- n 1)))) (track-stats (f 3))".to_string(),
    );
    interpreter.evaluate(source_id).unwrap();
    let flushed = interpreter.printer.take_output();
    let output = flushed + &interpreter.printer.take_buffered_output();
    assert!(output.contains("Name"), "{output}");
    assert!(output.contains("Maximum call stack depth: "), "{output}");
    let f_row = output.lines().find(|l| l.starts_with("f ")).expect("a row for f");
    let cells: Vec<&str> = f_row.split_whitespace().collect();
    assert_eq!(cells, vec!["f", "1", "3"]);
}

#[test]
fn print_and_eval_prints_each_expression_and_value() {
    let mut interpreter = Interpreter::new(Floats);
    interpreter.printer.disable_autoflush = true;
    let source_id = interpreter
        .source_mapper
        .add("<code>".to_string(), "(print-and-eval (+ 1 2) 'a)".to_string());
    interpreter.evaluate(source_id).unwrap();
    let flushed = interpreter.printer.take_output();
    let output = flushed + &interpreter.printer.take_buffered_output();
    assert!(output.contains("(+ 1 2)"), "{output}");
    assert!(output.contains(" = 3, "), "{output}");
    assert!(output.ends_with(" = a\n"), "{output}");
}

#[test]
fn stats_prints_object_counts() {
    let mut interpreter = Interpreter::new(Floats);
    interpreter.printer.disable_autoflush = true;
    let source_id = interpreter.source_mapper.add("<code>".to_string(), "(stats)".to_string());
    interpreter.evaluate(source_id).unwrap();
    let flushed = interpreter.printer.take_output();
    let output = flushed + &interpreter.printer.take_buffered_output();
    assert!(output.starts_with("Pairs: "), "{output}");
    assert!(output.contains(" allocated, "), "{output}");
    assert!(output.contains("Lexical scopes: "), "{output}");
}

#[test]
fn tail_position_binds_a_call_without_making_it() {
    let mut interpreter = Interpreter::new(Floats);
    let definitions = interpreter
        .source_mapper
        .add("<definitions>".to_string(), "(define (f x) x) (define y 5)".to_string());
    interpreter.evaluate(definitions).unwrap();
    let call = interpreter.source_mapper.add("<call>".to_string(), "(f y)".to_string());
    let expressions = interpreter.parse(call).unwrap();
    // With no room left on the call stack, a call in tail position is still
    // bound, since making it is left to the caller; a call elsewhere fails.
    interpreter.max_stack_size = 0;
    match interpreter.eval_expression_in_tail_context(&expressions[0]) {
        Ok(CallableSuccess::TailCall(context)) => {
            let operands = &context.bound_procedure.operands;
            assert_eq!(operands.len(), 1);
            assert_eq!(interpreter.repr(&operands[0].0, false), "5");
            assert_eq!(context.bound_procedure.range, expressions[0].1);
        }
        _ => panic!("expected a tail call"),
    }
    assert_eq!(interpreter.stack.len(), 0);
    match interpreter.eval_expression(&expressions[0]) {
        Err(err) => assert_eq!(err.0, RuntimeErrorType::StackOverflow),
        Ok(_) => panic!("expected a stack overflow"),
    }
}

#[test]
fn test_file_works() {
    let mut interpreter = Interpreter::new(Floats);
    interpreter.printer.disable_autoflush = true;
    let code = "
        (test-eq (abs -3) 3)
        (test-eq (abs 2) 2)
        (test-eq (zero? 0) #t)
        (test-eq (zero? 5) #f)
        (test-eq (null? '()) #t)
        (test-eq (null? (list 1)) #f)
    ";
    let source_id = interpreter
        .source_mapper
        .add("library.test.sch".to_string(), code.to_string());
    match interpreter.evaluate(source_id) {
        Ok(_) => assert_eq!(
            interpreter.failed_tests, 0,
            "Evaluating the library tests should not fail any tests."
        ),
        Err(err) => panic!("Evaluating the library tests raised error {:?}", err.0),
    }
}

#[test]
fn parse_reads_a_dotted_list_with_the_range_of_its_closing_parenthesis() {
    let mut interpreter = Interpreter::new(Floats);
    let id = interpreter.source_mapper.add("<code>".to_string(), "(a b . c)".to_string());
    let values = interpreter.parse(id).unwrap();
    assert_eq!(values.len(), 1);
    assert_eq!(values[0].1 .0, 8);
    assert_eq!(values[0].1 .1, 9);
    assert_eq!(interpreter.repr(&values[0].0, false), "(a b . c)");
}

#[test]
fn evaluating_a_source_gives_its_last_value_or_its_parse_error() {
    let mut interpreter = Interpreter::new(Floats);
    let empty = interpreter.source_mapper.add("<empty>".to_string(), "".to_string());
    let value = interpreter.evaluate_source_id(empty).unwrap();
    assert!(matches!(value.0, Value::Undefined));
    let truth = interpreter.source_mapper.add("<truth>".to_string(), "#t".to_string());
    let value = interpreter.evaluate_source_id(truth).unwrap();
    assert!(matches!(value.0, Value::Boolean(true)));
    let broken = interpreter.source_mapper.add("<broken>".to_string(), ")".to_string());
    match interpreter.evaluate_source_id(broken) {
        Err(err) => assert_eq!(err.0, RuntimeErrorType::Parse(ParseErrorType::Unexpected(TokenType::RightParen))),
        Ok(_) => panic!("expected a parse error"),
    }
}

#[test]
fn traceback_lists_the_calls_under_way() {
    let mut interpreter = Interpreter::new(Floats);
    assert_eq!(interpreter.traceback(), "");
    let id = interpreter
        .source_mapper
        .add("<code>".to_string(), "(define (f) (+ 0 (kaboom))) (+ 0 (f))".to_string());
    assert!(interpreter.evaluate(id).is_err());
    let text = interpreter.traceback();
    let lines: Vec<&str> = text.lines().collect();
    assert_eq!(lines[0], "Traceback (excluding tail calls, most recent call last):");
    assert!(lines.len() > 1);
    assert!(lines[1..].iter().all(|l| l.starts_with("  ")), "{text}");
}

#[test]
fn global_matches_are_the_global_names_with_the_prefix() {
    let interpreter = Interpreter::new(Floats);
    let matches = interpreter
        .environment
        .find_global_matches("ca", &interpreter.string_interner);
    assert!(matches.contains(&"car".to_string()));
    assert!(matches.iter().all(|m| m.starts_with("ca")));
    assert!(!matches.contains(&"cdr".to_string()));
}

#[test]
fn print_and_eval_of_nothing_prints_nothing() {
    let mut interpreter = Interpreter::new(Floats);
    interpreter.printer.disable_autoflush = true;
    let id = interpreter.source_mapper.add("<code>".to_string(), "(print-and-eval)".to_string());
    interpreter.evaluate(id).unwrap();
    let flushed = interpreter.printer.take_output();
    let output = flushed + &interpreter.printer.take_buffered_output();
    assert_eq!(output, "");
}

#[test]
fn tracked_stats_count_calls_and_tail_calls_per_name() {
    let mut stats = TrackedStats::new();
    let f = InternedString(7);
    let g = InternedString(9);
    stats.track_call(Some(f));
    stats.track_call(Some(f));
    stats.track_tail_call(Some(f));
    stats.track_tail_call(Some(g));
    stats.track_call(None);
    assert_eq!(stats.callable_calls.len(), 2);
    let (name, f_stats) = stats.callable_calls[0];
    assert_eq!(name, f);
    assert_eq!((f_stats.calls, f_stats.tail_calls), (2, 1));
    let (name, g_stats) = stats.callable_calls[1];
    assert_eq!(name, g);
    assert_eq!((g_stats.calls, g_stats.tail_calls), (0, 1));
}

#[test]
fn tracked_objects_are_named_by_kind() {
    let scope = Scope { parent: None, bindings: Vec::new(), range: (0, 0, None) };
    assert_eq!(scope.debug_name(), "Scope");
    let undefined = Value::Undefined.into_source_value();
    let pair = PairInner { car: undefined, cdr: undefined };
    assert_eq!(pair.debug_name(), "Pair");
}

#[test]
fn calling_car_on_a_value_that_is_not_a_pair_fails() {
    let mut interpreter = Interpreter::new(Floats);
    let bound = BoundProcedure {
        procedure: Procedure::Builtin(BuiltinProcedure {
            func: BuiltinProcedureFn::Unary(UnaryFn::Car),
            name: InternedString(0),
        }),
        operands: vec![Value::Boolean(true).into_source_value()],
        range: (1, 2, None),
    };
    match interpreter.call_bound(bound) {
        Err(err) => assert_eq!(err.0, RuntimeErrorType::ExpectedPair),
        Ok(_) => panic!("expected an error"),
    }
}

fn parse_error_of(code: &str) -> (ParseErrorType, (usize, usize)) {
    let mut interpreter = Interpreter::new(Floats);
    let id = interpreter.source_mapper.add("<code>".to_string(), code.to_string());
    match interpreter.parse(id) {
        Err(e) => (e.0, (e.1 .0, e.1 .1)),
        Ok(_) => panic!("expected a parse error for {code}"),
    }
}

#[test]
fn parse_errors_are_those_that_reading_gives() {
    assert_eq!(parse_error_of("(. 1)"), (ParseErrorType::Unexpected(TokenType::Dot), (1, 2)));
    assert_eq!(parse_error_of("(1 . 2 3)"), (ParseErrorType::Expected(TokenType::RightParen), (7, 8)));
    assert_eq!(parse_error_of("(1 2"), (ParseErrorType::MissingRightParen, (0, 1)));
    assert_eq!(parse_error_of("("), (ParseErrorType::MissingRightParen, (0, 1)));
}

#[test]
fn a_procedure_definition_needs_a_body() {
    test_eval_err("(define (a))", RuntimeErrorType::MalformedSpecialForm);
    test_eval_err("(define (1) 2)", RuntimeErrorType::ExpectedIdentifier);
    test_eval_success("(define (a x) x) (a 5)", "5");
}

#[test]
fn calling_a_builtin_on_atoms_gives_its_outcome() {
    test_eval_err("(car 5)", RuntimeErrorType::ExpectedPair);
    test_eval_success("(define x (list 1 2)) (pair? x)", "#t");
    test_eval_success("(define (f) 7) (f)", "7");
}

#[test]
fn whitespace_is_what_unicode_says() {
    for c in (0u32..0x11000).filter_map(char::from_u32) {
        assert_eq!(ascheme::text::is_whitespace(c), c.is_whitespace(), "{:?}", c);
    }
    for c in [' ', '\t', '\n', '\u{3000}', '\u{85}', '\u{2029}'] {
        assert!(ascheme::text::is_whitespace(c));
    }
}
