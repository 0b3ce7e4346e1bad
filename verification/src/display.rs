use vstd::prelude::*;

use crate::callable::Callable;
use crate::interpreter::{Interpreter, RuntimeError, RuntimeErrorType};
use crate::parser::ParseErrorType;
use crate::tokenizer::{TokenType, TokenizeErrorType};
use crate::mutable_string::StringStore;
use crate::number::NumberSystem;
use crate::pair::{is_chain, shares_structure, PairHeap, VecPair};
use crate::procedure::Procedure;
use crate::string_interner::{InternedString, StringInterner};
use crate::text::{concat, decimal, spec_debug_repr, usize_to_string};
use crate::value::{SourceValue, Value};

verus! {

/// The text of a symbol, or nothing for a symbol the interner does not hold.
pub open spec fn name_text(interner: Seq<Seq<char>>, name: InternedString) -> Seq<char> {
    if 0 <= name.id() < interner.len() {
        interner[name.id()]
    } else {
        Seq::empty()
    }
}

/// The text of a string object, or nothing for one the store does not hold.
pub open spec fn string_text(strings: Seq<Seq<char>>, index: usize) -> Seq<char> {
    if index < strings.len() {
        strings[index as int]
    } else {
        Seq::empty()
    }
}

/// How a value other than a number or a pair is written, as a REPL shows it
/// or, when `alternate` is set, as `display` shows it (strings without quotes
/// or escapes).
pub open spec fn atom_repr(interner: Seq<Seq<char>>, strings: Seq<Seq<char>>, v: Value, alternate: bool) -> Option<Seq<char>> {
    match v {
        Value::Undefined => Some("#!void"@),
        Value::EmptyList => Some("()"@),
        Value::Boolean(b) => Some(if b { "#t"@ } else { "#f"@ }),
        Value::Symbol(name) => Some(name_text(interner, name)),
        Value::String(s) => Some(
            if alternate {
                string_text(strings, s.0)
            } else {
                spec_debug_repr(string_text(strings, s.0))
            },
        ),
        Value::Callable(Callable::SpecialForm(f)) => Some("#<special form "@ + name_text(interner, f.name) + ">"@),
        Value::Callable(Callable::Procedure(Procedure::Builtin(b))) => Some(
            "#<builtin procedure "@ + name_text(interner, b.name) + ">"@,
        ),
        Value::Callable(Callable::Procedure(Procedure::Compound(c))) => Some(
            "#<procedure"@ + match c.name {
                Some(name) => " "@ + name_text(interner, name),
                None => Seq::empty(),
            } + " #"@ + decimal(if c.id < usize::MAX { (c.id + 1) as nat } else { c.id as nat }) + ">"@,
        ),
        Value::Number(_) | Value::Pair(_) => None,
    }
}

/// How `v` is written by `repr` with `fuel` levels of nested lists left (a
/// list nested deeper is written `...`): an atom as `atom_repr` says, a list
/// as its items in parentheses separated by spaces, with ` . ` before the last
/// cdr of an improper list, and a structure that shares some pair (a cyclic
/// one among them) as `<CYCLIC LIST>`. `None` where the text holds a number,
/// which the number system writes.
pub open spec fn value_text(
    interner: Seq<Seq<char>>,
    strings: Seq<Seq<char>>,
    heap: PairHeap,
    v: Value,
    alternate: bool,
    fuel: nat,
) -> Option<Seq<char>>
    decreases fuel, 0nat,
{
    match v {
        Value::Number(_) => None,
        Value::Pair(_) => if fuel == 0 {
            Some("..."@)
        } else if shares_structure(heap, v) {
            Some("<CYCLIC LIST>"@)
        } else {
            let (cars, tail) = choose|cars: Seq<SourceValue>, tail: Value| is_chain(heap, v, cars, tail) && !(tail is Pair);
            let improper = !(tail is EmptyList);
            let values = cars.map_values(|c: SourceValue| c.0);
            let all = if improper {
                values.push(tail)
            } else {
                values
            };
            match items_text(interner, strings, heap, all, all.len(), improper, alternate, (fuel - 1) as nat) {
                Some(t) => Some("("@ + t + ")"@),
                None => None,
            }
        },
        _ => atom_repr(interner, strings, v, alternate),
    }
}

/// What follows item `i` of `n` in a written list: ` . ` before the last
/// item of an improper list, a space before any other, nothing after the last.
pub open spec fn separator(i: int, n: int, improper: bool) -> Seq<char> {
    if improper && n >= 2 && i == n - 2 {
        " . "@
    } else if i + 1 < n {
        " "@
    } else {
        Seq::empty()
    }
}

/// The first `items.len()` of the `n` items of a written list, each followed
/// by its separator.
pub open spec fn items_text(
    interner: Seq<Seq<char>>,
    strings: Seq<Seq<char>>,
    heap: PairHeap,
    items: Seq<Value>,
    n: nat,
    improper: bool,
    alternate: bool,
    fuel: nat,
) -> Option<Seq<char>>
    decreases fuel, items.len() + 1,
{
    if items.len() == 0 {
        Some(Seq::empty())
    } else {
        match (
            items_text(interner, strings, heap, items.drop_last(), n, improper, alternate, fuel),
            value_text(interner, strings, heap, items.last(), alternate, fuel),
        ) {
            (Some(a), Some(b)) => Some(a + b + separator(items.len() - 1, n as int, improper)),
            _ => None,
        }
    }
}

/// The name of an error type that carries nothing.
pub open spec fn error_name(error: RuntimeErrorType) -> Option<Seq<char>> {
    match error {
        RuntimeErrorType::Parse(_) | RuntimeErrorType::UnboundVariable(_) => None,
        RuntimeErrorType::MalformedExpression => Some("MalformedExpression"@),
        RuntimeErrorType::MalformedSpecialForm => Some("MalformedSpecialForm"@),
        RuntimeErrorType::MalformedBindingList => Some("MalformedBindingList"@),
        RuntimeErrorType::ExpectedNumber => Some("ExpectedNumber"@),
        RuntimeErrorType::ExpectedCallable => Some("ExpectedCallable"@),
        RuntimeErrorType::ExpectedProcedure => Some("ExpectedProcedure"@),
        RuntimeErrorType::ExpectedIdentifier => Some("ExpectedIdentifier"@),
        RuntimeErrorType::ExpectedPair => Some("ExpectedPair"@),
        RuntimeErrorType::ExpectedList => Some("ExpectedList"@),
        RuntimeErrorType::WrongNumberOfArguments => Some("WrongNumberOfArguments"@),
        RuntimeErrorType::DuplicateParameter => Some("DuplicateParameter"@),
        RuntimeErrorType::DuplicateVariableInBindings => Some("DuplicateVariableInBindings"@),
        RuntimeErrorType::StackOverflow => Some("StackOverflow"@),
        RuntimeErrorType::KeyboardInterrupt => Some("KeyboardInterrupt"@),
        RuntimeErrorType::DivisionByZero => Some("DivisionByZero"@),
        RuntimeErrorType::AssertionFailure => Some("AssertionFailure"@),
        RuntimeErrorType::EvaluationLimit => Some("EvaluationLimit"@),
    }
}

/// The name of a token type, with a boolean's value in parentheses.
pub open spec fn token_type_name(token_type: TokenType) -> Seq<char> {
    match token_type {
        TokenType::LeftParen => "LeftParen"@,
        TokenType::RightParen => "RightParen"@,
        TokenType::Number => "Number"@,
        TokenType::Boolean(b) => if b { "Boolean(true)"@ } else { "Boolean(false)"@ },
        TokenType::Identifier => "Identifier"@,
        TokenType::Dot => "Dot"@,
        TokenType::Apostrophe => "Apostrophe"@,
        TokenType::String => "String"@,
        TokenType::Undefined => "Undefined"@,
    }
}

/// The name of a parse error type, with what it carries in parentheses.
pub open spec fn parse_error_name(error: ParseErrorType) -> Seq<char> {
    match error {
        ParseErrorType::Tokenize(TokenizeErrorType::UnexpectedCharacter) => "Tokenize(UnexpectedCharacter)"@,
        ParseErrorType::Tokenize(TokenizeErrorType::UnterminatedString) => "Tokenize(UnterminatedString)"@,
        ParseErrorType::Tokenize(TokenizeErrorType::UnsupportedEscapeSequence) => "Tokenize(UnsupportedEscapeSequence)"@,
        ParseErrorType::InvalidNumber => "InvalidNumber"@,
        ParseErrorType::MissingRightParen => "MissingRightParen"@,
        ParseErrorType::UnexpectedEndOfFile => "UnexpectedEndOfFile"@,
        ParseErrorType::Expected(t) => "Expected("@ + token_type_name(t) + ")"@,
        ParseErrorType::Unexpected(t) => "Unexpected("@ + token_type_name(t) + ")"@,
    }
}

/// Writes the name of a token type, as `token_type_name` says.
pub fn describe_token_type(token_type: TokenType) -> (res: String)
    ensures
        res@ == token_type_name(token_type),
{
    match token_type {
        TokenType::LeftParen => String::from_str("LeftParen"),
        TokenType::RightParen => String::from_str("RightParen"),
        TokenType::Number => String::from_str("Number"),
        TokenType::Boolean(true) => String::from_str("Boolean(true)"),
        TokenType::Boolean(false) => String::from_str("Boolean(false)"),
        TokenType::Identifier => String::from_str("Identifier"),
        TokenType::Dot => String::from_str("Dot"),
        TokenType::Apostrophe => String::from_str("Apostrophe"),
        TokenType::String => String::from_str("String"),
        TokenType::Undefined => String::from_str("Undefined"),
    }
}

/// Writes the name of a parse error type, as `parse_error_name` says.
pub fn describe_parse_error(error: ParseErrorType) -> (res: String)
    ensures
        res@ == parse_error_name(error),
{
    match error {
        ParseErrorType::Tokenize(TokenizeErrorType::UnexpectedCharacter) => String::from_str(
            "Tokenize(UnexpectedCharacter)",
        ),
        ParseErrorType::Tokenize(TokenizeErrorType::UnterminatedString) => String::from_str(
            "Tokenize(UnterminatedString)",
        ),
        ParseErrorType::Tokenize(TokenizeErrorType::UnsupportedEscapeSequence) => String::from_str(
            "Tokenize(UnsupportedEscapeSequence)",
        ),
        ParseErrorType::InvalidNumber => String::from_str("InvalidNumber"),
        ParseErrorType::MissingRightParen => String::from_str("MissingRightParen"),
        ParseErrorType::UnexpectedEndOfFile => String::from_str("UnexpectedEndOfFile"),
        ParseErrorType::Expected(t) => concat(concat("Expected(", describe_token_type(t).as_str()).as_str(), ")"),
        ParseErrorType::Unexpected(t) => concat(concat("Unexpected(", describe_token_type(t).as_str()).as_str(), ")"),
    }
}

fn symbol_text(interner: &StringInterner, name: InternedString) -> (res: String)
    ensures
        res@ == name_text(interner@, name),
{
    match interner.try_get(name) {
        Some(text) => String::from_str(text),
        None => String::new(),
    }
}

fn string_object_text(strings: &StringStore, s: crate::mutable_string::MutableString) -> (res: String)
    ensures
        res@ == string_text(strings@, s.0),
{
    match strings.get(s) {
        Some(text) => String::from_str(text),
        None => String::new(),
    }
}

/// Writes a value other than a number or a pair, as `atom_repr` says.
pub fn atom_to_string(interner: &StringInterner, strings: &StringStore, value: &Value, alternate: bool) -> (res: String)
    requires
        !(value is Number),
        !(value is Pair),
    ensures
        atom_repr(interner@, strings@, *value, alternate) == Some(res@),
{
    match value {
        Value::Undefined => String::from_str("#!void"),
        Value::EmptyList => String::from_str("()"),
        Value::Boolean(b) => String::from_str(if *b { "#t" } else { "#f" }),
        Value::Symbol(name) => symbol_text(interner, *name),
        Value::String(s) => {
            let text = string_object_text(strings, *s);
            if alternate {
                text
            } else {
                crate::text::debug_repr(text.as_str())
            }
        },
        Value::Callable(Callable::SpecialForm(f)) => {
            let name = symbol_text(interner, f.name);
            concat(concat("#<special form ", name.as_str()).as_str(), ">")
        },
        Value::Callable(Callable::Procedure(Procedure::Builtin(b))) => {
            let name = symbol_text(interner, b.name);
            concat(concat("#<builtin procedure ", name.as_str()).as_str(), ">")
        },
        Value::Callable(Callable::Procedure(Procedure::Compound(c))) => {
            let label = match c.name {
                Some(name) => concat(" ", symbol_text(interner, name).as_str()),
                None => String::new(),
            };
            let id = usize_to_string(if c.id < usize::MAX { c.id + 1 } else { c.id });
            let head = concat("#<procedure", label.as_str());
            concat(concat(concat(head.as_str(), " #").as_str(), id.as_str()).as_str(), ">")
        },
        Value::Number(_) | Value::Pair(_) => String::new(),
    }
}

impl<N: NumberSystem> Interpreter<N> {
    /// How `value` is written: as a REPL shows it or, when `alternate` is
    /// set, as `display` shows it (strings without quotes). Lists are written
    /// in parentheses, improper ones with a dot before the last item, and a
    /// structure that meets a pair twice as `<CYCLIC LIST>`.
    pub fn repr(&self, value: &Value, alternate: bool) -> (res: String)
        ensures
            atom_repr(self.string_interner@, self.strings@, *value, alternate) matches Some(s) ==> res@ == s,
            value_text(
                self.string_interner@,
                self.strings@,
                self.pair_manager@,
                *value,
                alternate,
                self.pair_manager@.len(),
            ) matches Some(s) ==> res@ == s,
    {
        let fuel = self.pair_manager.0.len();
        self.repr_within(value, alternate, fuel)
    }

    /// Writes `value`, nesting at most `fuel` lists deep; deeper lists are
    /// written as `...`.
    fn repr_within(&self, value: &Value, alternate: bool, fuel: usize) -> (res: String)
        ensures
            atom_repr(self.string_interner@, self.strings@, *value, alternate) matches Some(s) ==> res@ == s,
            value_text(self.string_interner@, self.strings@, self.pair_manager@, *value, alternate, fuel as nat) matches Some(
                s,
            ) ==> res@ == s,
        decreases fuel,
    {
        match value {
            Value::Number(n) => self.numbers.number_to_string(*n),
            Value::Pair(p) => {
                if fuel == 0 {
                    proof {
                        reveal_strlit("...");
                    }
                    return String::from_str("...");
                }
                let ghost heap = self.pair_manager@;
                match self.pair_manager.try_get_vec_pair(*p) {
                    Some(VecPair::List(items)) => {
                        let ghost vals = items@.map_values(|c: SourceValue| c.0);
                        proof {
                            let (cars, tail) = choose|cars: Seq<SourceValue>, tail: Value|
                                is_chain(heap, *value, cars, tail) && !(tail is Pair);
                            crate::pair::lemma_chain_unique(heap, *value, cars, tail, items@, Value::EmptyList);
                            reveal_strlit("(");
                            assert(vals.take(0) =~= Seq::<Value>::empty());
                            assert(("("@ + Seq::<char>::empty()) =~= "("@);
                        }
                        let mut text = String::from_str("(");
                        let mut i: usize = 0;
                        while i < items.len()
                            invariant
                                i <= items@.len(),
                                fuel > 0,
                                heap == self.pair_manager@,
                                vals == items@.map_values(|c: SourceValue| c.0),
                                items_text(
                                    self.string_interner@,
                                    self.strings@,
                                    heap,
                                    vals.take(i as int),
                                    vals.len(),
                                    false,
                                    alternate,
                                    (fuel - 1) as nat,
                                ) matches Some(t) ==> text@ == "("@ + t,
                            decreases items@.len() - i,
                        {
                            let item = self.repr_within(&items[i].0, alternate, fuel - 1);
                            let ghost before = text@;
                            text = concat(text.as_str(), item.as_str());
                            if i + 1 < items.len() {
                                text = concat(text.as_str(), " ");
                            }
                            proof {
                                reveal_strlit(" ");
                                let next = vals.take(i + 1);
                                assert(next.drop_last() =~= vals.take(i as int));
                                assert(next.last() == items@[i as int].0);
                                if let Some(t) = items_text(
                                    self.string_interner@,
                                    self.strings@,
                                    heap,
                                    next,
                                    vals.len(),
                                    false,
                                    alternate,
                                    (fuel - 1) as nat,
                                ) {
                                    let a = items_text(
                                        self.string_interner@,
                                        self.strings@,
                                        heap,
                                        vals.take(i as int),
                                        vals.len(),
                                        false,
                                        alternate,
                                        (fuel - 1) as nat,
                                    )->Some_0;
                                    assert(before == "("@ + a);
                                    assert(text@ =~= "("@ + (a + item@ + separator(i as int, vals.len() as int, false)));
                                }
                            }
                            i = i + 1;
                        }
                        let res = concat(text.as_str(), ")");
                        proof {
                            reveal_strlit(")");
                            assert(vals.take(vals.len() as int) =~= vals);
                        }
                        res
                    },
                    Some(VecPair::ImproperList(items)) => {
                        let ghost vals = items@.map_values(|c: SourceValue| c.0);
                        proof {
                            let (cars, tail) = choose|cars: Seq<SourceValue>, tail: Value|
                                is_chain(heap, *value, cars, tail) && !(tail is Pair);
                            crate::pair::lemma_chain_unique(
                                heap,
                                *value,
                                cars,
                                tail,
                                items@.drop_last(),
                                items@.last().0,
                            );
                            assert(items@.drop_last().map_values(|c: SourceValue| c.0).push(items@.last().0) =~= vals);
                            reveal_strlit("(");
                            assert(vals.take(0) =~= Seq::<Value>::empty());
                            assert(("("@ + Seq::<char>::empty()) =~= "("@);
                        }
                        let mut text = String::from_str("(");
                        let mut i: usize = 0;
                        while i < items.len()
                            invariant
                                i <= items@.len(),
                                fuel > 0,
                                heap == self.pair_manager@,
                                vals == items@.map_values(|c: SourceValue| c.0),
                                items_text(
                                    self.string_interner@,
                                    self.strings@,
                                    heap,
                                    vals.take(i as int),
                                    vals.len(),
                                    true,
                                    alternate,
                                    (fuel - 1) as nat,
                                ) matches Some(t) ==> text@ == "("@ + t,
                            decreases items@.len() - i,
                        {
                            let item = self.repr_within(&items[i].0, alternate, fuel - 1);
                            let ghost before = text@;
                            text = concat(text.as_str(), item.as_str());
                            if items.len() >= 2 && i == items.len() - 2 {
                                text = concat(text.as_str(), " . ");
                            } else if i + 1 < items.len() {
                                text = concat(text.as_str(), " ");
                            }
                            proof {
                                reveal_strlit(" ");
                                reveal_strlit(" . ");
                                let next = vals.take(i + 1);
                                assert(next.drop_last() =~= vals.take(i as int));
                                assert(next.last() == items@[i as int].0);
                                if let Some(t) = items_text(
                                    self.string_interner@,
                                    self.strings@,
                                    heap,
                                    next,
                                    vals.len(),
                                    true,
                                    alternate,
                                    (fuel - 1) as nat,
                                ) {
                                    let a = items_text(
                                        self.string_interner@,
                                        self.strings@,
                                        heap,
                                        vals.take(i as int),
                                        vals.len(),
                                        true,
                                        alternate,
                                        (fuel - 1) as nat,
                                    )->Some_0;
                                    assert(before == "("@ + a);
                                    assert(text@ =~= "("@ + (a + item@ + separator(i as int, vals.len() as int, true)));
                                }
                            }
                            i = i + 1;
                        }
                        let res = concat(text.as_str(), ")");
                        proof {
                            reveal_strlit(")");
                            assert(vals.take(vals.len() as int) =~= vals);
                        }
                        res
                    },
                    None => {
                        proof {
                            reveal_strlit("<CYCLIC LIST>");
                        }
                        String::from_str("<CYCLIC LIST>")
                    },
                }
            },
            _ => atom_to_string(&self.string_interner, &self.strings, value, alternate),
        }
    }

    /// How an error type is described to the user: its variant's name, with
    /// what it carries in parentheses (an unbound variable's name quoted,
    /// followed by its symbol number).
    pub fn describe_error_type(&self, error: RuntimeErrorType) -> (res: String)
        ensures
            error_name(error) matches Some(name) ==> res@ == name,
            error matches RuntimeErrorType::Parse(p) ==> res@ == "Parse("@ + parse_error_name(p) + ")"@,
    {
        match error {
            RuntimeErrorType::Parse(parse_error) => {
                let inner = describe_parse_error(parse_error);
                concat(concat("Parse(", inner.as_str()).as_str(), ")")
            },
            RuntimeErrorType::UnboundVariable(name) => {
                let text = crate::text::debug_repr(symbol_text(&self.string_interner, name).as_str());
                let id = usize_to_string(name.0);
                let head = concat(concat("UnboundVariable(", text.as_str()).as_str(), " (#");
                concat(concat(head.as_str(), id.as_str()).as_str(), "))")
            },
            RuntimeErrorType::MalformedExpression => String::from_str("MalformedExpression"),
            RuntimeErrorType::MalformedSpecialForm => String::from_str("MalformedSpecialForm"),
            RuntimeErrorType::MalformedBindingList => String::from_str("MalformedBindingList"),
            RuntimeErrorType::ExpectedNumber => String::from_str("ExpectedNumber"),
            RuntimeErrorType::ExpectedCallable => String::from_str("ExpectedCallable"),
            RuntimeErrorType::ExpectedProcedure => String::from_str("ExpectedProcedure"),
            RuntimeErrorType::ExpectedIdentifier => String::from_str("ExpectedIdentifier"),
            RuntimeErrorType::ExpectedPair => String::from_str("ExpectedPair"),
            RuntimeErrorType::ExpectedList => String::from_str("ExpectedList"),
            RuntimeErrorType::WrongNumberOfArguments => String::from_str("WrongNumberOfArguments"),
            RuntimeErrorType::DuplicateParameter => String::from_str("DuplicateParameter"),
            RuntimeErrorType::DuplicateVariableInBindings => String::from_str("DuplicateVariableInBindings"),
            RuntimeErrorType::StackOverflow => String::from_str("StackOverflow"),
            RuntimeErrorType::KeyboardInterrupt => String::from_str("KeyboardInterrupt"),
            RuntimeErrorType::DivisionByZero => String::from_str("DivisionByZero"),
            RuntimeErrorType::AssertionFailure => String::from_str("AssertionFailure"),
            RuntimeErrorType::EvaluationLimit => String::from_str("EvaluationLimit"),
        }
    }

    /// Flushes what is buffered for printing and returns the report of an
    /// error, to be written where errors go: `Error:`, the error, `in` and
    /// where it happened, then a newline and the traceback.
    pub fn show_err_and_traceback(&mut self, err: RuntimeError) -> (res: String)
        ensures
            final(self).printer.buffer().len() == 0,
            res@.take(7) == "Error: "@,
    {
        self.printer.print_buffered_output();
        let description = self.describe_error_type(err.0);
        let trace = self.source_mapper.trace(&err.1);
        let location = crate::tracked_stats::join_lines(&trace);
        let message = concat(
            concat(concat(concat("Error: ", description.as_str()).as_str(), " in ").as_str(), location.as_str()).as_str(),
            "\n",
        );
        let traceback = self.traceback();
        let res = concat(message.as_str(), traceback.as_str());
        proof {
            reveal_strlit("Error: ");
            assert(res@.take(7) =~= "Error: "@);
        }
        res
    }
}

} // verus!
