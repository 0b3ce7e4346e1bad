use vstd::prelude::*;

use crate::mutable_string::{spec_unescape, MutableString, StringStore};
use crate::number::NumberSystem;
use crate::pair::{inner, is_chain, last_cdr, PairHeap, PairManager};
use crate::source_mapped::{SourceMappable, SourceMapped, SourceRange};
use crate::source_mapper::SourceId;
use crate::string_interner::{InternedString, StringInterner};
use crate::tokenizer::{spec_next_pos, spec_next_token, Token, TokenType, TokenizeError, TokenizeErrorType, Tokenizer};
use crate::value::{SourceValue, Value};

verus! {

/// The ways in which parsing can fail.
#[derive(Debug, Clone, Copy, PartialEq, Eq, Structural)]
pub enum ParseErrorType {
    Tokenize(TokenizeErrorType),
    InvalidNumber,
    MissingRightParen,
    UnexpectedEndOfFile,
    Expected(TokenType),
    Unexpected(TokenType),
}

pub type ParseError = SourceMapped<ParseErrorType>;

/// A tokenizer error seen as a parse error at the same place.
pub fn parse_error_from_tokenize_error(value: TokenizeError) -> (res: ParseError)
    ensures
        res == SourceMapped(ParseErrorType::Tokenize(value.0), value.1),
{
    ParseErrorType::Tokenize(value.0).source_mapped(value.1)
}

/// Whether `v` is the list `(quote quoted)`, its first item the symbol
/// `quote` at `range`.
pub open spec fn is_quote_form(
    heap: crate::pair::PairHeap,
    v: Value,
    quote: InternedString,
    range: crate::source_mapped::SourceRange,
    quoted: SourceValue,
) -> bool {
    is_chain(heap, v, seq![SourceMapped(Value::Symbol(quote), range), quoted], Value::EmptyList)
}

/// Whether `new` is `old` with items added at its end.
pub open spec fn extends<T>(old: Seq<T>, new: Seq<T>) -> bool {
    old.len() <= new.len() && new.take(old.len() as int) == old
}

proof fn lemma_extends_trans<T>(a: Seq<T>, b: Seq<T>, c: Seq<T>)
    requires
        extends(a, b),
        extends(b, c),
    ensures
        extends(a, c),
{
    assert(c.take(a.len() as int) =~= c.take(b.len() as int).take(a.len() as int));
}

proof fn lemma_extends_refl<T>(a: Seq<T>)
    ensures
        extends(a, a),
{
    assert(a.take(a.len() as int) =~= a);
}

proof fn lemma_intern_extends(old: Seq<Seq<char>>, new: Seq<Seq<char>>, value: Seq<char>)
    requires
        old.contains(value) ==> new == old,
        !old.contains(value) ==> new == old.push(value),
    ensures
        extends(old, new),
{
    assert(old.take(old.len() as int) =~= old);
    assert(old.push(value).take(old.len() as int) =~= old);
}

/// The shape of an expression as the parser reads it: one token, a proper
/// list, a list whose final cdr follows a dot (its range that of the closing
/// parenthesis), or an expression quoted by the apostrophe at the given range.
pub enum Form {
    Leaf(Token),
    List(Seq<Form>, SourceRange),
    Dotted(Seq<Form>, Box<Form>, SourceRange),
    Quote(Box<Form>, SourceRange),
}

/// The source range of the value that a form reads as.
pub open spec fn form_range(f: Form) -> SourceRange
    decreases f,
{
    match f {
        Form::Leaf(t) => t.1,
        Form::List(_, r) => r,
        Form::Dotted(_, _, r) => r,
        Form::Quote(g, r) => (r.0, form_range(*g).1, r.2),
    }
}

/// Whether a form holds a number token, whose value the number system decides.
pub open spec fn has_number(f: Form) -> bool
    decreases f,
{
    match f {
        Form::Leaf(t) => t.0 == TokenType::Number,
        Form::List(items, _) => exists|i: int| 0 <= i < items.len() && has_number(#[trigger] items[i]),
        Form::Dotted(items, tail, _) => has_number(*tail) || exists|i: int|
            0 <= i < items.len() && has_number(#[trigger] items[i]),
        Form::Quote(g, _) => has_number(*g),
    }
}

/// A tokenizer error as the parser reports it.
pub open spec fn parse_error_from(e: TokenizeError) -> ParseError {
    SourceMapped(ParseErrorType::Tokenize(e.0), e.1)
}

/// The error for text that ends where an expression is expected, at `pos`.
pub open spec fn stuck(pos: int, source: Option<SourceId>) -> ParseError {
    SourceMapped(ParseErrorType::UnexpectedEndOfFile, (pos as usize, pos as usize, source))
}

/// The token the parser sees after `pos`, or the error it reads as.
pub open spec fn token_after(text: Seq<char>, source: Option<SourceId>, pos: int) -> Option<Result<Token, ParseError>> {
    match spec_next_token(text, pos) {
        None => None,
        Some((Ok(t), start, end)) => Some(Ok(SourceMapped(t, (start as usize, end as usize, source)))),
        Some((Err(e), start, end)) => Some(Err(parse_error_from(SourceMapped(e, (start as usize, end as usize, source))))),
    }
}

/// What reading an expression from `pos` gives: its form and where reading
/// stops, or the error the parser meets. The end of the text reads as
/// `UnexpectedEndOfFile` where the tokenizer stopped.
pub open spec fn read_expr(text: Seq<char>, source: Option<SourceId>, pos: int) -> Result<(Form, int), ParseError>
    decreases text.len() - pos, 0int,
{
    match token_after(text, source, pos) {
        None => Err(stuck(spec_next_pos(text, pos), source)),
        Some(Err(e)) => Err(e),
        Some(Ok(t)) => if pos < t.1.1 <= text.len() {
            read_after(text, source, t, t.1.1 as int)
        } else {
            Err(stuck(pos, source))
        },
    }
}

/// What reading the expression that starts with `token` gives, the text read
/// up to `pos`.
pub open spec fn read_after(text: Seq<char>, source: Option<SourceId>, token: Token, pos: int) -> Result<
    (Form, int),
    ParseError,
>
    decreases text.len() - pos, 2int,
{
    match token.0 {
        TokenType::LeftParen => read_list(text, source, token, pos, Seq::empty()),
        TokenType::RightParen => Err(SourceMapped(ParseErrorType::Unexpected(TokenType::RightParen), token.1)),
        TokenType::Dot => Err(SourceMapped(ParseErrorType::Unexpected(TokenType::Dot), token.1)),
        TokenType::Apostrophe => match read_expr(text, source, pos) {
            Ok((f, end)) => Ok((Form::Quote(Box::new(f), token.1), end)),
            Err(e) => Err(e),
        },
        _ => Ok((Form::Leaf(token), pos)),
    }
}

/// What reading the rest of a list opened by `open` gives, its items read so
/// far being `items` and the text read up to `pos`.
pub open spec fn read_list(text: Seq<char>, source: Option<SourceId>, open: Token, pos: int, items: Seq<Form>) -> Result<
    (Form, int),
    ParseError,
>
    decreases text.len() - pos, 1int,
{
    match token_after(text, source, pos) {
        None => Err(SourceMapped(ParseErrorType::MissingRightParen, open.1)),
        Some(Err(e)) => Err(e),
        Some(Ok(t)) => if !(pos < t.1.1 <= text.len()) {
            Err(stuck(pos, source))
        } else if t.0 == TokenType::RightParen {
            Ok((Form::List(items, (open.1.0, t.1.1, open.1.2)), t.1.1 as int))
        } else if t.0 == TokenType::Dot {
            if items.len() == 0 {
                Err(SourceMapped(ParseErrorType::Unexpected(TokenType::Dot), t.1))
            } else {
                match read_expr(text, source, t.1.1 as int) {
                    Err(e) => Err(e),
                    Ok((f, end)) => match token_after(text, source, end) {
                        None => Err(stuck(spec_next_pos(text, end), source)),
                        Some(Err(e)) => Err(e),
                        Some(Ok(close)) => if close.0 == TokenType::RightParen {
                            Ok((Form::Dotted(items, Box::new(f), close.1), close.1.1 as int))
                        } else {
                            Err(SourceMapped(ParseErrorType::Expected(TokenType::RightParen), close.1))
                        },
                    },
                }
            }
        } else {
            match read_after(text, source, t, t.1.1 as int) {
                Err(e) => Err(e),
                Ok((f, end)) => if end < t.1.1 || end > text.len() {
                    Err(stuck(pos, source))
                } else {
                    read_list(text, source, open, end, items.push(f))
                },
            }
        },
    }
}

/// Whether value `v` is what form `f` reads as, with the pairs, symbol names
/// and strings of the given heaps, `text` being the text read.
pub open spec fn denotes(
    pairs: PairHeap,
    names: Seq<Seq<char>>,
    strings: Seq<Seq<char>>,
    text: Seq<char>,
    v: SourceValue,
    f: Form,
) -> bool
    decreases f,
{
    &&& v.1 == form_range(f)
    &&& match f {
        Form::Leaf(t) => match t.0 {
            TokenType::Boolean(b) => v.0 == Value::Boolean(b),
            TokenType::Undefined => v.0 == Value::Undefined,
            TokenType::Number => v.0 is Number,
            TokenType::Identifier => v.0 matches Value::Symbol(name) && 0 <= name.id() < names.len() && names[name.id()]
                == text.subrange(t.1.0 as int, t.1.1 as int),
            TokenType::String => v.0 matches Value::String(s) && s.0 < strings.len() && strings[s.0 as int] == spec_unescape(
                text.subrange(t.1.0 as int, t.1.1 as int),
            ),
            _ => false,
        },
        Form::List(items, _) => exists|vals: Seq<SourceValue>|
            #[trigger] is_chain(pairs, v.0, vals, Value::EmptyList) && vals.len() == items.len() && forall|i: int|
                0 <= i < items.len() ==> denotes(pairs, names, strings, text, vals[i], items[i]),
        Form::Dotted(items, tail, _) => items.len() > 0 && denotes(
            pairs,
            names,
            strings,
            text,
            last_cdr(pairs, v.0, items.len()),
            *tail,
        ) && exists|vals: Seq<SourceValue>|
            #[trigger] is_chain(pairs, v.0, vals, last_cdr(pairs, v.0, items.len()).0) && vals.len() == items.len()
                && forall|i: int| 0 <= i < items.len() ==> denotes(pairs, names, strings, text, vals[i], items[i]),
        Form::Quote(g, apostrophe) => exists|quote: InternedString, quoted: SourceValue|
            #[trigger] is_quote_form(pairs, v.0, quote, apostrophe, quoted) && 0 <= quote.id() < names.len()
                && names[quote.id()] == seq!['q', 'u', 'o', 't', 'e'] && denotes(pairs, names, strings, text, quoted, *g),
    }
}

/// What reading every expression from `pos` to the end of the text gives:
/// their forms, or the first error.
pub open spec fn read_all(text: Seq<char>, source: Option<SourceId>, pos: int) -> Result<Seq<Form>, ParseError>
    decreases text.len() - pos,
{
    match token_after(text, source, pos) {
        None => Ok(Seq::empty()),
        Some(Err(e)) => Err(e),
        Some(Ok(t)) => if !(pos < t.1.1 <= text.len()) {
            Err(stuck(pos, source))
        } else {
            match read_after(text, source, t, t.1.1 as int) {
                Err(e) => Err(e),
                Ok((f, end)) => if end < t.1.1 || end > text.len() {
                    Err(stuck(pos, source))
                } else {
                    match read_all(text, source, end) {
                        Ok(rest) => Ok(seq![f] + rest),
                        Err(e) => Err(e),
                    }
                },
            }
        },
    }
}

/// Reading everything from `pos`, where an expression that starts with
/// token `t` reads as `g` up to `end`, reads `g` and then everything from `end`.
proof fn lemma_read_all_step(text: Seq<char>, source: Option<SourceId>, pos: int, t: Token, g: Form, end: int)
    requires
        0 <= pos <= text.len(),
        text.len() <= usize::MAX,
        token_after(text, source, pos) == Some(Ok::<Token, ParseError>(t)),
        read_after(text, source, t, t.1.1 as int) == Ok::<(Form, int), ParseError>((g, end)),
        t.1.1 <= end <= text.len(),
    ensures
        read_all(text, source, pos) == match read_all(text, source, end) {
            Ok(rest) => Ok(seq![g] + rest),
            Err(e) => Err::<Seq<Form>, ParseError>(e),
        },
{
    crate::tokenizer::lemma_next_token_progress(text, pos);
}

/// Where the expression read from `pos` fails, so does reading everything
/// after `forms`: with the same error, or, where the number system refused a
/// number, with a form holding a number among what reading gives.
proof fn lemma_read_all_failed(text: Seq<char>, source: Option<SourceId>, pos: int, err: ParseError)
    requires
        0 <= pos <= text.len(),
        text.len() <= usize::MAX,
        match token_after(text, source, pos) {
            None => false,
            Some(Err(e)) => err == e,
            Some(Ok(t)) => reads_as(
                read_after(text, source, t, t.1.1 as int),
                Err(err),
                0,
                Seq::empty(),
                Seq::empty(),
                Seq::empty(),
                text,
            ),
        },
    ensures
        read_all(text, source, pos) matches Ok(rest) ==> err.0 == ParseErrorType::InvalidNumber && 0 < rest.len()
            && has_number(rest[0]),
        read_all(text, source, pos) matches Err(e) ==> err == e || err.0 == ParseErrorType::InvalidNumber,
{
    crate::tokenizer::lemma_next_token_progress(text, pos);
    match token_after(text, source, pos) {
        Some(Ok(t)) => {
            assert(pos < t.1.1 <= text.len());
            match read_after(text, source, t, t.1.1 as int) {
                Ok((g, end)) => {
                    assert(err.0 == ParseErrorType::InvalidNumber);
                    assert(has_number(g));
                },
                Err(e) => {
                    assert(read_all(text, source, pos) == Err::<Seq<Form>, ParseError>(e));
                },
            }
        },
        Some(Err(e)) => {
            assert(read_all(text, source, pos) == Err::<Seq<Form>, ParseError>(e));
        },
        None => {},
    }
}

/// Whether none of `forms` holds a number.
pub open spec fn no_numbers(forms: Seq<Form>) -> bool {
    forall|k: int| 0 <= k < forms.len() ==> !has_number(#[trigger] forms[k])
}

/// Parsing that fails on a number, where reading gives forms one of which
/// holds a number, fails as `reads_all_as` allows.
proof fn lemma_reads_all_number_failed(
    all: Seq<Form>,
    err: ParseError,
    k: int,
    pairs: PairHeap,
    names: Seq<Seq<char>>,
    strings: Seq<Seq<char>>,
    text: Seq<char>,
)
    requires
        err.0 == ParseErrorType::InvalidNumber,
        0 <= k < all.len(),
        has_number(all[k]),
    ensures
        reads_all_as(Ok(all), Err(err), pairs, names, strings, text),
{
    assert(!no_numbers(all));
}

/// Whether `res` is what parsing a whole text gives where reading it is
/// specified by `r`, as `reads_as` says of one expression.
pub open spec fn reads_all_as(
    r: Result<Seq<Form>, ParseError>,
    res: Result<Vec<SourceValue>, ParseError>,
    pairs: PairHeap,
    names: Seq<Seq<char>>,
    strings: Seq<Seq<char>>,
    text: Seq<char>,
) -> bool {
    match r {
        Ok(forms) => (res matches Ok(values) ==> values@.len() == forms.len() && forall|k: int|
            0 <= k < forms.len() ==> denotes(pairs, names, strings, text, #[trigger] values@[k], forms[k])) && (
        res matches Err(e) ==> e.0 == ParseErrorType::InvalidNumber && !no_numbers(forms)) && (no_numbers(forms)
            ==> res is Ok),
        Err(e) => res matches Err(e2) && (e2 == e || e2.0 == ParseErrorType::InvalidNumber),
    }
}

/// Where reading stops with error `e`: at the end of the token that the
/// error is about, or, for a list left open or an expression missing, at
/// the end of the text.
pub open spec fn stop_of(e: ParseError, text: Seq<char>) -> int {
    if e.0 == ParseErrorType::MissingRightParen || e.0 == ParseErrorType::UnexpectedEndOfFile {
        text.len() as int
    } else {
        e.1.1 as int
    }
}

/// Where a reading stops: at the end of what it read, or where its error
/// stops it.
pub open spec fn reading_stop(r: Result<(Form, int), ParseError>, text: Seq<char>) -> int {
    match r {
        Ok((_, end)) => end,
        Err(e) => stop_of(e, text),
    }
}

/// Where reading a whole text stops: at its end, or where its error stops it.
pub open spec fn reading_all_stop(r: Result<Seq<Form>, ParseError>, text: Seq<char>) -> int {
    match r {
        Ok(_) => text.len() as int,
        Err(e) => stop_of(e, text),
    }
}

/// Whether `r` is the range of a number token of `text` that starts at or
/// after `lo` and ends at or before `hi`.
pub open spec fn number_token_within(text: Seq<char>, source: Option<SourceId>, r: SourceRange, lo: int, hi: int) -> bool {
    &&& lo <= r.0
    &&& r.1 <= hi
    &&& exists|q: int| #[trigger] token_after(text, source, q) == Some(Ok::<Token, ParseError>(SourceMapped(TokenType::Number, r)))
}

/// Whether an `InvalidNumber` error in `res` is at a number token read from
/// `lo` on, before reading as `r` specifies it stops: the number system
/// rejects no other tokens, and errors come as reading says otherwise.
pub open spec fn number_error_within(
    r: Result<(Form, int), ParseError>,
    res: Result<SourceValue, ParseError>,
    text: Seq<char>,
    source: Option<SourceId>,
    lo: int,
) -> bool {
    match res {
        Err(e) => e.0 == ParseErrorType::InvalidNumber ==> number_token_within(text, source, e.1, lo, reading_stop(r, text)),
        Ok(_) => true,
    }
}

/// The same, of parsing a whole text.
pub open spec fn number_error_within_all(
    r: Result<Seq<Form>, ParseError>,
    res: Result<Vec<SourceValue>, ParseError>,
    text: Seq<char>,
    source: Option<SourceId>,
    lo: int,
) -> bool {
    match res {
        Err(e) => e.0 == ParseErrorType::InvalidNumber ==> number_token_within(text, source, e.1, lo, reading_all_stop(r, text)),
        Ok(_) => true,
    }
}

/// Reading an expression from `pos` stops at or after `pos`.
proof fn lemma_read_expr_stops(text: Seq<char>, source: Option<SourceId>, pos: int)
    requires
        text.len() <= usize::MAX,
        0 <= pos <= text.len(),
    ensures
        pos <= reading_stop(read_expr(text, source, pos), text) <= text.len(),
    decreases text.len() - pos, 0int,
{
    crate::tokenizer::lemma_next_token_progress(text, pos);
    if let Some(Ok(t)) = token_after(text, source, pos) {
        if pos < t.1.1 <= text.len() {
            lemma_read_after_stops(text, source, t, t.1.1 as int);
        }
    }
}

/// Reading the expression that starts with `token`, read up to `pos`, stops
/// at or after `pos`.
proof fn lemma_read_after_stops(text: Seq<char>, source: Option<SourceId>, token: Token, pos: int)
    requires
        text.len() <= usize::MAX,
        0 <= pos <= text.len(),
        token.1.1 == pos,
    ensures
        pos <= reading_stop(read_after(text, source, token, pos), text) <= text.len(),
    decreases text.len() - pos, 2int,
{
    match token.0 {
        TokenType::LeftParen => {
            lemma_read_list_stops(text, source, token, pos, Seq::empty());
        },
        TokenType::Apostrophe => {
            lemma_read_expr_stops(text, source, pos);
        },
        _ => {},
    }
}

/// Reading the rest of a list from `pos` stops at or after `pos`.
proof fn lemma_read_list_stops(text: Seq<char>, source: Option<SourceId>, open: Token, pos: int, items: Seq<Form>)
    requires
        text.len() <= usize::MAX,
        0 <= pos <= text.len(),
    ensures
        pos <= reading_stop(read_list(text, source, open, pos, items), text) <= text.len(),
    decreases text.len() - pos, 1int,
{
    crate::tokenizer::lemma_next_token_progress(text, pos);
    if let Some(Ok(t)) = token_after(text, source, pos) {
        if pos < t.1.1 <= text.len() && t.0 != TokenType::RightParen {
            if t.0 == TokenType::Dot {
                if items.len() > 0 {
                    lemma_read_expr_stops(text, source, t.1.1 as int);
                    if let Ok((f, end)) = read_expr(text, source, t.1.1 as int) {
                        crate::tokenizer::lemma_next_token_progress(text, end);
                    }
                }
            } else {
                lemma_read_after_stops(text, source, t, t.1.1 as int);
                if let Ok((f, end)) = read_after(text, source, t, t.1.1 as int) {
                    if !(end < t.1.1 || end > text.len()) {
                        lemma_read_list_stops(text, source, open, end, items.push(f));
                    }
                }
            }
        }
    }
}

/// Reading everything from `pos` stops at or after `pos`.
proof fn lemma_read_all_stops(text: Seq<char>, source: Option<SourceId>, pos: int)
    requires
        text.len() <= usize::MAX,
        0 <= pos <= text.len(),
    ensures
        pos <= reading_all_stop(read_all(text, source, pos), text) <= text.len(),
    decreases text.len() - pos,
{
    crate::tokenizer::lemma_next_token_progress(text, pos);
    if let Some(Ok(t)) = token_after(text, source, pos) {
        if pos < t.1.1 <= text.len() {
            lemma_read_after_stops(text, source, t, t.1.1 as int);
            if let Ok((f, end)) = read_after(text, source, t, t.1.1 as int) {
                if !(end < t.1.1 || end > text.len()) {
                    lemma_read_all_stops(text, source, end);
                }
            }
        }
    }
}

/// Whether `res` is what the parser gives where reading is specified by `r`:
/// the value that the form reads as, the text read up to `end`; or the same
/// error. The number system alone decides which number tokens are numbers,
/// so a form that holds one may also fail with `InvalidNumber`, and an
/// error may come as `InvalidNumber` from a number read before it.
pub open spec fn reads_as(
    r: Result<(Form, int), ParseError>,
    res: Result<SourceValue, ParseError>,
    pos: int,
    pairs: PairHeap,
    names: Seq<Seq<char>>,
    strings: Seq<Seq<char>>,
    text: Seq<char>,
) -> bool {
    match r {
        Ok((f, end)) => (res matches Ok(v) ==> pos == end && denotes(pairs, names, strings, text, v, f)) && (
        res matches Err(e) ==> e.0 == ParseErrorType::InvalidNumber && has_number(f)) && (!has_number(f) ==> res is Ok),
        Err(e) => res matches Err(e2) && (e2 == e || e2.0 == ParseErrorType::InvalidNumber),
    }
}

/// The items of a list form.
pub open spec fn form_items(f: Form) -> Seq<Form> {
    match f {
        Form::List(items, _) => items,
        Form::Dotted(items, _, _) => items,
        _ => Seq::empty(),
    }
}

/// Reading the rest of a list keeps the items read so far: where one of them
/// holds a number, so does the list.
proof fn lemma_read_list_keeps(text: Seq<char>, source: Option<SourceId>, open: Token, pos: int, items: Seq<Form>)
    ensures
        read_list(text, source, open, pos, items) matches Ok((f, _)) ==> forall|i: int|
            0 <= i < items.len() && #[trigger] has_number(items[i]) ==> has_number(f),
    decreases text.len() - pos,
{
    if let Some(Ok(t)) = token_after(text, source, pos) {
        if pos < t.1.1 <= text.len() {
            if t.0 == TokenType::RightParen || t.0 == TokenType::Dot {
                if let Ok((f, _)) = read_list(text, source, open, pos, items) {
                    assert(f is List || f is Dotted);
                    assert(form_items(f) == items);
                    assert forall|i: int| 0 <= i < items.len() && #[trigger] has_number(items[i]) implies has_number(f) by {
                        match f {
                            Form::List(its, _) => {
                                assert(its[i] == items[i]);
                                assert(exists|j: int| 0 <= j < its.len() && #[trigger] has_number(its[j]));
                                reveal_with_fuel(has_number, 2);
                            },
                            Form::Dotted(its, _, _) => {
                                assert(its[i] == items[i]);
                                assert(exists|j: int| 0 <= j < its.len() && #[trigger] has_number(its[j]));
                                reveal_with_fuel(has_number, 2);
                            },
                            _ => {},
                        }
                    }
                }
            } else if let Ok((g, end)) = read_after(text, source, t, t.1.1 as int) {
                if !(end < t.1.1 || end > text.len()) {
                    lemma_read_list_keeps(text, source, open, end, items.push(g));
                    if let Ok((f, _)) = read_list(text, source, open, pos, items) {
                        assert forall|i: int| 0 <= i < items.len() && #[trigger] has_number(items[i]) implies has_number(f) by {
                            assert(items.push(g)[i] == items[i]);
                        }
                    }
                }
            }
        }
    }
}

/// A chain of pairs whose cars read as `items` and whose final cdr reads as
/// `tail` reads as the dotted list of them.
proof fn lemma_denotes_dotted(
    pairs: PairHeap,
    names: Seq<Seq<char>>,
    strings: Seq<Seq<char>>,
    text: Seq<char>,
    v: SourceValue,
    vals: Seq<SourceValue>,
    items: Seq<Form>,
    tail: Form,
    r: SourceRange,
)
    requires
        v.1 == r,
        items.len() > 0,
        vals.len() == items.len(),
        is_chain(pairs, v.0, vals, last_cdr(pairs, v.0, items.len()).0),
        forall|k: int| 0 <= k < items.len() ==> denotes(pairs, names, strings, text, #[trigger] vals[k], items[k]),
        denotes(pairs, names, strings, text, last_cdr(pairs, v.0, items.len()), tail),
    ensures
        denotes(pairs, names, strings, text, v, Form::Dotted(items, Box::new(tail), r)),
{
}

/// A chain survives the heap growing.
proof fn lemma_chain_grows(p1: PairHeap, p2: PairHeap, v: Value, items: Seq<SourceValue>, tail: Value)
    requires
        extends(p1, p2),
        is_chain(p1, v, items, tail),
    ensures
        is_chain(p2, v, items, tail),
    decreases items.len(),
{
    if items.len() > 0 {
        let i = v->Pair_0.0.0 as int;
        assert(p2[i] == p2.take(p1.len() as int)[i]);
        lemma_chain_grows(p1, p2, inner(p1, v->Pair_0).cdr.0, items.drop_first(), tail);
    }
}

/// The cdr ending a chain survives the heap growing.
proof fn lemma_last_cdr_grows(p1: PairHeap, p2: PairHeap, v: Value, items: Seq<SourceValue>, tail: Value)
    requires
        extends(p1, p2),
        is_chain(p1, v, items, tail),
        items.len() >= 1,
    ensures
        last_cdr(p2, v, items.len()) == last_cdr(p1, v, items.len()),
    decreases items.len(),
{
    let i = v->Pair_0.0.0 as int;
    assert(p2[i] == p2.take(p1.len() as int)[i]);
    if items.len() > 1 {
        lemma_last_cdr_grows(p1, p2, inner(p1, v->Pair_0).cdr.0, items.drop_first(), tail);
    }
}

/// What a value reads as survives the heaps growing.
proof fn lemma_denotes_grows(
    p1: PairHeap,
    n1: Seq<Seq<char>>,
    s1: Seq<Seq<char>>,
    p2: PairHeap,
    n2: Seq<Seq<char>>,
    s2: Seq<Seq<char>>,
    text: Seq<char>,
    v: SourceValue,
    f: Form,
)
    requires
        extends(p1, p2),
        extends(n1, n2),
        extends(s1, s2),
        denotes(p1, n1, s1, text, v, f),
    ensures
        denotes(p2, n2, s2, text, v, f),
    decreases f,
{
    match f {
        Form::Leaf(t) => {
            match v.0 {
                Value::Symbol(name) => {
                    assert(n2[name.id()] == n2.take(n1.len() as int)[name.id()]);
                },
                Value::String(s) => {
                    assert(s2[s.0 as int] == s2.take(s1.len() as int)[s.0 as int]);
                },
                _ => {},
            }
        },
        Form::List(items, _) => {
            let vals = choose|vals: Seq<SourceValue>|
                #[trigger] is_chain(p1, v.0, vals, Value::EmptyList) && vals.len() == items.len() && forall|i: int|
                    0 <= i < items.len() ==> denotes(p1, n1, s1, text, vals[i], items[i]);
            lemma_chain_grows(p1, p2, v.0, vals, Value::EmptyList);
            assert forall|i: int| 0 <= i < items.len() implies denotes(p2, n2, s2, text, vals[i], items[i]) by {
                lemma_denotes_grows(p1, n1, s1, p2, n2, s2, text, vals[i], items[i]);
            }
        },
        Form::Dotted(items, tail, _) => {
            let vals = choose|vals: Seq<SourceValue>|
                #[trigger] is_chain(p1, v.0, vals, last_cdr(p1, v.0, items.len()).0) && vals.len() == items.len()
                    && forall|i: int| 0 <= i < items.len() ==> denotes(p1, n1, s1, text, vals[i], items[i]);
            let end = last_cdr(p1, v.0, items.len());
            lemma_chain_grows(p1, p2, v.0, vals, end.0);
            lemma_last_cdr_grows(p1, p2, v.0, vals, end.0);
            lemma_denotes_grows(p1, n1, s1, p2, n2, s2, text, end, *tail);
            assert forall|i: int| 0 <= i < items.len() implies denotes(p2, n2, s2, text, vals[i], items[i]) by {
                lemma_denotes_grows(p1, n1, s1, p2, n2, s2, text, vals[i], items[i]);
            }
        },
        Form::Quote(g, apostrophe) => {
            let (quote, quoted) = choose|quote: InternedString, quoted: SourceValue|
                #[trigger] is_quote_form(p1, v.0, quote, apostrophe, quoted) && 0 <= quote.id() < n1.len()
                    && n1[quote.id()] == seq!['q', 'u', 'o', 't', 'e'] && denotes(p1, n1, s1, text, quoted, *g);
            lemma_chain_grows(
                p1,
                p2,
                v.0,
                seq![SourceMapped(Value::Symbol(quote), apostrophe), quoted],
                Value::EmptyList,
            );
            assert(n2[quote.id()] == n2.take(n1.len() as int)[quote.id()]);
            lemma_denotes_grows(p1, n1, s1, p2, n2, s2, text, quoted, *g);
            assert(is_quote_form(p2, v.0, quote, apostrophe, quoted));
        },
    }
}

/// Reads expressions from source text, one at a time.
pub struct Parser<'a> {
    string: &'a str,
    tokenizer: Tokenizer,
}

impl<'a> Parser<'a> {
    pub closed spec fn wf(&self) -> bool {
        &&& self.tokenizer.wf()
        &&& 0 <= self.tokenizer.pos()
        &&& self.string@.len() <= usize::MAX
        &&& self.tokenizer.text() == self.string@
        &&& self.tokenizer.pos() <= self.tokenizer.text().len()
    }

    /// The text being parsed.
    pub closed spec fn text(&self) -> Seq<char> {
        self.string@
    }

    /// How far the text has been read.
    pub closed spec fn pos(&self) -> int {
        self.tokenizer.pos()
    }

    pub closed spec fn source_id(&self) -> Option<SourceId> {
        self.tokenizer.source_id()
    }

    pub fn new(string: &'a str, tokenizer: Tokenizer) -> (res: Self)
        requires
            tokenizer.wf(),
            tokenizer.text() == string@,
            0 <= tokenizer.pos() <= string@.len(),
            string@.len() <= usize::MAX,
        ensures
            res.wf(),
            res.text() == string@,
            res.pos() == tokenizer.pos(),
            res.source_id() == tokenizer.source_id(),
    {
        Parser { string, tokenizer }
    }

    fn next_token(&mut self) -> (res: Option<Result<Token, TokenizeError>>)
        requires
            old(self).wf(),
        ensures
            final(self).wf(),
            final(self).text() == old(self).text(),
            final(self).source_id() == old(self).source_id(),
            old(self).pos() <= final(self).pos(),
            res matches Some(Ok(t)) ==> old(self).pos() <= t.1.0 < t.1.1 == final(self).pos()
                <= final(self).text().len() && t.1.2 == old(self).source_id(),
            res matches Some(Err(e)) ==> e.1.0 <= e.1.1 <= final(self).text().len() && e.1.2
                == old(self).source_id(),
            final(self).pos() <= final(self).text().len(),
            res is None <==> spec_next_token(old(self).text(), old(self).pos()) is None,
            final(self).pos() == spec_next_pos(old(self).text(), old(self).pos()),
            token_after(old(self).text(), old(self).source_id(), old(self).pos()) matches Some(Ok(t)) ==> res == Some(
                Ok::<Token, TokenizeError>(t),
            ),
            token_after(old(self).text(), old(self).source_id(), old(self).pos()) matches Some(Err(e)) ==> (res matches Some(
                Err(te),
            ) && parse_error_from(te) == e),
    {
        self.tokenizer.next()
    }

    fn expect_token(&mut self) -> (res: Result<Token, ParseError>)
        requires
            old(self).wf(),
        ensures
            final(self).wf(),
            final(self).text() == old(self).text(),
            final(self).source_id() == old(self).source_id(),
            old(self).pos() <= final(self).pos(),
            final(self).pos() <= final(self).text().len(),
            res matches Ok(t) ==> old(self).pos() <= t.1.0 < t.1.1 == final(self).pos()
                <= final(self).text().len() && t.1.2 == old(self).source_id(),
            final(self).pos() == spec_next_pos(old(self).text(), old(self).pos()),
            res == match token_after(old(self).text(), old(self).source_id(), old(self).pos()) {
                None => Err(stuck(spec_next_pos(old(self).text(), old(self).pos()), old(self).source_id())),
                Some(r) => r,
            },
    {
        match self.next_token() {
            Some(Ok(token)) => Ok(token),
            Some(Err(tokenize_error)) => Err(parse_error_from_tokenize_error(tokenize_error)),
            None => Err(
                ParseErrorType::UnexpectedEndOfFile.source_mapped(
                    self.tokenizer.curr_pos_as_source_range(),
                ),
            ),
        }
    }

    fn expect_token_type(&mut self, token_type: TokenType) -> (res: Result<Token, ParseError>)
        requires
            old(self).wf(),
        ensures
            final(self).wf(),
            final(self).text() == old(self).text(),
            final(self).source_id() == old(self).source_id(),
            old(self).pos() <= final(self).pos(),
            final(self).pos() <= final(self).text().len(),
            res matches Ok(t) ==> t.0 == token_type && t.1.2 == old(self).source_id() && t.1.1 == final(self).pos(),
            final(self).pos() == spec_next_pos(old(self).text(), old(self).pos()),
            res == match token_after(old(self).text(), old(self).source_id(), old(self).pos()) {
                None => Err(stuck(spec_next_pos(old(self).text(), old(self).pos()), old(self).source_id())),
                Some(Err(e)) => Err(e),
                Some(Ok(t)) => if t.0 == token_type {
                    Ok(t)
                } else {
                    Err(SourceMapped(ParseErrorType::Expected(token_type), t.1))
                },
            },
    {
        let token = self.expect_token()?;
        if token.0 != token_type {
            return Err(ParseErrorType::Expected(token_type).source_mapped(token.1));
        }
        Ok(token)
    }

    fn expect_expression<N: NumberSystem>(
        &mut self,
        interner: &mut StringInterner,
        pairs: &mut PairManager,
        strings: &mut StringStore,
        numbers: &N,
    ) -> (res: Result<SourceValue, ParseError>)
        requires
            old(self).wf(),
        ensures
            final(self).wf(),
            final(self).text() == old(self).text(),
            final(self).source_id() == old(self).source_id(),
            old(self).pos() <= final(self).pos(),
            final(self).pos() <= final(self).text().len(),
            res matches Ok(v) ==> v.1.2 == old(self).source_id() && v.1.1 <= final(self).pos(),
            extends(old(interner)@, final(interner)@),
            extends(old(pairs)@, final(pairs)@),
            extends(old(strings)@, final(strings)@),
            number_error_within(
                read_expr(old(self).text(), old(self).source_id(), old(self).pos()),
                res,
                old(self).text(),
                old(self).source_id(),
                old(self).pos(),
            ),
            reads_as(
                read_expr(old(self).text(), old(self).source_id(), old(self).pos()),
                res,
                final(self).pos(),
                final(pairs)@,
                final(interner)@,
                final(strings)@,
                old(self).text(),
            ),
        decreases old(self).text().len() - old(self).pos(), 0int,
    {
        proof {
            lemma_extends_refl(interner@);
            lemma_extends_refl(pairs@);
            lemma_extends_refl(strings@);
        }
        let token = self.expect_token()?;
        self.parse_token(token, interner, pairs, strings, numbers)
    }

    /// Parses the expression that starts with `token`: an atom is read from
    /// the token's text, a list up to its closing parenthesis (with a dot
    /// before its final cdr, if any), and a quoted expression as
    /// `(quote expression)`.
    #[verifier::spinoff_prover]
    fn parse_token<N: NumberSystem>(
        &mut self,
        token: Token,
        interner: &mut StringInterner,
        pairs: &mut PairManager,
        strings: &mut StringStore,
        numbers: &N,
    ) -> (res: Result<SourceValue, ParseError>)
        requires
            old(self).wf(),
            token.1.0 <= token.1.1 <= old(self).pos(),
            token.1.2 == old(self).source_id(),
            exists|q: int| #[trigger] token_after(old(self).text(), old(self).source_id(), q) == Some(Ok::<Token, ParseError>(token)),
        ensures
            number_error_within(
                read_after(old(self).text(), old(self).source_id(), token, old(self).pos()),
                res,
                old(self).text(),
                old(self).source_id(),
                token.1.0 as int,
            ),
            final(self).wf(),
            final(self).text() == old(self).text(),
            final(self).source_id() == old(self).source_id(),
            old(self).pos() <= final(self).pos(),
            final(self).pos() <= final(self).text().len(),
            res matches Ok(v) ==> v.1.2 == old(self).source_id() && v.1.1 <= final(self).pos(),
            extends(old(interner)@, final(interner)@),
            extends(old(pairs)@, final(pairs)@),
            extends(old(strings)@, final(strings)@),
            token.0 == TokenType::RightParen ==> res == Err::<SourceValue, ParseError>(
                SourceMapped(ParseErrorType::Unexpected(TokenType::RightParen), token.1),
            ),
            token.0 == TokenType::Dot ==> res == Err::<SourceValue, ParseError>(
                SourceMapped(ParseErrorType::Unexpected(TokenType::Dot), token.1),
            ),
            token.0 matches TokenType::Boolean(b) ==> res == Ok::<SourceValue, ParseError>(
                SourceMapped(Value::Boolean(b), token.1),
            ),
            token.0 == TokenType::Undefined ==> res == Ok::<SourceValue, ParseError>(
                SourceMapped(Value::Undefined, token.1),
            ),
            token.0 == TokenType::Identifier ==> (res matches Ok(v) && v.1 == token.1 && (v.0 matches Value::Symbol(
                name,
            ) && 0 <= name.id() < final(interner)@.len() && final(interner)@[name.id()]
                == old(self).text().subrange(token.1.0 as int, token.1.1 as int))),
            token.0 == TokenType::String ==> res == Ok::<SourceValue, ParseError>(
                SourceMapped(Value::String(MutableString(old(strings)@.len() as usize)), token.1),
            ) && final(strings)@ == old(strings)@.push(
                spec_unescape(old(self).text().subrange(token.1.0 as int, token.1.1 as int)),
            ),
            token.0 == TokenType::Number ==> (res matches Ok(v) ==> v.1 == token.1 && v.0 is Number) && (
            res is Err ==> res == Err::<SourceValue, ParseError>(
                SourceMapped(ParseErrorType::InvalidNumber, token.1),
            )),
            reads_as(
                read_after(old(self).text(), old(self).source_id(), token, old(self).pos()),
                res,
                final(self).pos(),
                final(pairs)@,
                final(interner)@,
                final(strings)@,
                old(self).text(),
            ),
        decreases old(self).text().len() - old(self).pos(), 1int,
    {
        proof {
            lemma_extends_refl(interner@);
            lemma_extends_refl(pairs@);
            lemma_extends_refl(strings@);
        }
        match token.0 {
            TokenType::LeftParen => {
                let ghost text = old(self).text();
                let ghost source = old(self).source_id();
                let ghost overall = read_after(text, source, token, old(self).pos());
                let ghost mut forms: Seq<Form> = Seq::empty();
                let mut expressions: Vec<SourceValue> = Vec::new();
                loop
                    invariant
                        self.wf(),
                        self.text() == text,
                        text == old(self).text(),
                        source == old(self).source_id(),
                        self.source_id() == old(self).source_id(),
                        old(self).pos() <= self.pos(),
                        self.pos() <= self.text().len(),
                        token.1.2 == old(self).source_id(),
                        token.1.0 <= token.1.1 <= self.pos(),
                        token.0 == TokenType::LeftParen,
                        extends(old(interner)@, interner@),
                        extends(old(pairs)@, pairs@),
                        extends(old(strings)@, strings@),
                        overall == read_after(text, source, token, old(self).pos()),
                        read_list(text, source, token, self.pos(), forms) == overall,
                        expressions@.len() == forms.len(),
                        forall|k: int|
                            0 <= k < forms.len() ==> denotes(pairs@, interner@, strings@, text, #[trigger] expressions@[k], forms[k]),
                    decreases self.text().len() - self.pos(),
                {
                    let ghost pairs_before = pairs@;
                    let ghost interner_before = interner@;
                    let ghost strings_before = strings@;
                    let ghost pos_before = self.pos();
                    proof {
                        crate::tokenizer::lemma_next_token_progress(text, pos_before);
                        lemma_read_list_keeps(text, source, token, pos_before, forms);
                    }
                    match self.next_token() {
                        Some(Ok(nested_token)) => {
                            if nested_token.0 == TokenType::RightParen {
                                let ghost items = expressions@;
                                let list = pairs.vec_to_list(expressions);
                                proof {
                                    lemma_extends_trans(old(pairs)@, pairs_before, pairs@);
                                    assert(is_chain(pairs@, list, items, Value::EmptyList));
                                    assert forall|k: int| 0 <= k < forms.len() implies denotes(
                                        pairs@,
                                        interner@,
                                        strings@,
                                        text,
                                        items[k],
                                        forms[k],
                                    ) by {
                                        lemma_extends_refl(interner@);
                                        lemma_extends_refl(strings@);
                                        assert(denotes(pairs_before, interner@, strings@, text, items[k], forms[k]));
                                        lemma_denotes_grows(
                                            pairs_before,
                                            interner@,
                                            strings@,
                                            pairs@,
                                            interner@,
                                            strings@,
                                            text,
                                            items[k],
                                            forms[k],
                                        );
                                    }
                                }
                                return Ok(list.source_mapped(token.extend_range(&nested_token.1)));
                            } else if nested_token.0 == TokenType::Dot {
                                if expressions.len() == 0 {
                                    return Err(
                                        ParseErrorType::Unexpected(TokenType::Dot).source_mapped(
                                            nested_token.1,
                                        ),
                                    );
                                }
                                let parsed = self.expect_expression(interner, pairs, strings, numbers);
                                proof {
                                    lemma_read_expr_stops(text, source, nested_token.1.1 as int);
                                    if let Ok((g, end)) = read_expr(text, source, nested_token.1.1 as int) {
                                        crate::tokenizer::lemma_next_token_progress(text, end);
                                    }
                                    lemma_extends_trans(old(pairs)@, pairs_before, pairs@);
                                    lemma_extends_trans(old(interner)@, interner_before, interner@);
                                    lemma_extends_trans(old(strings)@, strings_before, strings@);
                                }
                                let final_value = parsed?;
                                let ghost tail_form = read_expr(text, source, nested_token.1.1 as int)->Ok_0.0;
                                let ghost end_pos = self.pos();
                                let right_paren = self.expect_token_type(TokenType::RightParen)?;
                                let ghost pairs_mid = pairs@;
                                let ghost cars = expressions@;
                                let pair = pairs.vec_to_pair(expressions, final_value);
                                proof {
                                    lemma_extends_trans(old(pairs)@, pairs_mid, pairs@);
                                    lemma_extends_refl(interner@);
                                    lemma_extends_refl(strings@);
                                    lemma_denotes_grows(
                                        pairs_mid,
                                        interner@,
                                        strings@,
                                        pairs@,
                                        interner@,
                                        strings@,
                                        text,
                                        final_value,
                                        tail_form,
                                    );
                                    assert forall|k: int| 0 <= k < forms.len() implies denotes(
                                        pairs@,
                                        interner@,
                                        strings@,
                                        text,
                                        cars[k],
                                        forms[k],
                                    ) by {
                                        assert(denotes(pairs_before, interner_before, strings_before, text, cars[k], forms[k]));
                                        lemma_extends_trans(pairs_before, pairs_mid, pairs@);
                                        lemma_denotes_grows(
                                            pairs_before,
                                            interner_before,
                                            strings_before,
                                            pairs@,
                                            interner@,
                                            strings@,
                                            text,
                                            cars[k],
                                            forms[k],
                                        );
                                    }
                                    assert(is_chain(pairs@, pair, cars, final_value.0));
                                    assert(is_chain(pairs@, pair, cars, last_cdr(pairs@, pair, forms.len()).0));
                                    assert(token_after(text, source, pos_before) == Some(Ok::<Token, ParseError>(nested_token)));
                                    assert(token_after(text, source, end_pos) == Some(Ok::<Token, ParseError>(right_paren)));
                                    assert(overall == Ok::<(Form, int), ParseError>(
                                        (Form::Dotted(forms, Box::new(tail_form), right_paren.1), right_paren.1.1 as int),
                                    ));
                                    let v = SourceMapped(pair, right_paren.1);
                                    let df = Form::Dotted(forms, Box::new(tail_form), right_paren.1);
                                    assert(last_cdr(pairs@, pair, forms.len()) == final_value);
                                    assert(denotes(pairs@, interner@, strings@, text, last_cdr(pairs@, pair, forms.len()), tail_form));
                                    lemma_denotes_dotted(pairs@, interner@, strings@, text, v, cars, forms, tail_form, right_paren.1);
                                    assert(self.pos() == right_paren.1.1);
                                    assert(reads_as(overall, Ok::<SourceValue, ParseError>(v), self.pos(), pairs@, interner@, strings@, text));
                                }
                                return Ok(pair.source_mapped(right_paren.1));
                            } else {
                                let parsed = self.parse_token(nested_token, interner, pairs, strings, numbers);
                                proof {
                                    lemma_extends_trans(old(pairs)@, pairs_before, pairs@);
                                    lemma_extends_trans(old(interner)@, interner_before, interner@);
                                    lemma_extends_trans(old(strings)@, strings_before, strings@);
                                    lemma_read_after_stops(text, source, nested_token, nested_token.1.1 as int);
                                    if let Ok((g, end)) = read_after(text, source, nested_token, nested_token.1.1 as int) {
                                        if !(end < nested_token.1.1 || end > text.len()) {
                                            lemma_read_list_keeps(text, source, token, end, forms.push(g));
                                            assert(forms.push(g)[forms.len() as int] == g);
                                            lemma_read_list_stops(text, source, token, end, forms.push(g));
                                        }
                                    }
                                }
                                let value = parsed?;
                                proof {
                                    let g = read_after(text, source, nested_token, nested_token.1.1 as int)->Ok_0.0;
                                    assert forall|k: int| 0 <= k < forms.len() implies denotes(
                                        pairs@,
                                        interner@,
                                        strings@,
                                        text,
                                        expressions@[k],
                                        forms[k],
                                    ) by {
                                        lemma_denotes_grows(
                                            pairs_before,
                                            interner_before,
                                            strings_before,
                                            pairs@,
                                            interner@,
                                            strings@,
                                            text,
                                            expressions@[k],
                                            forms[k],
                                        );
                                    }
                                    forms = forms.push(g);
                                }
                                expressions.push(value);
                            }
                        },
                        Some(Err(tokenize_error)) => {
                            return Err(parse_error_from_tokenize_error(tokenize_error));
                        },
                        None => {
                            return Err(ParseErrorType::MissingRightParen.source_mapped(token.1));
                        },
                    }
                }
            },
            TokenType::RightParen => Err(
                ParseErrorType::Unexpected(TokenType::RightParen).source_mapped(token.1),
            ),
            TokenType::Apostrophe => {
                let quoted_expression = self.expect_expression(interner, pairs, strings, numbers)?;
                let end_range = quoted_expression.1;
                let ghost interner_mid = interner@;
                let quote = interner.intern("quote");
                let mut expressions: Vec<SourceValue> = Vec::new();
                expressions.push(Value::Symbol(quote).source_mapped(token.1));
                expressions.push(quoted_expression);
                let ghost pairs_mid = pairs@;
                let list = pairs.vec_to_list(expressions);
                proof {
                    reveal_strlit("quote");
                    lemma_extends_trans(old(pairs)@, pairs_mid, pairs@);
                    lemma_intern_extends(interner_mid, interner@, "quote"@);
                    lemma_extends_trans(old(interner)@, interner_mid, interner@);
                    assert(expressions@ =~= seq![SourceMapped(Value::Symbol(quote), token.1), quoted_expression]);
                    assert(is_quote_form(pairs@, list, quote, token.1, quoted_expression));
                    assert("quote"@ =~= seq!['q', 'u', 'o', 't', 'e']);
                    let g = read_expr(old(self).text(), old(self).source_id(), old(self).pos())->Ok_0.0;
                    lemma_extends_refl(strings@);
                    lemma_denotes_grows(
                        pairs_mid,
                        interner_mid,
                        strings@,
                        pairs@,
                        interner@,
                        strings@,
                        old(self).text(),
                        quoted_expression,
                        g,
                    );
                    let v = SourceMapped(list, (token.1.0, end_range.1, token.1.2));
                    assert(v.1 == form_range(Form::Quote(Box::new(g), token.1)));
                    assert(interner@[quote.id()] == seq!['q', 'u', 'o', 't', 'e']);
                    assert(denotes(pairs@, interner@, strings@, old(self).text(), quoted_expression, g));
                    assert(denotes(pairs@, interner@, strings@, old(self).text(), v, Form::Quote(Box::new(g), token.1)));
                }
                Ok(list.source_mapped(token.extend_range(&end_range)))
            },
            TokenType::Dot => Err(ParseErrorType::Unexpected(TokenType::Dot).source_mapped(token.1)),
            TokenType::Boolean(boolean) => Ok(Value::Boolean(boolean).source_mapped(token.1)),
            TokenType::Undefined => Ok(Value::Undefined.source_mapped(token.1)),
            TokenType::Number => {
                let text = token.source(self.string);
                match numbers.parse_number(text) {
                    Some(number) => Ok(Value::Number(number).source_mapped(token.1)),
                    None => Err(ParseErrorType::InvalidNumber.source_mapped(token.1)),
                }
            },
            TokenType::String => {
                let text = token.source(self.string);
                let string = self.parse_string(text, strings);
                proof {
                    assert(strings@.take(old(strings)@.len() as int) =~= old(strings)@);
                }
                Ok(Value::String(string).source_mapped(token.1))
            },
            TokenType::Identifier => {
                let text = token.source(self.string);
                let ghost before = interner@;
                let string = interner.intern(text);
                proof {
                    lemma_intern_extends(before, interner@, text@);
                }
                Ok(Value::Symbol(string).source_mapped(token.1))
            },
        }
    }

    /// Makes a string object from a string literal's text.
    fn parse_string(&self, repr: &str, strings: &mut StringStore) -> (res: MutableString)
        ensures
            res.0 == old(strings)@.len(),
            final(strings)@ == old(strings)@.push(spec_unescape(repr@)),
    {
        MutableString::from_tokenized_source(strings, repr)
    }

    /// Reads the next expression, or returns `None` at the end of the text.
    pub fn next<N: NumberSystem>(
        &mut self,
        interner: &mut StringInterner,
        pairs: &mut PairManager,
        strings: &mut StringStore,
        numbers: &N,
    ) -> (res: Option<Result<SourceValue, ParseError>>)
        requires
            old(self).wf(),
        ensures
            final(self).wf(),
            final(self).text() == old(self).text(),
            final(self).source_id() == old(self).source_id(),
            old(self).pos() <= final(self).pos(),
            res matches Some(Ok(v)) ==> old(self).pos() < final(self).pos() && v.1.2 == old(self).source_id(),
            final(self).pos() <= final(self).text().len(),
            extends(old(interner)@, final(interner)@),
            extends(old(pairs)@, final(pairs)@),
            extends(old(strings)@, final(strings)@),
            token_after(old(self).text(), old(self).source_id(), old(self).pos()) matches Some(Ok(t)) ==> t.1.1
                <= final(self).pos(),
            token_after(old(self).text(), old(self).source_id(), old(self).pos()) matches Some(Ok(t)) ==> (res matches Some(r)
                && number_error_within(
                read_after(old(self).text(), old(self).source_id(), t, t.1.1 as int),
                r,
                old(self).text(),
                old(self).source_id(),
                old(self).pos(),
            )),
            match token_after(old(self).text(), old(self).source_id(), old(self).pos()) {
                None => res is None && final(self).pos() == spec_next_pos(old(self).text(), old(self).pos()),
                Some(Err(e)) => res == Some(Err::<SourceValue, ParseError>(e)),
                Some(Ok(t)) => res matches Some(r) && reads_as(
                    read_after(old(self).text(), old(self).source_id(), t, t.1.1 as int),
                    r,
                    final(self).pos(),
                    final(pairs)@,
                    final(interner)@,
                    final(strings)@,
                    old(self).text(),
                ),
            },
    {
        proof {
            lemma_extends_refl(interner@);
            lemma_extends_refl(pairs@);
            lemma_extends_refl(strings@);
        }
        match self.next_token() {
            Some(Ok(token)) => Some(self.parse_token(token, interner, pairs, strings, numbers)),
            Some(Err(tokenize_error)) => Some(Err(parse_error_from_tokenize_error(tokenize_error))),
            None => None,
        }
    }

    /// Reads every expression of the text, stopping at the first error.
    #[verifier::spinoff_prover]
    #[verifier::rlimit(50)]
    pub fn parse_all<N: NumberSystem>(
        self,
        interner: &mut StringInterner,
        pairs: &mut PairManager,
        strings: &mut StringStore,
        numbers: &N,
    ) -> (res: Result<Vec<SourceValue>, ParseError>)
        requires
            self.wf(),
        ensures
            res matches Ok(values) ==> forall|i: int| 0 <= i < values@.len() ==> (#[trigger] values@[i]).1.2 == self.source_id(),
            extends(old(interner)@, final(interner)@),
            extends(old(pairs)@, final(pairs)@),
            extends(old(strings)@, final(strings)@),
            reads_all_as(
                read_all(self.text(), self.source_id(), self.pos()),
                res,
                final(pairs)@,
                final(interner)@,
                final(strings)@,
                self.text(),
            ),
            number_error_within_all(read_all(self.text(), self.source_id(), self.pos()), res, self.text(), self.source_id(), self.pos()),
    {
        let ghost text = self.text();
        let ghost source = self.source_id();
        let ghost overall = read_all(text, source, self.pos());
        let ghost mut forms: Seq<Form> = Seq::empty();
        proof {
            lemma_extends_refl(interner@);
            lemma_extends_refl(pairs@);
            lemma_extends_refl(strings@);
            assert(forms + Seq::<Form>::empty() =~= forms);
        }
        let mut parser = self;
        let mut values: Vec<SourceValue> = Vec::new();
        loop
            invariant
                parser.wf(),
                parser.pos() <= parser.text().len(),
                parser.text() == text,
                parser.source_id() == source,
                self.pos() <= parser.pos(),
                text == self.text(),
                source == self.source_id(),
                overall == read_all(text, source, self.pos()),
                forall|i: int| 0 <= i < values@.len() ==> (#[trigger] values@[i]).1.2 == self.source_id(),
                extends(old(interner)@, interner@),
                extends(old(pairs)@, pairs@),
                extends(old(strings)@, strings@),
                values@.len() == forms.len(),
                forall|k: int| 0 <= k < forms.len() ==> denotes(pairs@, interner@, strings@, text, #[trigger] values@[k], forms[k]),
                overall == match read_all(text, source, parser.pos()) {
                    Ok(rest) => Ok(forms + rest),
                    Err(e) => Err::<Seq<Form>, ParseError>(e),
                },
            decreases parser.text().len() - parser.pos(),
        {
            let ghost pairs_before = pairs@;
            let ghost interner_before = interner@;
            let ghost strings_before = strings@;
            let ghost pos_before = parser.pos();
            proof {
                crate::tokenizer::lemma_next_token_progress(text, pos_before);
            }
            let next = parser.next(interner, pairs, strings, numbers);
            proof {
                lemma_extends_trans(old(pairs)@, pairs_before, pairs@);
                lemma_extends_trans(old(interner)@, interner_before, interner@);
                lemma_extends_trans(old(strings)@, strings_before, strings@);
            }
            match next {
                Some(Ok(value)) => {
                    proof {
                        let t = token_after(text, source, pos_before)->Some_0->Ok_0;
                        let g = read_after(text, source, t, t.1.1 as int)->Ok_0.0;
                        lemma_read_all_step(text, source, pos_before, t, g, parser.pos());
                        assert forall|k: int| 0 <= k < forms.len() implies denotes(
                            pairs@,
                            interner@,
                            strings@,
                            text,
                            values@[k],
                            forms[k],
                        ) by {
                            lemma_denotes_grows(
                                pairs_before,
                                interner_before,
                                strings_before,
                                pairs@,
                                interner@,
                                strings@,
                                text,
                                values@[k],
                                forms[k],
                            );
                        }
                        if let Ok(rest) = read_all(text, source, parser.pos()) {
                            assert(forms.push(g) + rest =~= forms + (seq![g] + rest));
                        }
                        forms = forms.push(g);
                    }
                    values.push(value);
                },
                Some(Err(err)) => {
                    proof {
                        lemma_read_all_failed(text, source, pos_before, err);
                        crate::tokenizer::lemma_next_token_progress(text, pos_before);
                        if let Some(Ok(t)) = token_after(text, source, pos_before) {
                            lemma_read_after_stops(text, source, t, t.1.1 as int);
                            if let Ok((g, end)) = read_after(text, source, t, t.1.1 as int) {
                                if !(end < t.1.1 || end > text.len()) {
                                    lemma_read_all_stops(text, source, end);
                                }
                            }
                        }
                        if let Ok(rest) = read_all(text, source, pos_before) {
                            let all = forms + rest;
                            assert(overall == Ok::<Seq<Form>, ParseError>(all));
                            assert(all[forms.len() as int] == rest[0]);
                            assert(has_number(all[forms.len() as int]));
                            lemma_reads_all_number_failed(all, err, forms.len() as int, pairs@, interner@, strings@, text);
                        } else {
                            let e = read_all(text, source, pos_before)->Err_0;
                            assert(overall == Err::<Seq<Form>, ParseError>(e));
                            assert(err == e || err.0 == ParseErrorType::InvalidNumber);
                        }
                    }
                    return Err(err);
                },
                None => {
                    proof {
                        assert(forms + Seq::<Form>::empty() =~= forms);
                        assert(read_all(text, source, pos_before) == Ok::<Seq<Form>, ParseError>(Seq::empty()));
                        assert(overall == Ok::<Seq<Form>, ParseError>(forms));
                        assert forall|k: int| 0 <= k < forms.len() implies denotes(
                            pairs@,
                            interner@,
                            strings@,
                            text,
                            values@[k],
                            forms[k],
                        ) by {
                            lemma_denotes_grows(
                                pairs_before,
                                interner_before,
                                strings_before,
                                pairs@,
                                interner@,
                                strings@,
                                text,
                                values@[k],
                                forms[k],
                            );
                        }
                    }
                    return Ok(values);
                },
            }
        }
    }
}

/// Parses all of `code` into values.
pub fn parse<N: NumberSystem>(
    code: &str,
    interner: &mut StringInterner,
    pairs: &mut PairManager,
    strings: &mut StringStore,
    numbers: &N,
    source: Option<SourceId>,
) -> (res: Result<Vec<SourceValue>, ParseError>)
    ensures
        res matches Ok(values) ==> forall|i: int| 0 <= i < values@.len() ==> (#[trigger] values@[i]).1.2 == source,
        extends(old(interner)@, final(interner)@),
        extends(old(pairs)@, final(pairs)@),
        extends(old(strings)@, final(strings)@),
        reads_all_as(read_all(code@, source, 0), res, final(pairs)@, final(interner)@, final(strings)@, code@),
        number_error_within_all(read_all(code@, source, 0), res, code@, source, 0),
{
    let parser = Parser::new(code, Tokenizer::new(code, source));
    parser.parse_all(interner, pairs, strings, numbers)
}

} // verus!
