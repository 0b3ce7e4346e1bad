use vstd::prelude::*;

use crate::source_mapped::{SourceMapped, SourceRange};
use crate::source_mapper::SourceId;
use crate::text::{is_numeric, is_whitespace, spec_is_numeric, spec_is_whitespace, str_to_chars};

verus! {

/// The kinds of token that the tokenizer recognizes.
#[derive(Debug, Clone, Copy, PartialEq, Eq, Structural)]
pub enum TokenType {
    LeftParen,
    RightParen,
    Number,
    Boolean(bool),
    Identifier,
    Dot,
    Apostrophe,
    String,
    Undefined,
}

pub type Token = SourceMapped<TokenType>;

/// The ways in which tokenizing can fail.
#[derive(Debug, Clone, Copy, PartialEq, Eq, Structural)]
pub enum TokenizeErrorType {
    UnexpectedCharacter,
    UnterminatedString,
    UnsupportedEscapeSequence,
}

pub type TokenizeError = SourceMapped<TokenizeErrorType>;

/// What a token scanner produces: a token type or an error.
pub type Scanned = Result<TokenType, TokenizeErrorType>;

/// A class of characters that the tokenizer accepts one at a time.
#[derive(Clone, Copy)]
pub enum CharClass {
    Any,
    Ident,
    Whitespace,
    Numeric,
    NotNewline,
    Sign,
    EscapeTarget,
    Exactly(char),
}

/// Characters that may appear in identifiers (and in the text of numbers).
pub open spec fn spec_is_ident_char(c: char) -> bool {
    &&& !spec_is_whitespace(c)
    &&& c != '('
    &&& c != ')'
    &&& c != ';'
    &&& c != '#'
    &&& c != '\''
}

pub open spec fn class_matches(class: CharClass, c: char) -> bool {
    match class {
        CharClass::Any => true,
        CharClass::Ident => spec_is_ident_char(c),
        CharClass::Whitespace => spec_is_whitespace(c),
        CharClass::Numeric => spec_is_numeric(c),
        CharClass::NotNewline => c != '\n',
        CharClass::Sign => c == '+' || c == '-',
        CharClass::EscapeTarget => c == '\\' || c == '"' || c == 'n',
        CharClass::Exactly(d) => c == d,
    }
}

/// Whether position `p` of `s` holds a character of class `class`.
pub open spec fn at(s: Seq<char>, p: int, class: CharClass) -> bool {
    0 <= p < s.len() && class_matches(class, s[p])
}

/// The first position at or after `p` that does not hold a character of `class`.
pub open spec fn skip_class(s: Seq<char>, p: int, class: CharClass) -> int
    decreases s.len() - p,
{
    if at(s, p, class) {
        skip_class(s, p + 1, class)
    } else {
        p
    }
}

/// The position at which the next token starts: whitespace and `;` comments
/// (which run up to the end of the line) are skipped.
pub open spec fn skip_atmosphere(s: Seq<char>, p: int, in_comment: bool) -> int
    decreases s.len() - p, if in_comment { 1int } else { 0int },
{
    if p < 0 || p >= s.len() {
        p
    } else if in_comment {
        if s[p] == '\n' {
            skip_atmosphere(s, p, false)
        } else {
            skip_atmosphere(s, p + 1, true)
        }
    } else if spec_is_whitespace(s[p]) {
        skip_atmosphere(s, p + 1, false)
    } else if s[p] == ';' {
        skip_atmosphere(s, p + 1, true)
    } else {
        p
    }
}

/// Scans the rest of a string literal whose opening quote ends before `p`.
pub open spec fn scan_string(s: Seq<char>, p: int) -> (Scanned, int)
    decreases s.len() - p,
{
    if p < 0 || p >= s.len() {
        (Err(TokenizeErrorType::UnterminatedString), p)
    } else if s[p] == '\\' {
        if at(s, p + 1, CharClass::EscapeTarget) {
            scan_string(s, p + 2)
        } else {
            (Err(TokenizeErrorType::UnsupportedEscapeSequence), p + 1)
        }
    } else if s[p] == '"' {
        (Ok(TokenType::String), p + 1)
    } else {
        scan_string(s, p + 1)
    }
}

/// Scans dots and numeric characters from `p`: the end position, how many dots
/// were seen and whether a numeric character was seen.
pub open spec fn scan_number_body(s: Seq<char>, p: int, decimals: nat, digit: bool) -> (
    int,
    nat,
    bool,
)
    decreases s.len() - p,
{
    if at(s, p, CharClass::Exactly('.')) {
        scan_number_body(s, p + 1, decimals + 1, digit)
    } else if at(s, p, CharClass::Numeric) {
        scan_number_body(s, p + 1, decimals, true)
    } else {
        (p, decimals, digit)
    }
}

/// A number, a lone dot, or an identifier that starts like a number, at `p`.
pub open spec fn scan_number(s: Seq<char>, p: int) -> Option<(Scanned, int)> {
    let sign = at(s, p, CharClass::Sign);
    let q = if sign { p + 1 } else { p };
    let (e, d, digit) = scan_number_body(s, q, 0, false);
    if digit && d <= 1 {
        Some((Ok(TokenType::Number), e))
    } else if d == 1 && !sign && !at(s, e, CharClass::Ident) {
        Some((Ok(TokenType::Dot), e))
    } else if e > p {
        Some((Ok(TokenType::Identifier), skip_class(s, e, CharClass::Ident)))
    } else {
        None
    }
}

/// The token that a `#` at `p` starts: `#t`, `#f` or `#!void`.
pub open spec fn scan_sharp(s: Seq<char>, p: int) -> (Scanned, int) {
    let e = skip_class(s, p + 1, CharClass::Ident);
    let word = s.subrange(p + 1, e);
    if word == seq!['t'] {
        (Ok(TokenType::Boolean(true)), e)
    } else if word == seq!['f'] {
        (Ok(TokenType::Boolean(false)), e)
    } else if word == seq!['!', 'v', 'o', 'i', 'd'] {
        (Ok(TokenType::Undefined), e)
    } else {
        (Err(TokenizeErrorType::UnexpectedCharacter), e)
    }
}

/// The token starting exactly at `p` (which holds no whitespace or comment):
/// what was scanned and where it ends.
pub open spec fn scan_token(s: Seq<char>, p: int) -> (Scanned, int)
    recommends
        0 <= p < s.len(),
{
    let c = s[p];
    if c == '(' {
        (Ok(TokenType::LeftParen), p + 1)
    } else if c == ')' {
        (Ok(TokenType::RightParen), p + 1)
    } else if c == '\'' {
        (Ok(TokenType::Apostrophe), p + 1)
    } else if c == '"' {
        scan_string(s, p + 1)
    } else if let Some(r) = scan_number(s, p) {
        r
    } else if c == '#' {
        scan_sharp(s, p)
    } else if !spec_is_numeric(c) && spec_is_ident_char(c) {
        (Ok(TokenType::Identifier), skip_class(s, p + 1, CharClass::Ident))
    } else {
        (Err(TokenizeErrorType::UnexpectedCharacter), p)
    }
}

/// The next token after position `pos`: `None` at the end of the text, else
/// what was scanned with its start and end position.
pub open spec fn spec_next_token(s: Seq<char>, pos: int) -> Option<(Scanned, int, int)> {
    let p = skip_atmosphere(s, pos, false);
    if p >= s.len() {
        None
    } else {
        let (r, e) = scan_token(s, p);
        Some((r, p, e))
    }
}

/// Where the tokenizer stands after the token that follows `pos`.
pub open spec fn spec_next_pos(s: Seq<char>, pos: int) -> int {
    match spec_next_token(s, pos) {
        None => skip_atmosphere(s, pos, false),
        Some((_, _, e)) => e,
    }
}

proof fn lemma_skip_class_bounds(s: Seq<char>, p: int, class: CharClass)
    requires
        0 <= p <= s.len(),
    ensures
        p <= skip_class(s, p, class) <= s.len(),
    decreases s.len() - p,
{
    if at(s, p, class) {
        lemma_skip_class_bounds(s, p + 1, class);
    }
}

proof fn lemma_skip_atmosphere_bounds(s: Seq<char>, p: int, in_comment: bool)
    requires
        0 <= p <= s.len(),
    ensures
        p <= skip_atmosphere(s, p, in_comment) <= s.len(),
    decreases s.len() - p, if in_comment { 1int } else { 0int },
{
    if p < s.len() {
        if in_comment {
            if s[p] == '\n' {
                lemma_skip_atmosphere_bounds(s, p, false);
            } else {
                lemma_skip_atmosphere_bounds(s, p + 1, true);
            }
        } else if spec_is_whitespace(s[p]) || s[p] == ';' {
            lemma_skip_atmosphere_bounds(s, p + 1, s[p] == ';' && !spec_is_whitespace(s[p]));
        }
    }
}

proof fn lemma_scan_string_bounds(s: Seq<char>, p: int)
    requires
        0 <= p <= s.len(),
    ensures
        p <= scan_string(s, p).1 <= s.len(),
        scan_string(s, p).0 is Ok ==> p < scan_string(s, p).1,
    decreases s.len() - p,
{
    if p < s.len() && s[p] == '\\' && at(s, p + 1, CharClass::EscapeTarget) {
        lemma_scan_string_bounds(s, p + 2);
    } else if p < s.len() && s[p] != '\\' && s[p] != '"' {
        lemma_scan_string_bounds(s, p + 1);
    }
}

proof fn lemma_scan_number_body_bounds(s: Seq<char>, p: int, decimals: nat, digit: bool)
    requires
        0 <= p <= s.len(),
    ensures
        ({
            let (e, d, dig) = scan_number_body(s, p, decimals, digit);
            &&& p <= e <= s.len()
            &&& d >= decimals
            &&& d - decimals <= e - p
            &&& (digit ==> dig)
            &&& (e == p ==> d == decimals && dig == digit)
        }),
    decreases s.len() - p,
{
    if at(s, p, CharClass::Exactly('.')) {
        lemma_scan_number_body_bounds(s, p + 1, decimals + 1, digit);
    } else if at(s, p, CharClass::Numeric) {
        lemma_scan_number_body_bounds(s, p + 1, decimals, true);
    }
}

/// Every token the tokenizer produces lies within the text, after the position
/// it started from, and every token that is not an error is non-empty.
pub proof fn lemma_next_token_progress(s: Seq<char>, pos: int)
    requires
        0 <= pos <= s.len(),
    ensures
        pos <= spec_next_pos(s, pos) <= s.len(),
        spec_next_token(s, pos) matches Some((r, start, end)) ==> {
            &&& pos <= start <= end <= s.len()
            &&& start < s.len()
            &&& (r is Ok ==> start < end)
        },
{
    lemma_skip_atmosphere_bounds(s, pos, false);
    let p = skip_atmosphere(s, pos, false);
    if p < s.len() {
        lemma_scan_string_bounds(s, p + 1);
        let sign = at(s, p, CharClass::Sign);
        let q = if sign { p + 1 } else { p };
        lemma_scan_number_body_bounds(s, q, 0, false);
        let (e, d, digit) = scan_number_body(s, q, 0, false);
        lemma_skip_class_bounds(s, e, CharClass::Ident);
        lemma_skip_class_bounds(s, p + 1, CharClass::Ident);
    }
}

/// Splits source text into tokens, one at a time.
pub struct Tokenizer {
    source: Option<SourceId>,
    chars: Vec<char>,
    curr_pos: usize,
}

impl Tokenizer {
    /// The text being tokenized.
    pub closed spec fn text(&self) -> Seq<char> {
        self.chars@
    }

    /// The position up to which the text has been consumed.
    pub closed spec fn pos(&self) -> int {
        self.curr_pos as int
    }

    /// The source that token ranges refer to.
    pub closed spec fn source_id(&self) -> Option<SourceId> {
        self.source
    }

    pub closed spec fn wf(&self) -> bool {
        self.curr_pos <= self.chars.len()
    }

    pub fn new(string: &str, source: Option<SourceId>) -> (res: Self)
        ensures
            res.wf(),
            res.text() == string@,
            res.text().len() <= usize::MAX,
            res.pos() == 0,
            res.source_id() == source,
    {
        Tokenizer { source, chars: str_to_chars(string), curr_pos: 0 }
    }

    pub fn curr_pos_as_source_range(&self) -> (res: SourceRange)
        ensures
            res == (self.pos() as usize, self.pos() as usize, self.source_id()),
    {
        (self.curr_pos, self.curr_pos, self.source)
    }

    fn is_at_end(&self) -> (res: bool)
        requires
            self.wf(),
        ensures
            res == (self.pos() >= self.text().len()),
    {
        self.curr_pos >= self.chars.len()
    }

    fn class_matches(class: CharClass, c: char) -> (res: bool)
        ensures
            res == class_matches(class, c),
    {
        match class {
            CharClass::Any => true,
            CharClass::Ident => is_ident_char(c),
            CharClass::Whitespace => is_whitespace(c),
            CharClass::Numeric => is_numeric(c),
            CharClass::NotNewline => c != '\n',
            CharClass::Sign => c == '+' || c == '-',
            CharClass::EscapeTarget => c == '\\' || c == '"' || c == 'n',
            CharClass::Exactly(d) => c == d,
        }
    }

    fn peek(&self, class: CharClass) -> (res: bool)
        requires
            self.wf(),
        ensures
            res == at(self.text(), self.pos(), class),
    {
        if self.curr_pos < self.chars.len() {
            Self::class_matches(class, self.chars[self.curr_pos])
        } else {
            false
        }
    }

    fn accept(&mut self, class: CharClass) -> (res: bool)
        requires
            old(self).wf(),
        ensures
            final(self).wf(),
            final(self).text() == old(self).text(),
            final(self).source_id() == old(self).source_id(),
            res == at(old(self).text(), old(self).pos(), class),
            final(self).pos() == if res { old(self).pos() + 1 } else { old(self).pos() },
    {
        if self.peek(class) {
            self.curr_pos = self.curr_pos + 1;
            true
        } else {
            false
        }
    }

    fn accept_char(&mut self, c: char) -> (res: bool)
        requires
            old(self).wf(),
        ensures
            final(self).wf(),
            final(self).text() == old(self).text(),
            final(self).source_id() == old(self).source_id(),
            res == at(old(self).text(), old(self).pos(), CharClass::Exactly(c)),
            final(self).pos() == if res { old(self).pos() + 1 } else { old(self).pos() },
    {
        self.accept(CharClass::Exactly(c))
    }

    fn chomp(&mut self)
        requires
            old(self).wf(),
        ensures
            final(self).wf(),
            final(self).text() == old(self).text(),
            final(self).source_id() == old(self).source_id(),
            final(self).pos() == if old(self).pos() < old(self).text().len() {
                old(self).pos() + 1
            } else {
                old(self).pos()
            },
    {
        self.accept(CharClass::Any);
    }

    fn chomp_while(&mut self, class: CharClass)
        requires
            old(self).wf(),
        ensures
            final(self).wf(),
            final(self).text() == old(self).text(),
            final(self).source_id() == old(self).source_id(),
            final(self).pos() == skip_class(old(self).text(), old(self).pos(), class),
    {
        while self.accept(class)
            invariant
                self.wf(),
                self.text() == old(self).text(),
                self.source_id() == old(self).source_id(),
                skip_class(self.text(), self.pos(), class) == skip_class(
                    old(self).text(),
                    old(self).pos(),
                    class,
                ),
            decreases self.text().len() - self.pos(),
        {
        }
    }

    fn chomp_whitespace(&mut self)
        requires
            old(self).wf(),
        ensures
            final(self).wf(),
            final(self).text() == old(self).text(),
            final(self).source_id() == old(self).source_id(),
            final(self).pos() == skip_class(old(self).text(), old(self).pos(), CharClass::Whitespace),
    {
        self.chomp_while(CharClass::Whitespace)
    }

    fn accept_comment(&mut self) -> (res: bool)
        requires
            old(self).wf(),
        ensures
            final(self).wf(),
            final(self).text() == old(self).text(),
            final(self).source_id() == old(self).source_id(),
            res == at(old(self).text(), old(self).pos(), CharClass::Exactly(';')),
            res ==> final(self).pos() == skip_class(
                old(self).text(),
                old(self).pos() + 1,
                CharClass::NotNewline,
            ),
            !res ==> final(self).pos() == old(self).pos(),
    {
        if self.accept_char(';') {
            self.chomp_while(CharClass::NotNewline);
            true
        } else {
            false
        }
    }

    fn skip_atmosphere(&mut self)
        requires
            old(self).wf(),
        ensures
            final(self).wf(),
            final(self).text() == old(self).text(),
            final(self).source_id() == old(self).source_id(),
            final(self).pos() == skip_atmosphere(old(self).text(), old(self).pos(), false),
    {
        let ghost s = self.text();
        let ghost target = skip_atmosphere(s, self.pos(), false);
        loop
            invariant
                self.wf(),
                self.text() == s,
                s == old(self).text(),
                target == skip_atmosphere(old(self).text(), old(self).pos(), false),
                self.source_id() == old(self).source_id(),
                skip_atmosphere(s, self.pos(), false) == target,
            decreases s.len() - self.pos(),
        {
            let ghost p0 = self.pos();
            proof {
                lemma_whitespace_then_atmosphere(s, p0);
                lemma_skip_class_bounds(s, p0, CharClass::Whitespace);
            }
            self.chomp_whitespace();
            let ghost p1 = self.pos();
            proof { lemma_skip_class_stops(s, p0, CharClass::Whitespace); }
            if !self.accept_comment() {
                proof {
                    lemma_atmosphere_stops(s, p1);
                }
                return;
            }
            proof {
                lemma_comment_then_atmosphere(s, p1 + 1);
                lemma_skip_class_bounds(s, p1 + 1, CharClass::NotNewline);
            }
            assert(self.pos() > p0);
        }
    }

    fn try_accept_sharp(&mut self) -> (res: Option<Scanned>)
        requires
            old(self).wf(),
        ensures
            final(self).wf(),
            final(self).text() == old(self).text(),
            final(self).source_id() == old(self).source_id(),
            !at(old(self).text(), old(self).pos(), CharClass::Exactly('#')) ==> res is None
                && final(self).pos() == old(self).pos(),
            at(old(self).text(), old(self).pos(), CharClass::Exactly('#')) ==> res == Some(
                scan_sharp(old(self).text(), old(self).pos()).0,
            ) && final(self).pos() == scan_sharp(old(self).text(), old(self).pos()).1,
    {
        if self.accept_char('#') {
            let start = self.curr_pos;
            proof { lemma_skip_class_bounds(self.text(), start as int, CharClass::Ident); }
            self.chomp_while(CharClass::Ident);
            let end = self.curr_pos;
            let ghost word = self.text().subrange(start as int, end as int);
            let len = end - start;
            assert(word.len() == len);
            let c = &self.chars;
            let token = if len == 1 && c[start] == 't' {
                assert(word =~= seq!['t']);
                Ok(TokenType::Boolean(true))
            } else if len == 1 && c[start] == 'f' {
                assert(word =~= seq!['f']);
                Ok(TokenType::Boolean(false))
            } else if len == 5 && c[start] == '!' && c[start + 1] == 'v' && c[start + 2] == 'o'
                && c[start + 3] == 'i' && c[start + 4] == 'd' {
                assert(word =~= seq!['!', 'v', 'o', 'i', 'd']);
                Ok(TokenType::Undefined)
            } else {
                proof {
                    if word == seq!['t'] {
                        assert(word[0] == 't');
                    }
                    if word == seq!['f'] {
                        assert(word[0] == 'f');
                    }
                    if word == seq!['!', 'v', 'o', 'i', 'd'] {
                        assert(word[0] == '!' && word[1] == 'v' && word[2] == 'o' && word[3]
                            == 'i' && word[4] == 'd');
                    }
                }
                Err(TokenizeErrorType::UnexpectedCharacter)
            };
            Some(token)
        } else {
            None
        }
    }

    fn try_accept_string(&mut self) -> (res: Option<Scanned>)
        requires
            old(self).wf(),
        ensures
            final(self).wf(),
            final(self).text() == old(self).text(),
            final(self).source_id() == old(self).source_id(),
            !at(old(self).text(), old(self).pos(), CharClass::Exactly('"')) ==> res is None
                && final(self).pos() == old(self).pos(),
            at(old(self).text(), old(self).pos(), CharClass::Exactly('"')) ==> res == Some(
                scan_string(old(self).text(), old(self).pos() + 1).0,
            ) && final(self).pos() == scan_string(old(self).text(), old(self).pos() + 1).1,
    {
        if self.accept_char('"') {
            let ghost s = self.text();
            let ghost target = scan_string(s, self.pos());
            loop
                invariant
                    self.wf(),
                    self.text() == s,
                    s == old(self).text(),
                    target == scan_string(old(self).text(), old(self).pos() + 1),
                    at(old(self).text(), old(self).pos(), CharClass::Exactly('"')),
                    self.source_id() == old(self).source_id(),
                    scan_string(s, self.pos()) == target,
                decreases s.len() - self.pos(),
            {
                if self.accept_char('\\') {
                    if !self.accept(CharClass::EscapeTarget) {
                        return Some(Err(TokenizeErrorType::UnsupportedEscapeSequence));
                    }
                } else if self.accept_char('"') {
                    return Some(Ok(TokenType::String));
                } else if self.is_at_end() {
                    return Some(Err(TokenizeErrorType::UnterminatedString));
                } else {
                    self.chomp();
                }
            }
        } else {
            None
        }
    }

    fn try_accept_number(&mut self) -> (res: Option<Scanned>)
        requires
            old(self).wf(),
        ensures
            final(self).wf(),
            final(self).text() == old(self).text(),
            final(self).source_id() == old(self).source_id(),
            scan_number(old(self).text(), old(self).pos()) is None ==> res is None
                && final(self).pos() == old(self).pos(),
            scan_number(old(self).text(), old(self).pos()) matches Some((r, e)) ==> res == Some(r)
                && final(self).pos() == e,
    {
        let ghost s = self.text();
        let start_pos = self.curr_pos;
        let found_plus_or_minus = self.accept(CharClass::Sign);
        let ghost q = self.pos();
        let ghost target = scan_number_body(s, q, 0, false);
        let mut found_decimals: usize = 0;
        let mut found_digit = false;
        proof {
            lemma_scan_number_body_bounds(s, q, 0, false);
        }
        loop
            invariant
                self.wf(),
                self.text() == s,
                s == old(self).text(),
                start_pos == old(self).pos(),
                found_plus_or_minus == at(s, start_pos as int, CharClass::Sign),
                q == if found_plus_or_minus { start_pos + 1 } else { start_pos as int },
                target == scan_number_body(s, q, 0, false),
                self.source_id() == old(self).source_id(),
                q <= self.pos(),
                found_decimals <= self.pos() - q,
                scan_number_body(s, self.pos(), found_decimals as nat, found_digit) == target,
            ensures
                self.wf(),
                self.text() == s,
                self.source_id() == old(self).source_id(),
                q <= self.pos(),
                (self.pos() as int, found_decimals as nat, found_digit) == target,
            decreases s.len() - self.pos(),
        {
            if self.accept_char('.') {
                assert(found_decimals + 1 <= self.pos() - q);
                found_decimals = found_decimals + 1;
            } else if self.accept(CharClass::Numeric) {
                found_digit = true;
            } else {
                break;
            }
        }
        if found_digit && found_decimals <= 1 {
            Some(Ok(TokenType::Number))
        } else if found_decimals == 1 && !found_plus_or_minus && !self.peek(CharClass::Ident) {
            Some(Ok(TokenType::Dot))
        } else if self.curr_pos > start_pos {
            self.chomp_while(CharClass::Ident);
            Some(Ok(TokenType::Identifier))
        } else {
            None
        }
    }

    fn accept_identifier(&mut self) -> (res: bool)
        requires
            old(self).wf(),
        ensures
            final(self).wf(),
            final(self).text() == old(self).text(),
            final(self).source_id() == old(self).source_id(),
            res == (at(old(self).text(), old(self).pos(), CharClass::Ident) && !at(
                old(self).text(),
                old(self).pos(),
                CharClass::Numeric,
            )),
            res ==> final(self).pos() == skip_class(
                old(self).text(),
                old(self).pos() + 1,
                CharClass::Ident,
            ),
            !res ==> final(self).pos() == old(self).pos(),
    {
        if self.peek(CharClass::Numeric) || !self.peek(CharClass::Ident) {
            return false;
        }
        self.chomp();
        self.chomp_while(CharClass::Ident);
        true
    }

    /// Scans the next token, skipping whitespace and comments before it.
    /// Returns `None` at the end of the text.
    pub fn next(&mut self) -> (res: Option<Result<Token, TokenizeError>>)
        requires
            old(self).wf(),
        ensures
            final(self).wf(),
            final(self).text() == old(self).text(),
            final(self).source_id() == old(self).source_id(),
            final(self).pos() == spec_next_pos(old(self).text(), old(self).pos()),
            old(self).pos() <= final(self).pos() <= final(self).text().len(),
            res matches Some(Ok(t)) ==> old(self).pos() <= t.1.0 < t.1.1 == final(self).pos(),
            res matches Some(Err(e)) ==> old(self).pos() <= e.1.0 <= e.1.1 == final(self).pos(),
            res is None <==> spec_next_token(old(self).text(), old(self).pos()) is None,
            match spec_next_token(old(self).text(), old(self).pos()) {
                None => res is None,
                Some((r, start, end)) => {
                    let range = (start as usize, end as usize, old(self).source_id());
                    match r {
                        Ok(t) => res == Some(Ok::<Token, TokenizeError>(SourceMapped(t, range))),
                        Err(e) => res == Some(
                            Err::<Token, TokenizeError>(SourceMapped(e, range)),
                        ),
                    }
                },
            },
    {
        proof {
            lemma_next_token_progress(self.text(), self.pos());
        }
        self.skip_atmosphere();
        if self.is_at_end() {
            return None;
        }
        let token_start = self.curr_pos;
        let token: Scanned = if self.accept_char('(') {
            Ok(TokenType::LeftParen)
        } else if self.accept_char(')') {
            Ok(TokenType::RightParen)
        } else if self.accept_char('\'') {
            Ok(TokenType::Apostrophe)
        } else if let Some(result) = self.try_accept_string() {
            result
        } else if let Some(result) = self.try_accept_number() {
            result
        } else if let Some(result) = self.try_accept_sharp() {
            result
        } else if self.accept_identifier() {
            Ok(TokenType::Identifier)
        } else {
            Err(TokenizeErrorType::UnexpectedCharacter)
        };
        let source = (token_start, self.curr_pos, self.source);
        Some(
            match token {
                Ok(token) => Ok(SourceMapped(token, source)),
                Err(error) => Err(SourceMapped(error, source)),
            },
        )
    }
}

/// Whitespace before `p` can be dropped when looking for the next token.
proof fn lemma_whitespace_then_atmosphere(s: Seq<char>, p: int)
    requires
        0 <= p <= s.len(),
    ensures
        skip_atmosphere(s, skip_class(s, p, CharClass::Whitespace), false) == skip_atmosphere(
            s,
            p,
            false,
        ),
    decreases s.len() - p,
{
    if at(s, p, CharClass::Whitespace) {
        lemma_whitespace_then_atmosphere(s, p + 1);
    }
}

/// Skipping stops at a position that does not hold a character of the class.
proof fn lemma_skip_class_stops(s: Seq<char>, p: int, class: CharClass)
    requires
        0 <= p <= s.len(),
    ensures
        !at(s, skip_class(s, p, class), class),
    decreases s.len() - p,
{
    if at(s, p, class) {
        lemma_skip_class_stops(s, p + 1, class);
    }
}

/// At a position that holds neither whitespace nor `;`, no more is skipped.
proof fn lemma_atmosphere_stops(s: Seq<char>, p: int)
    requires
        0 <= p <= s.len(),
        !at(s, p, CharClass::Whitespace),
        !at(s, p, CharClass::Exactly(';')),
    ensures
        skip_atmosphere(s, p, false) == p,
{
}

/// After a `;` at `p - 1`, the comment text up to the newline is skipped.
proof fn lemma_comment_then_atmosphere(s: Seq<char>, p: int)
    requires
        1 <= p <= s.len(),
        s[p - 1] == ';',
        !spec_is_whitespace(s[p - 1]),
    ensures
        skip_atmosphere(s, skip_class(s, p, CharClass::NotNewline), false) == skip_atmosphere(
            s,
            p - 1,
            false,
        ),
{
    lemma_comment_body(s, p);
}

proof fn lemma_comment_body(s: Seq<char>, p: int)
    requires
        0 <= p <= s.len(),
    ensures
        skip_atmosphere(s, skip_class(s, p, CharClass::NotNewline), false) == skip_atmosphere(
            s,
            p,
            true,
        ),
    decreases s.len() - p,
{
    if at(s, p, CharClass::NotNewline) {
        lemma_comment_body(s, p + 1);
    }
}

fn is_ident_char(c: char) -> (res: bool)
    ensures
        res == spec_is_ident_char(c),
{
    !is_whitespace(c) && c != '(' && c != ')' && c != ';' && c != '#' && c != '\''
}

} // verus!
