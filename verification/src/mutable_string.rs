use vstd::prelude::*;

use crate::text::{chars_to_string, debug_repr, spec_debug_repr, str_to_chars};

verus! {

/// A Scheme string: a handle on text held by a `StringStore`. Two handles are
/// the same object exactly when they refer to the same slot.
#[derive(Debug, Clone, Copy, PartialEq, Eq, Structural)]
pub struct MutableString(pub usize);

/// The text of all Scheme strings created so far, indexed by handle.
pub struct StringStore {
    strings: Vec<String>,
}

impl StringStore {
    pub closed spec fn view(&self) -> Seq<Seq<char>> {
        self.strings@.map_values(|s: String| s@)
    }

    pub fn new() -> (res: Self)
        ensures
            res@ == Seq::<Seq<char>>::empty(),
    {
        let res = StringStore { strings: Vec::new() };
        assert(res@ =~= Seq::<Seq<char>>::empty());
        res
    }

    pub fn len(&self) -> (res: usize)
        ensures
            res == self@.len(),
    {
        self.strings.len()
    }

    /// The text of `s`, or `None` if `s` is not a string of this store.
    pub fn get(&self, s: MutableString) -> (res: Option<&str>)
        ensures
            s.0 < self@.len() ==> (res matches Some(t) && t@ == self@[s.0 as int]),
            s.0 >= self@.len() ==> res is None,
    {
        if s.0 < self.strings.len() {
            Some(self.strings[s.0].as_str())
        } else {
            None
        }
    }
}

/// The characters of a string literal's source text `repr` (which includes the
/// quotes) as they stand after the first `n` characters have been read: the
/// text produced so far and whether a backslash is pending. The opening quote
/// is skipped; `\n` stands for a newline and a backslash before any other
/// character stands for that character.
pub open spec fn unescape_state(repr: Seq<char>, n: int) -> (Seq<char>, bool)
    decreases n,
{
    if n <= 1 || n > repr.len() {
        (Seq::empty(), false)
    } else {
        let (out, escaped) = unescape_state(repr, n - 1);
        let c = repr[n - 1];
        if escaped {
            (out.push(if c == 'n' { '\n' } else { c }), false)
        } else if c == '\\' {
            (out, true)
        } else {
            (out.push(c), false)
        }
    }
}

/// The text of a string literal whose source text is `repr`: its characters
/// unescaped, without the closing quote.
pub open spec fn spec_unescape(repr: Seq<char>) -> Seq<char> {
    let out = unescape_state(repr, repr.len() as int).0;
    if out.len() > 0 {
        out.drop_last()
    } else {
        out
    }
}

/// The characters of `repr` unescaped as `spec_unescape` describes.
pub fn unescape(repr: &str) -> (res: Vec<char>)
    ensures
        res@ == spec_unescape(repr@),
{
    let input = str_to_chars(repr);
    let mut chars: Vec<char> = Vec::new();
    let mut is_escaped = false;
    let mut i: usize = 1;
    if input.len() == 0 {
        return chars;
    }
    while i < input.len()
        invariant
            input@ == repr@,
            1 <= i <= input.len(),
            (chars@, is_escaped) == unescape_state(repr@, i as int),
        decreases input.len() - i,
    {
        let c = input[i];
        if is_escaped {
            if c == 'n' {
                chars.push('\n');
            } else {
                chars.push(c);
            }
            is_escaped = false;
        } else {
            if c == '\\' {
                is_escaped = true;
            } else {
                chars.push(c);
            }
        }
        i = i + 1;
    }
    chars.pop();
    chars
}

impl MutableString {
    /// Creates a new string object holding `value`.
    pub fn new(store: &mut StringStore, value: String) -> (res: Self)
        ensures
            res.0 == old(store)@.len(),
            final(store)@ == old(store)@.push(value@),
    {
        let id = store.strings.len();
        let ghost v = value@;
        store.strings.push(value);
        assert(store@ =~= old(store)@.push(v));
        MutableString(id)
    }

    /// Creates a new string object from a string literal's source text.
    pub fn from_tokenized_source(store: &mut StringStore, repr: &str) -> (res: Self)
        ensures
            res.0 == old(store)@.len(),
            final(store)@ == old(store)@.push(spec_unescape(repr@)),
    {
        let chars = unescape(repr);
        let string = chars_to_string(chars.as_slice());
        Self::new(store, string)
    }

    pub fn points_at_same_memory_as(&self, other: &MutableString) -> (res: bool)
        ensures
            res == (self.0 == other.0),
    {
        self.0 == other.0
    }

    /// The string as Rust's `Debug` would show it: quoted and escaped.
    pub fn repr(&self, store: &StringStore) -> (res: String)
        ensures
            self.0 < store@.len() ==> res@ == spec_debug_repr(store@[self.0 as int]),
    {
        match store.get(*self) {
            Some(text) => debug_repr(text),
            None => debug_repr(""),
        }
    }
}

/// A new string object reads back as it was made: `MutableString::new` puts
/// its text at the end of the store, under the index it returns, and leaves
/// every other string object as it was.
pub proof fn lemma_new_string_reads_back(strings: Seq<Seq<char>>, text: Seq<char>, i: int)
    ensures
        strings.push(text)[strings.len() as int] == text,
        0 <= i < strings.len() ==> strings.push(text)[i] == strings[i],
{
}

} // verus!
