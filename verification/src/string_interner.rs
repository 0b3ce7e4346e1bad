use vstd::prelude::*;

use crate::text::str_eq;

verus! {

/// A symbol name, identified by its position in a `StringInterner`; two interned
/// strings are equal exactly when they come from equal text.
#[derive(Debug, Clone, Copy, PartialEq, Eq, Hash, Structural)]
pub struct InternedString(pub usize);

impl InternedString {
    /// The position of this string in the interner that produced it.
    pub open spec fn id(&self) -> int {
        self.0 as int
    }
}

/// Whether no text occurs twice in `s`.
pub open spec fn all_distinct(s: Seq<Seq<char>>) -> bool {
    forall|i: int, j: int| 0 <= i < s.len() && 0 <= j < s.len() && s[i] == s[j] ==> i == j
}

/// Hands out one `InternedString` per distinct text.
pub struct StringInterner {
    ids_to_strings: Vec<String>,
}

impl StringInterner {
    /// The texts interned so far, indexed by id.
    pub closed spec fn view(&self) -> Seq<Seq<char>> {
        self.ids_to_strings@.map_values(|s: String| s@)
    }

    #[verifier::type_invariant]
    closed spec fn inv(&self) -> bool {
        all_distinct(self@)
    }

    pub fn new() -> (res: Self)
        ensures
            res@ == Seq::<Seq<char>>::empty(),
    {
        let res = StringInterner { ids_to_strings: Vec::new() };
        assert(res@ =~= Seq::<Seq<char>>::empty());
        res
    }

    /// How many distinct texts have been interned (no text occurs twice).
    pub fn len(&self) -> (res: usize)
        ensures
            res == self@.len(),
            all_distinct(self@),
    {
        proof {
            use_type_invariant(self);
        }
        self.ids_to_strings.len()
    }

    /// Returns the id of `value`, adding it to the interner if it is new.
    pub fn intern(&mut self, value: &str) -> (res: InternedString)
        ensures
            all_distinct(final(self)@),
            old(self)@.contains(value@) ==> final(self)@ == old(self)@,
            !old(self)@.contains(value@) ==> final(self)@ == old(self)@.push(value@),
            0 <= res.id() < final(self)@.len(),
            final(self)@[res.id()] == value@,
    {
        proof {
            use_type_invariant(&*self);
        }
        let mut i: usize = 0;
        while i < self.ids_to_strings.len()
            invariant
                i <= self.ids_to_strings.len(),
                all_distinct(self@),
                self@ == old(self)@,
                forall|j: int| 0 <= j < i ==> self@[j] != value@,
            decreases self.ids_to_strings.len() - i,
        {
            if str_eq(self.ids_to_strings[i].as_str(), value) {
                assert(self@[i as int] == value@);
                return InternedString(i);
            }
            i = i + 1;
        }
        assert(!self@.contains(value@));
        let ghost old_view = self@;
        let mut strings: Vec<String> = Vec::new();
        std::mem::swap(&mut strings, &mut self.ids_to_strings);
        strings.push(String::from_str(value));
        proof {
            let v = strings@.map_values(|s: String| s@);
            assert(v =~= old_view.push(value@));
        }
        self.ids_to_strings = strings;
        assert(self@ =~= old_view.push(value@));
        InternedString(i)
    }

    /// The text of an interned string.
    pub fn get(&self, s: InternedString) -> (res: &str)
        requires
            0 <= s.id() < self@.len(),
        ensures
            res@ == self@[s.id()],
    {
        self.ids_to_strings[s.0].as_str()
    }

    /// Looks up the text of an interned string, or `None` if it is not one of ours.
    pub fn try_get(&self, s: InternedString) -> (res: Option<&str>)
        ensures
            0 <= s.id() < self@.len() ==> (res matches Some(t) && t@ == self@[s.id()]),
            !(0 <= s.id() < self@.len()) ==> res is None,
    {
        if s.0 < self.ids_to_strings.len() {
            Some(self.ids_to_strings[s.0].as_str())
        } else {
            None
        }
    }
}

/// Interning the same text twice gives the same symbol, and interning different
/// texts gives different symbols.
pub proof fn lemma_intern_injective(
    interner: Seq<Seq<char>>,
    a: InternedString,
    b: InternedString,
)
    requires
        all_distinct(interner),
        0 <= a.id() < interner.len(),
        0 <= b.id() < interner.len(),
    ensures
        (a == b) <==> (interner[a.id()] == interner[b.id()]),
{
}

} // verus!
