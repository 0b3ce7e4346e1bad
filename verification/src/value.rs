use vstd::prelude::*;

use crate::callable::Callable;
use crate::interpreter::{RuntimeError, RuntimeErrorType};
use crate::mutable_string::MutableString;
use crate::pair::{is_chain, is_proper_list, shares_structure, Pair, PairHeap, PairManager};
use crate::procedure::Procedure;
use crate::source_mapped::{SourceMappable, SourceMapped};
use crate::string_interner::InternedString;

verus! {

/// A Scheme value. Numbers are carried as the 64-bit code that the
/// interpreter's `NumberSystem` gave them; pairs and strings are handles on
/// objects held by the interpreter.
#[derive(Debug, Clone, Copy, PartialEq, Eq, Structural)]
pub enum Value {
    Undefined,
    EmptyList,
    Number(u64),
    Symbol(InternedString),
    Boolean(bool),
    String(MutableString),
    Callable(Callable),
    Pair(Pair),
}

pub type SourceValue = SourceMapped<Value>;

/// The items of `v` read as a list: none for the empty list, the cars of the
/// chain for a proper list of pairs that shares no pair, and nothing for
/// anything else.
pub open spec fn list_items(heap: PairHeap, v: Value) -> Option<Seq<SourceValue>> {
    if v is EmptyList {
        Some(Seq::empty())
    } else if v is Pair && !shares_structure(heap, v) && is_proper_list(heap, v) {
        Some(choose|items: Seq<SourceValue>| is_chain(heap, v, items, Value::EmptyList))
    } else {
        None
    }
}

/// From R5RS 6.3.1: of all the standard Scheme values, only `#f` counts as
/// false in conditional expressions.
pub open spec fn spec_as_bool(v: Value) -> bool {
    v != Value::Boolean(false)
}

impl Value {
    /// From R5RS 6.3.1:
    ///
    /// > Of all the standard Scheme values, only `#f` counts as false
    /// > in conditional expressions. Except for `#f`, all standard
    /// > Scheme values, including `#t`, pairs, the empty list, symbols,
    /// > numbers, strings, vectors, and procedures, count as true.
    pub fn as_bool(&self) -> (res: bool)
        ensures
            res == spec_as_bool(*self),
    {
        match self {
            Value::Boolean(false) => false,
            _ => true,
        }
    }

    /// A value with an empty source range.
    pub fn into_source_value(self) -> (res: SourceValue)
        ensures
            res == SourceMapped(self, (0usize, 0usize, None::<crate::source_mapper::SourceId>)),
    {
        self.empty_source_map()
    }
}

impl SourceMapped<Value> {
    pub fn expect_identifier(&self) -> (res: Result<InternedString, RuntimeError>)
        ensures
            self.0 matches Value::Symbol(s) ==> res == Ok::<InternedString, RuntimeError>(s),
            !(self.0 is Symbol) ==> res == Err::<InternedString, RuntimeError>(
                SourceMapped(RuntimeErrorType::ExpectedIdentifier, self.1),
            ),
    {
        if let Value::Symbol(symbol) = self.0 {
            Ok(symbol)
        } else {
            Err(RuntimeErrorType::ExpectedIdentifier.source_mapped(self.1))
        }
    }

    pub fn expect_number(&self) -> (res: Result<u64, RuntimeError>)
        ensures
            self.0 matches Value::Number(n) ==> res == Ok::<u64, RuntimeError>(n),
            !(self.0 is Number) ==> res == Err::<u64, RuntimeError>(
                SourceMapped(RuntimeErrorType::ExpectedNumber, self.1),
            ),
    {
        if let Value::Number(number) = self.0 {
            Ok(number)
        } else {
            Err(RuntimeErrorType::ExpectedNumber.source_mapped(self.1))
        }
    }

    pub fn expect_pair(&self) -> (res: Result<Pair, RuntimeError>)
        ensures
            self.0 matches Value::Pair(p) ==> res == Ok::<Pair, RuntimeError>(p),
            !(self.0 is Pair) ==> res == Err::<Pair, RuntimeError>(
                SourceMapped(RuntimeErrorType::ExpectedPair, self.1),
            ),
    {
        if let Value::Pair(pair) = self.0 {
            Ok(pair)
        } else {
            Err(RuntimeErrorType::ExpectedPair.source_mapped(self.1))
        }
    }

    pub fn expect_procedure(&self) -> (res: Result<Procedure, RuntimeError>)
        ensures
            self.0 matches Value::Callable(Callable::Procedure(p)) ==> res == Ok::<
                Procedure,
                RuntimeError,
            >(p),
            !(self.0 matches Value::Callable(Callable::Procedure(_))) ==> res == Err::<
                Procedure,
                RuntimeError,
            >(SourceMapped(RuntimeErrorType::ExpectedProcedure, self.1)),
    {
        if let Value::Callable(Callable::Procedure(procedure)) = self.0 {
            Ok(procedure)
        } else {
            Err(RuntimeErrorType::ExpectedProcedure.source_mapped(self.1))
        }
    }

    /// The items of this value if it is a proper list (the empty list included).
    pub fn try_into_list(&self, pairs: &PairManager) -> (res: Option<SourceMapped<Vec<SourceValue>>>)
        ensures
            self.0 is EmptyList ==> (res matches Some(l) && l.0@.len() == 0 && l.1 == self.1),
            res matches Some(l) ==> l.1 == self.1 && is_chain(
                pairs@,
                self.0,
                l.0@,
                Value::EmptyList,
            ),
            !(self.0 is EmptyList) && !(self.0 is Pair) ==> res is None,
            match list_items(pairs@, self.0) {
                Some(items) => res matches Some(l) && l.0@ == items && l.1 == self.1,
                None => res is None,
            },
    {
        match self.0 {
            Value::Pair(pair) => {
                match pairs.try_as_rc_list(pair) {
                    Some(expressions) => {
                        proof {
                            let chosen = choose|items: Seq<SourceValue>| is_chain(pairs@, self.0, items, Value::EmptyList);
                            crate::pair::lemma_chain_unique(
                                pairs@,
                                self.0,
                                chosen,
                                Value::EmptyList,
                                expressions@,
                                Value::EmptyList,
                            );
                        }
                        Some(SourceMapped(expressions, self.1))
                    },
                    None => None,
                }
            },
            Value::EmptyList => Some(SourceMapped(Vec::new(), self.1)),
            _ => None,
        }
    }

    pub fn expect_list(&self, pairs: &PairManager) -> (res: Result<Vec<SourceValue>, RuntimeError>)
        ensures
            res matches Ok(l) ==> is_chain(pairs@, self.0, l@, Value::EmptyList),
            self.0 is EmptyList ==> (res matches Ok(l) && l@.len() == 0),
            !(self.0 is EmptyList) && !(self.0 is Pair) ==> res == Err::<Vec<SourceValue>, RuntimeError>(
                SourceMapped(RuntimeErrorType::ExpectedList, self.1),
            ),
            match list_items(pairs@, self.0) {
                Some(items) => res matches Ok(l) && l@ == items,
                None => res == Err::<Vec<SourceValue>, RuntimeError>(SourceMapped(RuntimeErrorType::ExpectedList, self.1)),
            },
    {
        match self.try_into_list(pairs) {
            Some(list) => Ok(list.0),
            None => Err(RuntimeErrorType::ExpectedList.source_mapped(self.1)),
        }
    }
}

} // verus!
