use vstd::prelude::*;

use crate::environment::{CapturedLexicalScope, Environment};
use crate::interpreter::{RuntimeError, RuntimeErrorType};
use crate::pair::{inner, is_chain, lemma_chain_extend, undefined_value, valid_pair, Pair, PairHeap, PairManager};
use crate::source_mapped::{SourceMappable, SourceMapped, SourceRange};
use crate::string_interner::InternedString;
use crate::value::{SourceValue, Value};

verus! {

/// A procedure defined in Scheme code: a handle on its definition, held by the
/// interpreter, and the name it was first defined under.
#[derive(Debug, Clone, Copy, PartialEq, Eq, Structural)]
pub struct CompoundProcedure {
    pub name: Option<InternedString>,
    pub id: usize,
}

impl CompoundProcedure {
    pub fn id(&self) -> (res: usize)
        ensures
            res == self.id,
    {
        self.id
    }
}

/// The parameters a procedure takes.
#[derive(Debug)]
pub enum Signature {
    /// Exactly these parameters.
    FixedArgs(Vec<SourceMapped<InternedString>>),
    /// These parameters, then a list of the remaining operands.
    MinArgs(Vec<SourceMapped<InternedString>>, SourceMapped<InternedString>),
    /// A list of all operands.
    AnyArgs(SourceMapped<InternedString>),
}

/// Whether no name occurs twice in `args`.
pub open spec fn distinct_names(args: Seq<SourceMapped<InternedString>>) -> bool {
    forall|i: int, j: int| 0 <= i < j < args.len() ==> args[i].0 != args[j].0
}

/// The parameter names of `args` as the symbols they were read from.
pub open spec fn symbols_of(args: Seq<SourceMapped<InternedString>>) -> Seq<SourceValue> {
    args.map_values(|a: SourceMapped<InternedString>| SourceMapped(Value::Symbol(a.0), a.1))
}

/// Whether `name` is among `args`.
pub open spec fn has_name(args: Seq<SourceMapped<InternedString>>, name: InternedString) -> bool {
    exists|i: int| 0 <= i < args.len() && args[i].0 == name
}

fn contains_name(args: &Vec<SourceMapped<InternedString>>, name: InternedString) -> (res: bool)
    ensures
        res == has_name(args@, name),
{
    let mut i: usize = 0;
    while i < args.len()
        invariant
            i <= args.len(),
            forall|j: int| 0 <= j < i ==> args@[j].0 != name,
        decreases args.len() - i,
    {
        if args[i].0 == name {
            return true;
        }
        i = i + 1;
    }
    false
}

fn contains_pair(pairs: &Vec<Pair>, p: Pair) -> (res: bool)
    ensures
        res == pairs@.contains(p),
{
    let mut i: usize = 0;
    while i < pairs.len()
        invariant
            i <= pairs.len(),
            forall|j: int| 0 <= j < i ==> pairs@[j] != p,
        decreases pairs.len() - i,
    {
        if pairs[i] == p {
            assert(pairs@[i as int] == p);
            return true;
        }
        i = i + 1;
    }
    false
}

/// The car of `p`, or the undefined value when `p` is not a pair of `heap`.
pub open spec fn car_of(heap: PairHeap, p: Pair) -> SourceValue {
    if valid_pair(heap, p) {
        inner(heap, p).car
    } else {
        undefined_value()
    }
}

/// The cdr of `p`, or the undefined value when `p` is not a pair of `heap`.
pub open spec fn cdr_of(heap: PairHeap, p: Pair) -> SourceValue {
    if valid_pair(heap, p) {
        inner(heap, p).cdr
    } else {
        undefined_value()
    }
}

/// The parameters read from pair `p` on, after the parameters `seen` and the
/// pairs `walked`: each car must be a symbol not seen before
/// (`ExpectedIdentifier`, `DuplicateParameter`); the list ends at the empty
/// list (no rest parameter) or at a symbol not seen before (the rest
/// parameter), and is malformed if it ends in anything else or comes back to
/// a pair it walked. A list longer than there are pairs is malformed at
/// `range`.
/// The error that reading `v` as a parameter list gives, if any: none for
/// the empty list, a symbol or a well-formed list of distinct symbols.
pub open spec fn signature_error(heap: PairHeap, v: SourceValue) -> Option<RuntimeError> {
    match v.0 {
        Value::EmptyList => None,
        Value::Symbol(_) => None,
        Value::Pair(p) => match params_from(heap, p, Seq::empty(), Seq::empty(), v.1) {
            Err(e) => Some(e),
            Ok(_) => None,
        },
        _ => Some(SourceMapped(RuntimeErrorType::MalformedSpecialForm, v.1)),
    }
}

/// Whether `sig` is what reading `v` as a parameter list gives.
pub open spec fn signature_of(heap: PairHeap, v: SourceValue, sig: Signature) -> bool {
    match v.0 {
        Value::EmptyList => sig matches Signature::FixedArgs(a) && a@.len() == 0,
        Value::Symbol(n) => sig matches Signature::AnyArgs(a) && a.0 == n,
        Value::Pair(p) => match params_from(heap, p, Seq::empty(), Seq::empty(), v.1) {
            Ok((args, None)) => sig matches Signature::FixedArgs(a) && a@ == args,
            Ok((args, Some(rest))) => sig matches Signature::MinArgs(a, r) && a@ == args && r == rest,
            Err(_) => false,
        },
        _ => false,
    }
}

pub open spec fn params_from(
    heap: PairHeap,
    p: Pair,
    seen: Seq<SourceMapped<InternedString>>,
    walked: Seq<Pair>,
    range: SourceRange,
) -> Result<(Seq<SourceMapped<InternedString>>, Option<SourceMapped<InternedString>>), RuntimeError>
    decreases heap.len() + 1 - walked.len(),
{
    if walked.len() > heap.len() {
        Err(SourceMapped(RuntimeErrorType::MalformedSpecialForm, range))
    } else {
        let car = car_of(heap, p);
        let cdr = cdr_of(heap, p);
        match car.0 {
            Value::Symbol(name) => if has_name(seen, name) {
                Err(SourceMapped(RuntimeErrorType::DuplicateParameter, car.1))
            } else {
                let args = seen.push(SourceMapped(name, car.1));
                match cdr.0 {
                    Value::EmptyList => Ok((args, None)),
                    Value::Symbol(rest) => if has_name(args, rest) {
                        Err(SourceMapped(RuntimeErrorType::DuplicateParameter, cdr.1))
                    } else {
                        Ok((args, Some(SourceMapped(rest, cdr.1))))
                    },
                    Value::Pair(next) => if walked.push(p).contains(next) {
                        Err(SourceMapped(RuntimeErrorType::MalformedSpecialForm, cdr.1))
                    } else {
                        params_from(heap, next, args, walked.push(p), range)
                    },
                    _ => Err(SourceMapped(RuntimeErrorType::MalformedSpecialForm, cdr.1)),
                }
            },
            _ => Err(SourceMapped(RuntimeErrorType::ExpectedIdentifier, car.1)),
        }
    }
}

/// Whether `name` is one of the parameters of `sig`.
pub open spec fn is_parameter(sig: &Signature, name: InternedString) -> bool {
    match sig {
        Signature::FixedArgs(args) => has_name(args@, name),
        Signature::MinArgs(args, rest) => has_name(args@, name) || rest.0 == name,
        Signature::AnyArgs(arg) => arg.0 == name,
    }
}

/// Whether `args` lists the operands that a signature of this form accepts.
pub open spec fn spec_signature_arity_ok(sig: &Signature, args_len: int) -> bool {
    match sig {
        Signature::FixedArgs(args) => args_len == args@.len(),
        Signature::MinArgs(args, _) => args_len >= args@.len(),
        Signature::AnyArgs(_) => true,
    }
}

/// Whether the parameter names of a signature are all distinct.
pub open spec fn signature_names_distinct(sig: &Signature) -> bool {
    match sig {
        Signature::FixedArgs(args) => distinct_names(args@),
        Signature::MinArgs(args, rest) => distinct_names(args@) && !has_name(args@, rest.0),
        Signature::AnyArgs(_) => true,
    }
}

impl Signature {
    /// Reads a parameter list: `()`, a symbol, or a list of symbols that may
    /// end in `. rest`. Parameter names must be distinct.
    pub fn parse(value: SourceValue, pairs: &PairManager) -> (res: Result<Self, RuntimeError>)
        ensures
            value.0 is EmptyList ==> (res matches Ok(Signature::FixedArgs(a)) && a@.len() == 0),
            value.0 matches Value::Symbol(n) ==> (res matches Ok(Signature::AnyArgs(a)) && a.0 == n),
            !(value.0 is EmptyList) && !(value.0 is Symbol) && !(value.0 is Pair) ==> res
                == Err::<Self, RuntimeError>(SourceMapped(RuntimeErrorType::MalformedSpecialForm, value.1)),
            res matches Ok(sig) ==> signature_names_distinct(&sig),
            res matches Ok(sig) ==> signature_of(pairs@, value, sig),
            res is Err <==> signature_error(pairs@, value) is Some,
            signature_error(pairs@, value) matches Some(e) ==> res == Err::<Self, RuntimeError>(e),
            res matches Ok(Signature::FixedArgs(a)) ==> is_chain(pairs@, value.0, symbols_of(a@), Value::EmptyList),
            res matches Ok(Signature::MinArgs(a, rest)) ==> a@.len() > 0 && is_chain(
                pairs@,
                value.0,
                symbols_of(a@),
                Value::Symbol(rest.0),
            ),
            value.0 matches Value::Pair(p) ==> match params_from(pairs@, p, Seq::empty(), Seq::empty(), value.1) {
                Ok((args, None)) => res matches Ok(Signature::FixedArgs(a)) && a@ == args,
                Ok((args, Some(rest))) => res matches Ok(Signature::MinArgs(a, r)) && a@ == args && r == rest,
                Err(e) => res == Err::<Self, RuntimeError>(e),
            },
    {
        match value.0 {
            Value::EmptyList => Ok(Signature::FixedArgs(Vec::new())),
            Value::Symbol(name) => Ok(Signature::AnyArgs(name.source_mapped(value.1))),
            Value::Pair(first) => {
                let mut pair = first;
                let mut visited: Vec<Pair> = Vec::new();
                let mut args: Vec<SourceMapped<InternedString>> = Vec::new();
                loop
                    invariant
                        distinct_names(args@),
                        value.0 == Value::Pair(first),
                        visited@.len() <= pairs@.len() + 1,
                        is_chain(pairs@, value.0, symbols_of(args@), Value::Pair(pair)),
                        params_from(pairs@, first, Seq::empty(), Seq::empty(), value.1) == params_from(
                            pairs@,
                            pair,
                            args@,
                            visited@,
                            value.1,
                        ),
                    decreases pairs@.len() + 1 - visited@.len(),
                {
                    if visited.len() > pairs.0.len() {
                        return Err(RuntimeErrorType::MalformedSpecialForm.source_mapped(value.1));
                    }
                    let ghost walked = visited@;
                    visited.push(pair);
                    let car = pairs.car(pair);
                    let name = car.expect_identifier()?;
                    if contains_name(&args, name) {
                        return Err(RuntimeErrorType::DuplicateParameter.source_mapped(car.1));
                    }
                    let ghost before = args@;
                    args.push(name.source_mapped(car.1));
                    proof {
                        lemma_chain_extend(pairs@, value.0, symbols_of(before), pair);
                        assert(symbols_of(args@) =~= symbols_of(before).push(car));
                    }
                    let cdr = pairs.cdr(pair);
                    match cdr.0 {
                        Value::EmptyList => {
                            return Ok(Signature::FixedArgs(args));
                        },
                        Value::Symbol(rest) => {
                            if contains_name(&args, rest) {
                                return Err(RuntimeErrorType::DuplicateParameter.source_mapped(cdr.1));
                            }
                            return Ok(Signature::MinArgs(args, rest.source_mapped(cdr.1)));
                        },
                        Value::Pair(next) => {
                            if contains_pair(&visited, next) {
                                return Err(RuntimeErrorType::MalformedSpecialForm.source_mapped(cdr.1));
                            }
                            pair = next;
                        },
                        _ => {
                            return Err(RuntimeErrorType::MalformedSpecialForm.source_mapped(cdr.1));
                        },
                    }
                }
            },
            _ => Err(RuntimeErrorType::MalformedSpecialForm.source_mapped(value.1)),
        }
    }

    pub fn is_valid_arity(&self, args_len: usize) -> (res: bool)
        ensures
            res == spec_signature_arity_ok(self, args_len as int),
    {
        match self {
            Signature::FixedArgs(args) => args_len == args.len(),
            Signature::MinArgs(args, _) => args_len >= args.len(),
            Signature::AnyArgs(_) => true,
        }
    }

    /// Binds the parameters to `operands` in the current scope of `environment`;
    /// rest parameters get a new list of the remaining operands.
    pub fn bind_args(&self, operands: Vec<SourceValue>, environment: &mut Environment, pair_manager: &mut PairManager)
        ensures
            final(environment).stack() == old(environment).stack(),
            final(environment).scopes().len() == old(environment).scopes().len(),
            old(environment).top_is_valid() && signature_names_distinct(self) && spec_signature_arity_ok(
                self,
                operands@.len() as int,
            ) ==> binds_parameters(self, operands@, *final(environment), final(pair_manager)@),
            forall|other: InternedString|
                !is_parameter(self, other) ==> #[trigger] final(environment).spec_get(other) == old(environment).spec_get(
                    other,
                ),
            final(pair_manager)@.len() >= old(pair_manager)@.len(),
            final(pair_manager)@.take(old(pair_manager)@.len() as int) == old(pair_manager)@,
    {
        let ghost distinct = signature_names_distinct(self);
        proof {
            assert(pair_manager@.take(pair_manager@.len() as int) =~= pair_manager@);
        }
        let ghost valid = old(environment).top_is_valid();
        match self {
            Signature::FixedArgs(arg_names) => {
                let mut i: usize = 0;
                while i < arg_names.len() && i < operands.len()
                    invariant
                        environment.stack() == old(environment).stack(),
                        environment.scopes().len() == old(environment).scopes().len(),
                        i <= operands@.len(),
                        i <= arg_names@.len(),
                        distinct == distinct_names(arg_names@),
                        valid == old(environment).top_is_valid(),
                        valid && distinct ==> forall|k: int|
                            0 <= k < i && k < operands@.len() ==> #[trigger] environment.spec_get(arg_names@[k].0)
                                == Some(operands@[k]),
                        forall|other: InternedString|
                            !has_name(arg_names@, other) ==> #[trigger] environment.spec_get(other) == old(
                                environment,
                            ).spec_get(other),
                    decreases arg_names.len() - i,
                {
                    proof {
                        assert forall|other: InternedString| !has_name(arg_names@, other) implies other != arg_names@[i as int].0 by {
                            if other == arg_names@[i as int].0 {
                                assert(has_name(arg_names@, other));
                            }
                        }
                    }
                    environment.define(arg_names[i].0, operands[i]);
                    i = i + 1;
                }
            },
            Signature::MinArgs(required_arg_names, rest_arg_name) => {
                let mut i: usize = 0;
                while i < required_arg_names.len() && i < operands.len()
                    invariant
                        environment.stack() == old(environment).stack(),
                        environment.scopes().len() == old(environment).scopes().len(),
                        i <= operands@.len(),
                        i <= required_arg_names@.len(),
                        distinct == (distinct_names(required_arg_names@) && !has_name(required_arg_names@, rest_arg_name.0)),
                        valid == old(environment).top_is_valid(),
                        valid && distinct ==> forall|k: int|
                            0 <= k < i && k < operands@.len() ==> #[trigger] environment.spec_get(required_arg_names@[k].0)
                                == Some(operands@[k]),
                        forall|other: InternedString|
                            !has_name(required_arg_names@, other) ==> #[trigger] environment.spec_get(other) == old(
                                environment,
                            ).spec_get(other),
                    decreases required_arg_names.len() - i,
                {
                    proof {
                        assert forall|other: InternedString| !has_name(required_arg_names@, other) implies other
                            != required_arg_names@[i as int].0 by {
                            if other == required_arg_names@[i as int].0 {
                                assert(has_name(required_arg_names@, other));
                            }
                        }
                    }
                    environment.define(required_arg_names[i].0, operands[i]);
                    i = i + 1;
                }
                let ghost bound = i;
                let mut rest_operands: Vec<SourceValue> = Vec::new();
                assert(rest_operands@ =~= operands@.subrange(bound as int, i as int));
                while i < operands.len()
                    invariant
                        bound <= i <= operands@.len(),
                        rest_operands@ == operands@.subrange(bound as int, i as int),
                    decreases operands.len() - i,
                {
                    rest_operands.push(operands[i]);
                    i = i + 1;
                    assert(rest_operands@ =~= operands@.subrange(bound as int, i as int));
                }
                let rest = pair_manager.vec_to_list(rest_operands);
                let ghost before_rest = *environment;
                environment.define(rest_arg_name.0, rest.source_mapped(rest_arg_name.1));
                proof {
                    if valid && distinct && operands@.len() >= required_arg_names@.len() {
                        assert(bound == required_arg_names@.len());
                        assert(operands@.subrange(bound as int, operands@.len() as int) =~= operands@.skip(
                            required_arg_names@.len() as int,
                        ));
                        assert forall|k: int| 0 <= k < required_arg_names@.len() implies #[trigger] environment.spec_get(
                            required_arg_names@[k].0,
                        ) == Some(operands@[k]) by {
                            assert(before_rest.spec_get(required_arg_names@[k].0) == Some(operands@[k]));
                            assert(required_arg_names@[k].0 != rest_arg_name.0);
                        }
                    }
                }
            },
            Signature::AnyArgs(arg_name) => {
                let ghost all_operands = operands@;
                let all = pair_manager.vec_to_list(operands);
                environment.define(arg_name.0, all.source_mapped(arg_name.1));
            },
        }
    }
}

/// Whether the parameters of `sig` are bound to `operands` in `environment`:
/// each fixed parameter to its operand, and a rest parameter to a list of the
/// operands after them, at the rest parameter's range.
pub open spec fn binds_parameters(sig: &Signature, operands: Seq<SourceValue>, environment: Environment, heap: PairHeap) -> bool {
    match sig {
        Signature::FixedArgs(names) => forall|k: int|
            0 <= k < names@.len() ==> #[trigger] environment.spec_get(names@[k].0) == Some(operands[k]),
        Signature::MinArgs(names, rest) => {
            &&& forall|k: int| 0 <= k < names@.len() ==> #[trigger] environment.spec_get(names@[k].0) == Some(operands[k])
            &&& environment.spec_get(rest.0) matches Some(v) && v.1 == rest.1 && is_chain(
                heap,
                v.0,
                operands.skip(names@.len() as int),
                Value::EmptyList,
            )
        },
        Signature::AnyArgs(name) => environment.spec_get(name.0) matches Some(v) && v.1 == name.1 && is_chain(
            heap,
            v.0,
            operands,
            Value::EmptyList,
        ),
    }
}

/// The body of a procedure: the expressions it evaluates, never empty.
#[derive(Debug)]
pub struct Body(pub SourceMapped<Vec<SourceValue>>);

/// The values of `s`, copied into a vector.
pub fn values_to_vec(s: &[SourceValue]) -> (res: Vec<SourceValue>)
    ensures
        res@ == s@,
{
    let mut res: Vec<SourceValue> = Vec::new();
    let mut i: usize = 0;
    while i < s.len()
        invariant
            i <= s.len(),
            res@ == s@.take(i as int),
        decreases s.len() - i,
    {
        res.push(s[i]);
        i = i + 1;
        assert(res@ =~= s@.take(i as int));
    }
    assert(s@.take(s.len() as int) =~= s@);
    res
}

impl Body {
    pub fn try_new(body: &[SourceValue], range: SourceRange) -> (res: Result<Self, RuntimeError>)
        ensures
            body@.len() == 0 ==> res == Err::<Self, RuntimeError>(SourceMapped(RuntimeErrorType::MalformedSpecialForm, range)),
            body@.len() > 0 ==> (res matches Ok(b) && b.0.0@ == body@ && b.0.1 == range),
    {
        if body.len() == 0 {
            Err(RuntimeErrorType::MalformedSpecialForm.source_mapped(range))
        } else {
            Ok(Body(SourceMapped(values_to_vec(body), range)))
        }
    }
}

/// Everything a compound procedure needs to be called: its parameters, its
/// body and the scope it was defined in.
pub struct ClosureData {
    pub signature: Signature,
    pub body: Body,
    pub captured_lexical_scope: CapturedLexicalScope,
}

} // verus!
