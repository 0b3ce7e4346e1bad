use vstd::prelude::*;

use crate::string_interner::InternedString;

verus! {

/// The special forms: callables that receive their operands unevaluated.
#[derive(Debug, Clone, Copy, PartialEq, Eq, Structural)]
pub enum SpecialFormFn {
    Define,
    Lambda,
    Apply,
    Quote,
    Begin,
    Display,
    If,
    Cond,
    SetBang,
    Let,
    LetStar,
    Letrec,
    Eq,
    And,
    Or,
    Not,
    RustBacktrace,
    Stats,
    Gc,
    GcVerbose,
    TestEq,
    TestRepr,
    Assert,
    PrintAndEval,
    TrackStats,
}

/// A special form together with the name it was bound to.
#[derive(Debug, Clone, Copy, PartialEq, Eq, Structural)]
pub struct SpecialForm {
    pub func: SpecialFormFn,
    pub name: InternedString,
}

} // verus!
