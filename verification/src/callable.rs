use vstd::prelude::*;

use crate::bound_procedure::BoundProcedure;
use crate::interpreter::RuntimeError;
use crate::procedure::Procedure;
use crate::special_form::SpecialForm;
use crate::value::SourceValue;

verus! {

/// Something that can stand in operator position: a special form, which gets
/// its operands unevaluated, or a procedure, which gets them evaluated.
#[derive(Debug, Clone, Copy, PartialEq, Eq, Structural)]
pub enum Callable {
    SpecialForm(SpecialForm),
    Procedure(Procedure),
}

/// A procedure call in tail position, bound to its evaluated operands but not yet made.
pub struct TailCallContext {
    pub bound_procedure: BoundProcedure,
}

/// What evaluating a callable gives: a value, or a tail call still to be made.
pub enum CallableSuccess {
    Value(SourceValue),
    TailCall(TailCallContext),
}

pub type CallableResult = Result<CallableSuccess, RuntimeError>;

} // verus!
