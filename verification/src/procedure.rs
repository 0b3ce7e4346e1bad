use vstd::prelude::*;

use crate::builtin_procedure::BuiltinProcedure;
use crate::compound_procedure::CompoundProcedure;
use crate::string_interner::InternedString;

verus! {

/// A procedure: one defined in Scheme code, or a builtin.
#[derive(Debug, Clone, Copy, PartialEq, Eq, Structural)]
pub enum Procedure {
    Compound(CompoundProcedure),
    Builtin(BuiltinProcedure),
}

impl Procedure {
    pub open spec fn spec_name(&self) -> Option<InternedString> {
        match self {
            Procedure::Builtin(builtin) => Some(builtin.name),
            Procedure::Compound(compound) => compound.name,
        }
    }

    pub fn name(&self) -> (res: Option<InternedString>)
        ensures
            res == self.spec_name(),
    {
        match self {
            Procedure::Builtin(builtin) => Some(builtin.name),
            Procedure::Compound(compound) => compound.name,
        }
    }
}

} // verus!
