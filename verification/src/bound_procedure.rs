use vstd::prelude::*;

use crate::procedure::Procedure;
use crate::source_mapped::SourceRange;
use crate::string_interner::InternedString;
use crate::value::SourceValue;

verus! {

/// A procedure together with its evaluated operands, ready to be called.
pub struct BoundProcedure {
    pub procedure: Procedure,
    pub operands: Vec<SourceValue>,
    pub range: SourceRange,
}

impl BoundProcedure {
    pub fn name(&self) -> (res: Option<InternedString>)
        ensures
            res == self.procedure.spec_name(),
    {
        self.procedure.name()
    }
}

} // verus!
