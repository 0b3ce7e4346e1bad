use vstd::prelude::*;

use crate::source_mapper::{SourceId, SourceMapper};

verus! {

/// The name under which the library is added to a source mapper.
pub const LIBRARY_FILENAME: &'static str = "library.sch";

/// Scheme definitions that every interpreter evaluates before its first program.
pub const LIBRARY_CONTENTS: &'static str = "(define (abs x) (if (< x 0) (- x) x))
(define (newline) (display \"\\n\"))
(define (zero? x) (= x 0))
(define (null? x) (eq? x '()))
";

/// Adds the library's source text to `source_mapper` and returns its id.
pub fn add_library_source(source_mapper: &mut SourceMapper) -> (res: SourceId)
    ensures
        res.0 == old(source_mapper)@.len(),
        final(source_mapper)@ == old(source_mapper)@.push((LIBRARY_FILENAME@, LIBRARY_CONTENTS@)),
{
    source_mapper.add(String::from_str(LIBRARY_FILENAME), String::from_str(LIBRARY_CONTENTS))
}

} // verus!
