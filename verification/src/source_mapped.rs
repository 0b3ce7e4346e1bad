use vstd::prelude::*;
use vstd::string::StrSliceExecFns;

use crate::source_mapper::SourceId;

verus! {

/// A range of characters `(start, end, source)`: positions are counted in
/// characters from the beginning of the source text, `end` exclusive.
pub type SourceRange = (usize, usize, Option<SourceId>);

/// A value together with the range of source text it came from.
#[derive(Debug, Copy)]
pub struct SourceMapped<T>(pub T, pub SourceRange);

impl<T: Copy> Clone for SourceMapped<T> {
    fn clone(&self) -> (res: Self)
        ensures
            res == *self,
    {
        *self
    }
}

impl<T> SourceMapped<T> {
    /// The text that this item's range covers within `source`.
    pub fn source<'a>(&self, source: &'a str) -> (res: &'a str)
        requires
            self.1.0 <= self.1.1 <= source@.len(),
        ensures
            res@ == source@.subrange(self.1.0 as int, self.1.1 as int),
    {
        let (start, end, _) = self.1;
        source.substring_char(start, end)
    }

    /// Returns a range extending from the beginning of this item's
    /// range to the end of the given range.
    pub fn extend_range(&self, other: &SourceRange) -> (res: SourceRange)
        requires
            self.1.2 == other.2,
        ensures
            res == (self.1.0, other.1, self.1.2),
    {
        (self.1.0, other.1, self.1.2)
    }
}

/// Attaches a source range to any value.
pub trait SourceMappable: Sized {
    fn source_mapped(self, range: SourceRange) -> (res: SourceMapped<Self>)
        ensures
            res == SourceMapped(self, range),
    ;

    /// Use of this is to be avoided if possible. Only use it when we don't have
    /// access to the source map or it's not applicable for some reason.
    fn empty_source_map(self) -> (res: SourceMapped<Self>)
        ensures
            res == SourceMapped(self, (0usize, 0usize, None::<SourceId>)),
    ;
}

impl<T> SourceMappable for T {
    fn source_mapped(self, range: SourceRange) -> (res: SourceMapped<Self>) {
        SourceMapped(self, range)
    }

    fn empty_source_map(self) -> (res: SourceMapped<Self>) {
        SourceMapped(self, (0, 0, None))
    }
}

} // verus!
