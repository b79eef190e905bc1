//! Byte ranges of source text.

use vstd::prelude::*;

verus! {

/// The byte range `start..end` of a node in the source text.
#[derive(Clone, Copy, Debug, PartialEq, Eq, Hash, Structural)]
pub struct Span {
    /// The zero-based start offset.
    pub start: u32,
    /// The zero-based end offset; not less than `start`.
    pub end: u32,
}

impl Span {
    /// The span `start..end`.
    pub fn new(start: u32, end: u32) -> (r: Span)
        ensures
            r == (Span { start, end }),
    {
        Span { start, end }
    }

    /// The span as a pair of offsets, the key of a memo table.
    pub open spec fn spec_key(self) -> (usize, usize) {
        (self.start as usize, self.end as usize)
    }

    /// The span as a pair of offsets, the key of a memo table.
    pub fn key(self) -> (r: (usize, usize))
        ensures
            r == self.spec_key(),
    {
        (self.start as usize, self.end as usize)
    }

    /// Whether `span` lies within `self`, bounds included.
    pub open spec fn spec_contains_inclusive(self, span: Span) -> bool {
        self.start <= span.start && span.end <= self.end
    }

    /// Whether `span` lies within `self`, bounds included.
    pub fn contains_inclusive(self, span: Span) -> (r: bool)
        ensures
            r == self.spec_contains_inclusive(span),
    {
        self.start <= span.start && span.end <= self.end
    }
}

} // verus!
