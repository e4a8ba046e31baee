use vstd::prelude::*;

verus! {

/// A half-open byte range `start..end` into the parsed source.
#[derive(Debug, Clone, Copy, PartialEq, Eq, Structural, Default, Hash)]
pub struct Span {
    pub start: u32,
    pub end: u32,
}

impl Span {
    /// Build the span `start..end`.
    pub fn new(start: u32, end: u32) -> (span: Span)
        ensures
            span.start == start,
            span.end == end,
    {
        Span { start, end }
    }
}

} // verus!
