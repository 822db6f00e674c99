//! Source locations carried for diagnostics only.

use vstd::prelude::*;

verus! {

/// A region of the source text: byte offset and length.
#[derive(Debug, Clone, Copy, PartialEq, Eq, Structural, Hash)]
pub struct Span {
    pub start: usize,
    pub len: usize,
}

impl Span {
    pub fn new(start: usize, len: usize) -> (r: Span)
        ensures
            r.start == start,
            r.len == len,
    {
        Span { start, len }
    }
}

} // verus!
