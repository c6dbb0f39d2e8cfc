//! Positions in the input.
use vstd::prelude::*;

verus! {

/// A stretch of the input, given by its first byte and its length.
#[derive(Clone, Copy, Debug, PartialEq, Eq, Structural)]
pub struct Span {
    /// Offset of the first byte.
    pub start: usize,
    /// Number of bytes.
    pub len: usize,
}

impl Span {
    /// Creates the span of `len` bytes from `start`.
    pub fn new(start: usize, len: usize) -> (r: Self)
        ensures
            r.start == start,
            r.len == len,
    {
        Span { start, len }
    }

    /// Returns the offset of the first byte.
    pub fn start(&self) -> (r: usize)
        ensures
            r == self.start,
    {
        self.start
    }

    /// Returns the number of bytes.
    pub fn len(&self) -> (r: usize)
        ensures
            r == self.len,
    {
        self.len
    }

    /// Returns whether the span covers no byte.
    pub fn is_empty(&self) -> (r: bool)
        ensures
            r == (self.len == 0),
    {
        self.len == 0
    }

    /// Returns the offset just past the last byte.
    pub fn end(&self) -> (r: usize)
        requires
            self.start + self.len <= usize::MAX,
        ensures
            r == self.start + self.len,
    {
        self.start + self.len
    }
}

impl Default for Span {
    /// The empty span at the start of the input.
    fn default() -> (r: Self)
        ensures
            r == (Span { start: 0, len: 0 }),
    {
        Span { start: 0, len: 0 }
    }
}

/// A value with the part of the input that it was read from.
#[derive(Debug)]
pub struct Spanned<T> {
    /// The value.
    pub node: T,
    /// Where it was read.
    pub span: Span,
}

} // verus!
