//! Failure values reported by the fallible rope operations.

use vstd::prelude::*;

verus! {

/// A slice was requested for a range that is empty, reversed, or reaches
/// past the end of the sequence.
#[derive(Clone, Copy, Debug, PartialEq, Eq)]
pub struct RangeError {
    pub start: usize,
    pub end: usize,
    pub len: usize,
}

/// An element was requested at a position at or beyond the length.
#[derive(Clone, Copy, Debug, PartialEq, Eq)]
pub struct IndexError {
    pub index: usize,
    pub len: usize,
}

/// A marker was placed at an offset at or beyond the chunk's element count.
#[derive(Clone, Copy, Debug, PartialEq, Eq)]
pub struct MarkerRangeError {
    pub at: usize,
    pub len: usize,
}

/// Why bulk loading produced no rope.
#[derive(Debug)]
pub enum LoadError<E> {
    /// The chunk source failed; its error is handed on untouched.
    Source(E),
    /// The chunk source ended before yielding a single chunk.
    NoChunks,
    /// The chunks together hold more elements, or are more numerous, than
    /// `usize` can count.
    TooLarge,
}

} // verus!
