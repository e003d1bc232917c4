use vstd::prelude::*;

verus! {

/// A place in a document: 0-based line index and a character offset within
/// that line, counted in bytes from the line's first byte.
#[derive(Clone, Copy, Debug, PartialEq, Eq, Structural)]
pub struct Position {
    pub line: u32,
    pub character: u32,
}

/// A span of the document between two positions, start inclusive and end
/// exclusive.
#[derive(Clone, Copy, Debug, PartialEq, Eq, Structural)]
pub struct Span {
    pub start: Position,
    pub end: Position,
}

} // verus!
