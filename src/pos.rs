//! A line and column in source text.
use vstd::prelude::*;

verus! {

/// A 1-based line and column.
#[derive(Debug, Clone, Copy, PartialEq, Eq, Structural)]
pub struct Pos {
    pub line: usize,
    pub column: usize,
}

impl Pos {
    pub fn new(line: usize, column: usize) -> (r: Self)
        ensures
            r.line == line,
            r.column == column,
    {
        Pos { line, column }
    }
}

impl Default for Pos {
    /// The start of the text: line 1, column 1.
    fn default() -> (r: Self)
        ensures
            r.line == 1,
            r.column == 1,
    {
        Pos::new(1, 1)
    }
}

} // verus!
