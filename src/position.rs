use vstd::prelude::*;

verus! {

/// Where a record starts in the input: the line of its header (counted from 1)
/// and the byte offset of its header from the start of the input.
#[derive(Clone, Copy, Debug, PartialEq, Eq, Structural, PartialOrd, Ord)]
pub struct Position {
    pub index: u64,
    pub offset: u64,
}

impl Position {
    pub fn new(index: u64, offset: u64) -> (r: Position)
        ensures
            r.index == index,
            r.offset == offset,
    {
        Position { index, offset }
    }

    /// Line number of the header (starting with 1).
    pub fn index(&self) -> (r: u64)
        ensures
            r == self.index,
    {
        self.index
    }

    /// Byte offset of the header within the input.
    pub fn offset(&self) -> (r: u64)
        ensures
            r == self.offset,
    {
        self.offset
    }
}

} // verus!
