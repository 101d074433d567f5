//! Line/column/offset positions in the source text.
use vstd::prelude::*;

verus! {

/// A position in the source text: 1-based line and column, and the 0-based
/// index of the position in the text's character sequence.
#[derive(Debug, Clone, Copy, PartialEq, Eq, Structural)]
pub struct Location {
    pub line: usize,
    pub column: usize,
    pub offset: usize,
}

/// The span of a token or node: `start` is the first character, `end` is one
/// past the last character consumed.
#[derive(Debug, Clone, Copy, PartialEq, Eq, Structural)]
pub struct LocationRange {
    pub start: Location,
    pub end: Location,
}

impl Location {
    /// Well-formedness of a cursor over a text of `n` characters: lines and
    /// columns are 1-based, and neither can outrun the offset, which stays
    /// inside the text.
    pub open spec fn wf(self, n: nat) -> bool {
        &&& 1 <= self.line <= self.offset + 1
        &&& 1 <= self.column <= self.offset + 1
        &&& self.offset <= n
    }

    /// The position `count` characters further along the same line.
    pub open spec fn spec_advance(self, count: nat) -> Location {
        Location {
            line: self.line,
            column: (self.column + count) as usize,
            offset: (self.offset + count) as usize,
        }
    }

    /// The position just after a newline character at `self`.
    pub open spec fn spec_advance_new_line(self) -> Location {
        Location { line: (self.line + 1) as usize, column: 1, offset: (self.offset + 1) as usize }
    }

    /// The position after `count` further characters, the last of which is a
    /// newline that has already been "seen" but whose line transition is only
    /// now applied: used while scanning block comments.
    pub open spec fn spec_advance_and_new_line(self, count: nat) -> Location {
        Location { line: (self.line + 1) as usize, column: 1, offset: (self.offset + count) as usize }
    }

    pub fn new(line: usize, column: usize, offset: usize) -> (r: Location)
        ensures
            r == (Location { line, column, offset }),
    {
        Location { line, column, offset }
    }

    pub fn advance(&self, char_count: usize) -> (r: Location)
        requires
            self.column + char_count <= usize::MAX,
            self.offset + char_count <= usize::MAX,
        ensures
            r == self.spec_advance(char_count as nat),
    {
        Location {
            line: self.line,
            column: self.column + char_count,
            offset: self.offset + char_count,
        }
    }

    pub fn advance_new_line(&self) -> (r: Location)
        requires
            self.line + 1 <= usize::MAX,
            self.offset + 1 <= usize::MAX,
        ensures
            r == self.spec_advance_new_line(),
    {
        Location { line: self.line + 1, column: 1, offset: self.offset + 1 }
    }

    pub fn advance_and_new_line(&self, char_count: usize) -> (r: Location)
        requires
            self.line + 1 <= usize::MAX,
            self.offset + char_count <= usize::MAX,
        ensures
            r == self.spec_advance_and_new_line(char_count as nat),
    {
        Location { line: self.line + 1, column: 1, offset: self.offset + char_count }
    }
}

} // verus!
