use vstd::prelude::*;

verus! {

/// A cell of the board, named by its two indices.
#[derive(Debug, Clone, Copy, PartialEq, Eq, Structural, PartialOrd, Ord, Hash)]
pub struct Coordinates(pub u8, pub u8);

impl Coordinates {
    /// Both indices lie below `count`.
    pub open spec fn in_bounds(self, count: int) -> bool {
        self.0 < count && self.1 < count
    }

    /// The order of the grid: by the first index, then by the second.
    pub open spec fn precedes(self, other: Coordinates) -> bool {
        self.0 < other.0 || (self.0 == other.0 && self.1 < other.1)
    }

    /// The two cells share a side.
    pub open spec fn adjacent(self, other: Coordinates) -> bool {
        ||| (self.1 == other.1 && (self.0 + 1 == other.0 || other.0 + 1 == self.0))
        ||| (self.0 == other.0 && (self.1 + 1 == other.1 || other.1 + 1 == self.1))
    }
}

} // verus!
