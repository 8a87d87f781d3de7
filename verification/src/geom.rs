//! Grid coordinates and direction offsets.

use vstd::prelude::*;

verus! {

/// Row-column coordinates on a level grid.
#[derive(Clone, Copy, PartialEq, Eq, Structural, Debug)]
pub struct Coords {
    pub row: i32,
    pub col: i32,
}

/// Row-column offset from [`Coords`].
#[derive(Clone, Copy, PartialEq, Eq, Structural, Debug)]
pub struct Offset {
    pub row: i32,
    pub col: i32,
}

impl Coords {
    pub fn new(row: i32, col: i32) -> (c: Coords)
        ensures
            c == (Coords { row, col }),
    {
        Coords { row, col }
    }

    /// The coordinates reached from `self` by `rhs`.
    pub fn plus(self, rhs: Offset) -> (c: Coords)
        requires
            i32::MIN <= self.row + rhs.row <= i32::MAX,
            i32::MIN <= self.col + rhs.col <= i32::MAX,
        ensures
            c == self.spec_plus(rhs),
    {
        Coords { row: self.row + rhs.row, col: self.col + rhs.col }
    }

    /// The coordinates reached from `self` by `rhs`, as unbounded integers.
    pub open spec fn spec_plus(self, rhs: Offset) -> Coords {
        Coords { row: (self.row + rhs.row) as i32, col: (self.col + rhs.col) as i32 }
    }
}

impl Offset {
    pub fn new(row: i32, col: i32) -> (o: Offset)
        ensures
            o == (Offset { row, col }),
    {
        Offset { row, col }
    }

    /// The unit offset one row up.
    pub fn up() -> (o: Offset)
        ensures
            o == Offset::spec_up(),
    {
        Offset { row: -1, col: 0 }
    }

    /// The unit offset one row down.
    pub fn down() -> (o: Offset)
        ensures
            o == Offset::spec_down(),
    {
        Offset { row: 1, col: 0 }
    }

    /// The unit offset one column left.
    pub fn left() -> (o: Offset)
        ensures
            o == Offset::spec_left(),
    {
        Offset { row: 0, col: -1 }
    }

    /// The unit offset one column right.
    pub fn right() -> (o: Offset)
        ensures
            o == Offset::spec_right(),
    {
        Offset { row: 0, col: 1 }
    }

    pub open spec fn spec_up() -> Offset {
        Offset { row: -1 as i32, col: 0 }
    }

    pub open spec fn spec_down() -> Offset {
        Offset { row: 1, col: 0 }
    }

    pub open spec fn spec_left() -> Offset {
        Offset { row: 0, col: -1 as i32 }
    }

    pub open spec fn spec_right() -> Offset {
        Offset { row: 0, col: 1 }
    }

    /// Whether `self` is one of the four canonical unit directions.
    pub open spec fn is_unit(self) -> bool {
        self == Offset::spec_up() || self == Offset::spec_down() || self == Offset::spec_left()
            || self == Offset::spec_right()
    }

    /// The opposite direction.
    pub fn negate(self) -> (o: Offset)
        requires
            self.row != i32::MIN,
            self.col != i32::MIN,
        ensures
            o == self.spec_negate(),
    {
        Offset { row: -self.row, col: -self.col }
    }

    pub open spec fn spec_negate(self) -> Offset {
        Offset { row: (-self.row) as i32, col: (-self.col) as i32 }
    }

    /// Offsets order by row, then by column; used as a deterministic
    /// tie-break when prioritizing teams.
    pub open spec fn spec_lt(self, other: Offset) -> bool {
        self.row < other.row || (self.row == other.row && self.col < other.col)
    }

    /// Whether `self` orders strictly before `other` (row, then column).
    pub fn lt(self, other: Offset) -> (r: bool)
        ensures
            r == self.spec_lt(other),
    {
        self.row < other.row || (self.row == other.row && self.col < other.col)
    }
}

} // verus!
