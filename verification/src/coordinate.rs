use vstd::prelude::*;
use vstd::std_specs::convert::FromSpecImpl;
use vstd::std_specs::ops::AddSpecImpl;

verus! {

/// The position of a cell: its row, counted from the top, and its column,
/// counted from the left.
#[derive(Debug, Hash, Eq, PartialEq, Copy, Clone, Structural)]
pub struct Coordinates {
    pub row: usize,
    pub col: usize,
}

impl Coordinates {
    /// The coordinates of the given row and column.
    pub fn new(row: usize, col: usize) -> (coordinates: Self)
        ensures
            coordinates == (Coordinates { row, col }),
    {
        Self { row, col }
    }

    /// The coordinates reached by adding a signed step to each component.
    /// The sum wraps around at the limits of `usize`, so a step off the grid
    /// gives coordinates that are not on it; the grid decides what is in bounds.
    pub open spec fn shifted(self, delta: (isize, isize)) -> Coordinates {
        Coordinates {
            row: vstd::wrapping::usize_specs::wrapping_add_signed(self.row, delta.0),
            col: vstd::wrapping::usize_specs::wrapping_add_signed(self.col, delta.1),
        }
    }
}

impl From<Coordinates> for (usize, usize) {
    fn from(coordinates: Coordinates) -> (pair: (usize, usize)) {
        (coordinates.row, coordinates.col)
    }
}

impl FromSpecImpl<Coordinates> for (usize, usize) {
    open spec fn obeys_from_spec() -> bool {
        true
    }

    open spec fn from_spec(coordinates: Coordinates) -> (usize, usize) {
        (coordinates.row, coordinates.col)
    }
}

impl From<(usize, usize)> for Coordinates {
    fn from(t: (usize, usize)) -> (coordinates: Coordinates) {
        Coordinates { row: t.0, col: t.1 }
    }
}

impl FromSpecImpl<(usize, usize)> for Coordinates {
    open spec fn obeys_from_spec() -> bool {
        true
    }

    open spec fn from_spec(t: (usize, usize)) -> Coordinates {
        Coordinates { row: t.0, col: t.1 }
    }
}

impl std::ops::Add<(isize, isize)> for Coordinates {
    type Output = Coordinates;

    fn add(self, rhs: (isize, isize)) -> (sum: Coordinates) {
        Coordinates {
            row: self.row.wrapping_add_signed(rhs.0),
            col: self.col.wrapping_add_signed(rhs.1),
        }
    }
}

impl AddSpecImpl<(isize, isize)> for Coordinates {
    open spec fn obeys_add_spec() -> bool {
        true
    }

    open spec fn add_req(self, rhs: (isize, isize)) -> bool {
        true
    }

    open spec fn add_spec(self, rhs: (isize, isize)) -> Coordinates {
        self.shifted(rhs)
    }
}

} // verus!
