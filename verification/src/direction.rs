use vstd::prelude::*;

verus! {

/// One of the four sides of a cell. The sides are ordered as their wall flags
/// are: north, east, south, west.
#[derive(Hash, PartialEq, Eq, PartialOrd, Ord, Clone, Debug, Copy, Structural)]
pub enum Direction {
    North,
    East,
    South,
    West,
}

/// The order in which the solver looks at the neighbours of a cell.
pub const DIRECTIONS: [Direction; 4] = [
    Direction::North,
    Direction::South,
    Direction::East,
    Direction::West,
];

impl Direction {
    /// The position of this direction's flag among the four walls of a cell.
    pub open spec fn index(self) -> nat {
        match self {
            Direction::North => 0,
            Direction::East => 1,
            Direction::South => 2,
            Direction::West => 3,
        }
    }

    /// The direction that points back: north and south swap, east and west swap.
    pub open spec fn opposite(self) -> Direction {
        match self {
            Direction::North => Direction::South,
            Direction::East => Direction::West,
            Direction::South => Direction::North,
            Direction::West => Direction::East,
        }
    }

    /// The unit step `(row delta, column delta)` taken when moving one cell in
    /// this direction. Rows grow to the south, columns to the east.
    pub open spec fn adjustment(self) -> (isize, isize) {
        match self {
            Direction::North => (-1isize, 0isize),
            Direction::East => (0isize, 1isize),
            Direction::South => (1isize, 0isize),
            Direction::West => (0isize, -1isize),
        }
    }

    /// The position of this direction's flag among the four walls of a cell.
    pub fn value(&self) -> (index: usize)
        ensures
            index == self.index(),
            index < 4,
    {
        match self {
            Direction::North => 0,
            Direction::East => 1,
            Direction::South => 2,
            Direction::West => 3,
        }
    }

    /// The direction that points back.
    pub fn reverse(&self) -> (back: Direction)
        ensures
            back == self.opposite(),
    {
        match self {
            Direction::North => Direction::South,
            Direction::East => Direction::West,
            Direction::South => Direction::North,
            Direction::West => Direction::East,
        }
    }

    /// The unit step `(row delta, column delta)` in this direction.
    pub fn step(&self) -> (delta: (isize, isize))
        ensures
            delta == self.adjustment(),
    {
        match self {
            Direction::North => (-1, 0),
            Direction::East => (0, 1),
            Direction::South => (1, 0),
            Direction::West => (0, -1),
        }
    }
}

} // verus!
