use vstd::prelude::*;
use crate::cell::Cell;
use crate::coordinate::Coordinates;
use crate::direction::Direction;
use crate::maze::{lemma_slot_in_range, slot, valid_dimensions, Maze, MazeError};

verus! {

/// A cell as it is written down: its wall flags in the order north, east,
/// south, west, and its coordinates.
#[derive(Debug, PartialEq, Eq)]
pub struct CellRecord {
    pub walls: Vec<bool>,
    pub coordinates: Coordinates,
}

/// A grid as it is written down: its dimensions and its cells, row after row.
#[derive(Debug, PartialEq, Eq)]
pub struct MazeRecord {
    pub width: usize,
    pub height: usize,
    pub cells: Vec<CellRecord>,
}

/// The record of a cell says what the cell holds.
pub open spec fn entry_matches(entry: CellRecord, cell: Cell) -> bool {
    entry.walls@ == cell.flags() && entry.coordinates == cell.position()
}

impl MazeRecord {
    /// The record says what the grid holds: the same dimensions, and cell by
    /// cell the same flags and coordinates.
    pub open spec fn describes(&self, maze: &Maze) -> bool {
        &&& self.width == maze.cols()
        &&& self.height == maze.rows()
        &&& self.cells@.len() == maze.cell_seq().len()
        &&& forall|i: int|
            0 <= i < self.cells@.len() ==> entry_matches(
                #[trigger] self.cells@[i],
                maze.cell_seq()[i],
            )
    }

    /// Whether the coordinates lie within the recorded dimensions.
    pub open spec fn in_bounds(&self, place: Coordinates) -> bool {
        place.row < self.height && place.col < self.width
    }

    /// The recorded entry for the cell at `place`.
    pub open spec fn entry(&self, place: Coordinates) -> CellRecord {
        self.cells@[slot(self.width, place)]
    }

    /// The recorded wall flag of the cell at `place` on the given side.
    pub open spec fn wall(&self, place: Coordinates, side: Direction) -> bool {
        self.entry(place).walls@[side.index() as int]
    }

    /// The dimensions are those of a grid and there is one entry for each cell.
    pub open spec fn sized(&self) -> bool {
        valid_dimensions(self.width, self.height) && self.cells@.len() == self.width
            * self.height
    }

    /// Each entry has four wall flags and the coordinates of its own place.
    pub open spec fn placed(&self) -> bool {
        forall|place: Coordinates|
            self.in_bounds(place) ==> (#[trigger] self.entry(place)).walls@.len() == 4
                && self.entry(place).coordinates == place
    }

    /// The recorded walls agree from both sides.
    pub open spec fn symmetric(&self) -> bool {
        forall|place: Coordinates, side: Direction|
            #![trigger self.wall(place, side)]
            self.in_bounds(place) && self.in_bounds(Maze::neighbor(place, side)) ==> self.wall(
                place,
                side,
            ) == self.wall(Maze::neighbor(place, side), side.opposite())
    }

    /// The record is that of a well-formed grid.
    pub open spec fn valid(&self) -> bool {
        &&& self.sized()
        &&& self.placed()
        &&& self.symmetric()
    }
}

/// A record that describes a grid with cells in their places has entries in
/// their places, and says of each wall what the grid says.
proof fn lemma_described(record: &MazeRecord, maze: &Maze)
    requires
        record.describes(maze),
        maze.shaped(),
        maze.placed(),
    ensures
        record.sized(),
        record.placed(),
        forall|place: Coordinates, side: Direction|
            #![trigger record.wall(place, side)]
            record.in_bounds(place) ==> record.wall(place, side) == maze.has_wall(place, side),
{
    assert forall|place: Coordinates| record.in_bounds(place) implies (#[trigger] record.entry(
        place,
    )).walls@.len() == 4 && record.entry(place).coordinates == place by {
        lemma_slot_in_range(record.width, record.height, place);
        let i = slot(record.width, place);
        assert(entry_matches(record.cells@[i], maze.cell_seq()[i]));
        assert(maze.cell(place).position() == place);
    }
    assert forall|place: Coordinates, side: Direction|
        #![trigger record.wall(place, side)]
        record.in_bounds(place) implies record.wall(place, side) == maze.has_wall(
        place,
        side,
    ) by {
        lemma_slot_in_range(record.width, record.height, place);
        let i = slot(record.width, place);
        assert(entry_matches(record.cells@[i], maze.cell_seq()[i]));
    }
}

/// What is written down of a well-formed grid is a valid record, and a grid
/// read back from it is the grid that was written: the same dimensions and,
/// cell by cell, the same walls.
pub proof fn lemma_round_trip(maze: &Maze, record: &MazeRecord, loaded: &Maze)
    requires
        maze.wf(),
        record.describes(maze),
        record.describes(loaded),
    ensures
        record.valid(),
        loaded@ == maze@,
{
    lemma_described(record, maze);
    assert forall|place: Coordinates, side: Direction|
        #![trigger record.wall(place, side)]
        record.in_bounds(place) && record.in_bounds(
            Maze::neighbor(place, side),
        ) implies record.wall(place, side) == record.wall(
        Maze::neighbor(place, side),
        side.opposite(),
    ) by {
        assert(maze.cell(place).has_wall(side) == maze.has_wall(
            Maze::neighbor(place, side),
            side.opposite(),
        ));
        assert(record.wall(Maze::neighbor(place, side), side.opposite()) == maze.has_wall(
            Maze::neighbor(place, side),
            side.opposite(),
        ));
    }
    assert forall|i: int| 0 <= i < maze.cell_seq().len() implies loaded.cell_seq()[i]
        == maze.cell_seq()[i] by {
        let ours = maze.cell_seq()[i];
        let theirs = loaded.cell_seq()[i];
        assert(entry_matches(record.cells@[i], ours));
        assert(entry_matches(record.cells@[i], theirs));
        assert forall|side: Direction| ours.has_wall(side) == theirs.has_wall(side) by {
            assert(ours.flags()[side.index() as int] == theirs.flags()[side.index() as int]);
        }
        ours.lemma_same_cell(theirs);
    }
    assert(loaded.cell_seq() =~= maze.cell_seq());
}

impl Maze {
    /// Writes the grid down, cell by cell.
    pub fn export(&self) -> (record: MazeRecord)
        ensures
            record.describes(self),
    {
        let source = self.cells();
        let mut cells: Vec<CellRecord> = Vec::new();
        let mut i: usize = 0;
        while i < source.len()
            invariant
                source@ == self.cell_seq(),
                i <= source@.len(),
                cells@.len() == i,
                forall|j: int| 0 <= j < i ==> entry_matches(#[trigger] cells@[j], source@[j]),
            decreases source@.len() - i,
        {
            let cell = &source[i];
            let flags = cell.walls();
            let mut walls: Vec<bool> = Vec::new();
            walls.push(flags[0]);
            walls.push(flags[1]);
            walls.push(flags[2]);
            walls.push(flags[3]);
            assert(walls@ =~= cell.flags());
            cells.push(CellRecord { walls, coordinates: cell.coordinates() });
            i += 1;
        }
        MazeRecord { width: self.width(), height: self.height(), cells }
    }

    /// Reads a grid from what was written down. The record must be that of a
    /// well-formed grid: valid dimensions, one entry for each cell, each with
    /// four flags and the coordinates of its place, and walls that agree from
    /// both sides.
    pub fn load(record: &MazeRecord) -> (made: Result<Maze, MazeError>)
        ensures
            match made {
                Ok(maze) => record.valid() && maze.wf() && record.describes(&maze),
                Err(error) => !record.valid() && error == if valid_dimensions(
                    record.width,
                    record.height,
                ) {
                    MazeError::MalformedPersistedGrid
                } else {
                    MazeError::InvalidDimensions
                },
            },
    {
        let width = record.width;
        let height = record.height;
        if width == 0 || height == 0 {
            return Err(MazeError::InvalidDimensions);
        }
        match width.checked_mul(height) {
            None => {
                return Err(MazeError::InvalidDimensions);
            },
            Some(count) => {
                if count > isize::MAX as usize {
                    return Err(MazeError::InvalidDimensions);
                }
                if record.cells.len() != count {
                    return Err(MazeError::MalformedPersistedGrid);
                }
            },
        }
        let mut cells: Vec<Cell> = Vec::new();
        let mut row: usize = 0;
        while row < height
            invariant
                record.sized(),
                width == record.width,
                height == record.height,
                row <= height,
                cells@.len() == width * row,
                forall|place: Coordinates|
                    place.row < row && place.col < width ==> (#[trigger] record.entry(
                        place,
                    )).walls@.len() == 4 && record.entry(place).coordinates == place,
                forall|i: int|
                    0 <= i < cells@.len() ==> entry_matches(#[trigger] record.cells@[i], cells@[i]),
            decreases height - row,
        {
            let mut col: usize = 0;
            while col < width
                invariant
                    record.sized(),
                    width == record.width,
                    height == record.height,
                    row < height,
                    col <= width,
                    cells@.len() == width * row + col,
                    forall|place: Coordinates|
                        (place.row < row || (place.row == row && place.col < col)) && place.col
                            < width ==> (#[trigger] record.entry(place)).walls@.len() == 4
                            && record.entry(place).coordinates == place,
                    forall|i: int|
                        0 <= i < cells@.len() ==> entry_matches(
                            #[trigger] record.cells@[i],
                            cells@[i],
                        ),
                decreases width - col,
            {
                let place = Coordinates::new(row, col);
                proof {
                    lemma_slot_in_range(width, height, place);
                }
                let entry = &record.cells[cells.len()];
                if entry.walls.len() != 4 || entry.coordinates.row != row || entry.coordinates.col
                    != col {
                    proof {
                        assert(record.in_bounds(place));
                        assert(record.entry(place) == *entry);
                    }
                    return Err(MazeError::MalformedPersistedGrid);
                }
                let walls = [entry.walls[0], entry.walls[1], entry.walls[2], entry.walls[3]];
                assert(walls@ =~= entry.walls@);
                cells.push(Cell::with_walls(walls, place));
                col += 1;
            }
            proof {
                assert(width * row + width == width * (row + 1)) by (nonlinear_arith);
            }
            row += 1;
        }
        let maze = Maze::assemble(width, height, cells);
        proof {
            assert forall|place: Coordinates| maze.in_bounds(place) implies (#[trigger] maze.cell(
                place,
            )).position() == place by {
                lemma_slot_in_range(width, height, place);
                let i = slot(width, place);
                assert(entry_matches(record.cells@[i], maze.cell_seq()[i]));
                assert(record.entry(place).coordinates == place);
            }
            lemma_described(record, &maze);
        }
        let mut row: usize = 0;
        while row < height
            invariant
                maze.shaped(),
                maze.placed(),
                record.describes(&maze),
                record.sized(),
                record.placed(),
                width == record.width,
                height == record.height,
                row <= height,
                forall|place: Coordinates, side: Direction|
                    #![trigger record.wall(place, side)]
                    record.in_bounds(place) ==> record.wall(place, side) == maze.has_wall(
                        place,
                        side,
                    ),
                forall|place: Coordinates|
                    #![trigger record.wall(place, Direction::East)]
                    place.row < row && record.in_bounds(place) && record.in_bounds(
                        Maze::neighbor(place, Direction::East),
                    ) ==> record.wall(place, Direction::East) == record.wall(
                        Maze::neighbor(place, Direction::East),
                        Direction::West,
                    ),
                forall|place: Coordinates|
                    #![trigger record.wall(place, Direction::South)]
                    place.row < row && record.in_bounds(place) && record.in_bounds(
                        Maze::neighbor(place, Direction::South),
                    ) ==> record.wall(place, Direction::South) == record.wall(
                        Maze::neighbor(place, Direction::South),
                        Direction::North,
                    ),
            decreases height - row,
        {
            let mut col: usize = 0;
            while col < width
                invariant
                    maze.shaped(),
                    maze.placed(),
                    record.describes(&maze),
                    record.sized(),
                    record.placed(),
                    width == record.width,
                    height == record.height,
                    row < height,
                    col <= width,
                    forall|place: Coordinates, side: Direction|
                        #![trigger record.wall(place, side)]
                        record.in_bounds(place) ==> record.wall(place, side) == maze.has_wall(
                            place,
                            side,
                        ),
                    forall|place: Coordinates|
                        #![trigger record.wall(place, Direction::East)]
                        (place.row < row || (place.row == row && place.col < col))
                            && record.in_bounds(place) && record.in_bounds(
                            Maze::neighbor(place, Direction::East),
                        ) ==> record.wall(place, Direction::East) == record.wall(
                            Maze::neighbor(place, Direction::East),
                            Direction::West,
                        ),
                    forall|place: Coordinates|
                        #![trigger record.wall(place, Direction::South)]
                        (place.row < row || (place.row == row && place.col < col))
                            && record.in_bounds(place) && record.in_bounds(
                            Maze::neighbor(place, Direction::South),
                        ) ==> record.wall(place, Direction::South) == record.wall(
                            Maze::neighbor(place, Direction::South),
                            Direction::North,
                        ),
                decreases width - col,
            {
                let place = Coordinates::new(row, col);
                let cell = *maze.get(place).unwrap();
                if col + 1 < width {
                    let beside = *maze.get(Coordinates::new(row, col + 1)).unwrap();
                    if cell.wall(&Direction::East) != beside.wall(&Direction::West) {
                        assert(record.wall(place, Direction::East) != record.wall(
                            Maze::neighbor(place, Direction::East),
                            Direction::West,
                        ));
                        return Err(MazeError::MalformedPersistedGrid);
                    }
                }
                if row + 1 < height {
                    let below = *maze.get(Coordinates::new(row + 1, col)).unwrap();
                    if cell.wall(&Direction::South) != below.wall(&Direction::North) {
                        assert(record.wall(place, Direction::South) != record.wall(
                            Maze::neighbor(place, Direction::South),
                            Direction::North,
                        ));
                        return Err(MazeError::MalformedPersistedGrid);
                    }
                }
                assert(record.in_bounds(Maze::neighbor(place, Direction::East)) ==> record.wall(
                    place,
                    Direction::East,
                ) == record.wall(Maze::neighbor(place, Direction::East), Direction::West));
                assert(record.in_bounds(Maze::neighbor(place, Direction::South)) ==> record.wall(
                    place,
                    Direction::South,
                ) == record.wall(Maze::neighbor(place, Direction::South), Direction::North));
                col += 1;
            }
            row += 1;
        }
        proof {
            assert forall|place: Coordinates, side: Direction|
                #![trigger record.wall(place, side)]
                record.in_bounds(place) && record.in_bounds(
                    Maze::neighbor(place, side),
                ) implies record.wall(place, side) == record.wall(
                Maze::neighbor(place, side),
                side.opposite(),
            ) by {
                let beyond = Maze::neighbor(place, side);
                match side {
                    Direction::East => {},
                    Direction::South => {},
                    Direction::West => {
                        assert(Maze::neighbor(beyond, Direction::East) == place);
                        assert(record.wall(beyond, Direction::East) == record.wall(
                            place,
                            Direction::West,
                        ));
                    },
                    Direction::North => {
                        assert(Maze::neighbor(beyond, Direction::South) == place);
                        assert(record.wall(beyond, Direction::South) == record.wall(
                            place,
                            Direction::North,
                        ));
                    },
                }
            }
            assert forall|place: Coordinates, side: Direction|
                #![trigger maze.cell(place).has_wall(side)]
                maze.in_bounds(place) && maze.in_bounds(
                    Maze::neighbor(place, side),
                ) implies maze.has_wall(place, side) == maze.has_wall(
                Maze::neighbor(place, side),
                side.opposite(),
            ) by {
                assert(record.wall(place, side) == record.wall(
                    Maze::neighbor(place, side),
                    side.opposite(),
                ));
            }
        }
        Ok(maze)
    }
}

} // verus!
