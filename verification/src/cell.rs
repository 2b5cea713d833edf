use vstd::prelude::*;
use vstd::string::*;
use crate::coordinate::Coordinates;
use crate::coordinate_set::CoordinateSet;
use crate::direction::Direction;
use crate::maze::Maze;
use crate::random::random_below;

verus! {

/// The glyph drawn for a wall that stands.
pub open spec fn wall_glyph() -> char {
    '\u{2588}'
}

/// The glyph drawn for a passage and for the inside of an unmarked cell.
pub open spec fn gap_glyph() -> char {
    ' '
}

/// The glyph drawn inside a marked cell.
pub open spec fn mark_glyph() -> char {
    'X'
}

/// The glyph for one wall flag.
pub open spec fn flag_glyph(standing: bool) -> char {
    if standing {
        wall_glyph()
    } else {
        gap_glyph()
    }
}

/// One unit of the grid: four wall flags and the cell's own position.
#[derive(Debug, Clone, Copy, PartialEq, Eq, Structural)]
pub struct Cell {
    north: bool,
    east: bool,
    south: bool,
    west: bool,
    coordinates: Coordinates,
}

impl Cell {
    /// Whether the wall on the given side stands.
    pub closed spec fn has_wall(self, direction: Direction) -> bool {
        match direction {
            Direction::North => self.north,
            Direction::East => self.east,
            Direction::South => self.south,
            Direction::West => self.west,
        }
    }

    /// Where the cell says it lies.
    pub closed spec fn position(self) -> Coordinates {
        self.coordinates
    }

    /// The four wall flags in the order north, east, south, west.
    pub open spec fn flags(self) -> Seq<bool> {
        seq![
            self.has_wall(Direction::North),
            self.has_wall(Direction::East),
            self.has_wall(Direction::South),
            self.has_wall(Direction::West),
        ]
    }

    /// All four walls of the cell stand.
    pub open spec fn walled(self) -> bool {
        forall|direction: Direction| self.has_wall(direction)
    }

    /// The three glyphs that the cell contributes to one text row. Row 0 is the
    /// cell's upper edge: a corner, the north wall, a corner. Any other row is
    /// its body: the west wall, the inside (marked or not), the east wall.
    pub open spec fn row_glyphs(self, row: usize, mark: Option<bool>) -> Seq<char> {
        if row == 0 {
            seq![wall_glyph(), flag_glyph(self.has_wall(Direction::North)), wall_glyph()]
        } else {
            seq![
                flag_glyph(self.has_wall(Direction::West)),
                if mark == Some(true) {
                    mark_glyph()
                } else {
                    gap_glyph()
                },
                flag_glyph(self.has_wall(Direction::East)),
            ]
        }
    }

    /// The neighbour on the given side is a cell of the grid and not among
    /// the visited.
    pub open spec fn unvisited(
        self,
        maze: &Maze,
        visited: Set<Coordinates>,
        direction: Direction,
    ) -> bool {
        let beyond = Maze::neighbor(self.position(), direction);
        maze.in_bounds(beyond) && !visited.contains(beyond)
    }

    /// The direction itself where the neighbour on that side is unvisited,
    /// and nothing where it is not.
    pub open spec fn unvisited_or_none(
        self,
        maze: &Maze,
        visited: Set<Coordinates>,
        direction: Direction,
    ) -> Seq<Direction> {
        if self.unvisited(maze, visited, direction) {
            seq![direction]
        } else {
            Seq::<Direction>::empty()
        }
    }

    /// The sides on which the neighbour is unvisited, in the order north,
    /// east, south, west.
    pub open spec fn unvisited_directions(self, maze: &Maze, visited: Set<Coordinates>) -> Seq<
        Direction,
    > {
        self.unvisited_or_none(maze, visited, Direction::North) + self.unvisited_or_none(
            maze,
            visited,
            Direction::East,
        ) + self.unvisited_or_none(maze, visited, Direction::South) + self.unvisited_or_none(
            maze,
            visited,
            Direction::West,
        )
    }

    /// A side is listed among the unvisited directions exactly when the
    /// neighbour on that side is unvisited.
    pub proof fn lemma_unvisited_directions(
        self,
        maze: &Maze,
        visited: Set<Coordinates>,
        direction: Direction,
    )
        ensures
            self.unvisited_directions(maze, visited).contains(direction) == self.unvisited(
                maze,
                visited,
                direction,
            ),
            self.unvisited_directions(maze, visited).len() <= 4,
    {
        let north = self.unvisited_or_none(maze, visited, Direction::North);
        let east = self.unvisited_or_none(maze, visited, Direction::East);
        let south = self.unvisited_or_none(maze, visited, Direction::South);
        let west = self.unvisited_or_none(maze, visited, Direction::West);
        let all = self.unvisited_directions(maze, visited);
        assert(all == north + east + south + west);
        if self.unvisited(maze, visited, direction) {
            match direction {
                Direction::North => {
                    assert(all[0] == direction);
                },
                Direction::East => {
                    assert(all[north.len() as int] == direction);
                },
                Direction::South => {
                    assert(all[(north.len() + east.len()) as int] == direction);
                },
                Direction::West => {
                    assert(all[(north.len() + east.len() + south.len()) as int] == direction);
                },
            }
        } else if all.contains(direction) {
            let i = choose|i: int| 0 <= i < all.len() && all[i] == direction;
            if i < north.len() {
            } else if i < north.len() + east.len() {
            } else if i < north.len() + east.len() + south.len() {
            } else {
            }
        }
    }

    /// Two cells with the same position and the same four flags are the same cell.
    pub proof fn lemma_same_cell(self, other: Cell)
        requires
            self.position() == other.position(),
            forall|direction: Direction| self.has_wall(direction) == other.has_wall(direction),
        ensures
            self == other,
    {
        assert(self.has_wall(Direction::North) == other.has_wall(Direction::North));
        assert(self.has_wall(Direction::East) == other.has_wall(Direction::East));
        assert(self.has_wall(Direction::South) == other.has_wall(Direction::South));
        assert(self.has_wall(Direction::West) == other.has_wall(Direction::West));
    }

    /// A cell at the given place with all four walls standing.
    pub fn new(row: usize, col: usize) -> (cell: Self)
        ensures
            cell.walled(),
            cell.position() == (Coordinates { row, col }),
    {
        Self { north: true, east: true, south: true, west: true, coordinates: Coordinates::new(row, col) }
    }

    /// A cell with the given flags, in the order north, east, south, west.
    pub fn with_walls(walls: [bool; 4], coordinates: Coordinates) -> (cell: Self)
        ensures
            cell.flags() == walls@,
            cell.position() == coordinates,
    {
        let cell = Self {
            north: walls[0],
            east: walls[1],
            south: walls[2],
            west: walls[3],
            coordinates,
        };
        assert(cell.flags() =~= walls@);
        cell
    }

    /// Where the cell says it lies.
    pub fn coordinates(&self) -> (coordinates: Coordinates)
        ensures
            coordinates == self.position(),
    {
        self.coordinates
    }

    /// The four wall flags in the order north, east, south, west.
    pub fn walls(&self) -> (walls: [bool; 4])
        ensures
            walls@ == self.flags(),
    {
        let walls = [self.north, self.east, self.south, self.west];
        assert(walls@ =~= self.flags());
        walls
    }

    fn neighbor<'a>(&self, maze: &'a Maze, direction: Direction) -> (found: Option<&'a Cell>)
        requires
            maze.shaped(),
        ensures
            found == if maze.in_bounds(Maze::neighbor(self.position(), direction)) {
                Some(&maze.cell(Maze::neighbor(self.position(), direction)))
            } else {
                None
            },
    {
        let adjusted = self.coordinates + direction.step();
        maze.get(adjusted)
    }

    fn is_unvisited(&self, maze: &Maze, visited: &CoordinateSet, direction: Direction) -> (fresh:
        bool)
        requires
            maze.shaped(),
        ensures
            fresh == self.unvisited(maze, visited@, direction),
    {
        match self.neighbor(maze, direction) {
            Some(_) => !visited.contains(&(self.coordinates + direction.step())),
            None => false,
        }
    }

    /// Whether some neighbour of this cell is on the grid and unvisited.
    pub fn has_unvisited_neighbor(&self, maze: &Maze, visited: &CoordinateSet) -> (any: bool)
        requires
            maze.shaped(),
        ensures
            any == exists|direction: Direction| self.unvisited(maze, visited@, direction),
            any == (self.unvisited_directions(maze, visited@).len() > 0),
    {
        let unvisited = self.unvisited_neighbors(maze, visited);
        proof {
            let all = self.unvisited_directions(maze, visited@);
            if all.len() > 0 {
                self.lemma_unvisited_directions(maze, visited@, all[0]);
            } else {
                assert forall|direction: Direction| !self.unvisited(
                    maze,
                    visited@,
                    direction,
                ) by {
                    self.lemma_unvisited_directions(maze, visited@, direction);
                }
            }
        }
        unvisited.len() > 0
    }

    /// The sides on which the neighbour is on the grid and unvisited, in the
    /// order north, east, south, west.
    pub fn unvisited_neighbors(&self, maze: &Maze, visited: &CoordinateSet) -> (found: Vec<
        Direction,
    >)
        requires
            maze.shaped(),
        ensures
            found@ == self.unvisited_directions(maze, visited@),
    {
        let mut found: Vec<Direction> = Vec::new();
        if self.is_unvisited(maze, visited, Direction::North) {
            found.push(Direction::North);
        }
        if self.is_unvisited(maze, visited, Direction::East) {
            found.push(Direction::East);
        }
        if self.is_unvisited(maze, visited, Direction::South) {
            found.push(Direction::South);
        }
        if self.is_unvisited(maze, visited, Direction::West) {
            found.push(Direction::West);
        }
        assert(found@ =~= self.unvisited_directions(maze, visited@));
        found
    }

    /// The direction that stands at place `choice` among the sides with an
    /// unvisited neighbour, or nothing where there are not so many.
    pub fn nth_unvisited_neighbor(
        &self,
        maze: &Maze,
        visited: &CoordinateSet,
        choice: usize,
    ) -> (picked: Option<Direction>)
        requires
            maze.shaped(),
        ensures
            picked == if choice < self.unvisited_directions(maze, visited@).len() {
                Some(self.unvisited_directions(maze, visited@)[choice as int])
            } else {
                None
            },
    {
        let candidates = self.unvisited_neighbors(maze, visited);
        if choice < candidates.len() {
            Some(candidates[choice])
        } else {
            None
        }
    }

    /// A side with an unvisited neighbour, drawn at random among all such
    /// sides. There must be one.
    pub fn get_unvisited_neighbor(&self, maze: &Maze, visited: &CoordinateSet) -> (direction:
        Direction)
        requires
            maze.shaped(),
            exists|side: Direction| self.unvisited(maze, visited@, side),
        ensures
            self.unvisited(maze, visited@, direction),
            self.unvisited_directions(maze, visited@).contains(direction),
    {
        let candidates = self.unvisited_neighbors(maze, visited);
        proof {
            let side = choose|side: Direction| self.unvisited(maze, visited@, side);
            self.lemma_unvisited_directions(maze, visited@, side);
        }
        let index = random_below(candidates.len());
        let direction = candidates[index];
        proof {
            assert(self.unvisited_directions(maze, visited@)[index as int] == direction);
            self.lemma_unvisited_directions(maze, visited@, direction);
        }
        direction
    }

    /// Whether the wall on the given side stands.
    pub fn wall(&self, direction: &Direction) -> (standing: bool)
        ensures
            standing == self.has_wall(*direction),
    {
        match direction {
            Direction::North => self.north,
            Direction::East => self.east,
            Direction::South => self.south,
            Direction::West => self.west,
        }
    }

    /// Raises (`true`) or opens (`false`) the wall on the given side of this
    /// cell. The neighbour's side of the wall is not touched: a grid opens
    /// both at once with `Maze::remove_wall`.
    pub fn set_wall(&mut self, direction: Direction, value: bool)
        ensures
            final(self).position() == old(self).position(),
            final(self).has_wall(direction) == value,
            forall|other: Direction|
                other != direction ==> final(self).has_wall(other) == old(self).has_wall(other),
    {
        match direction {
            Direction::North => {
                self.north = value;
            },
            Direction::East => {
                self.east = value;
            },
            Direction::South => {
                self.south = value;
            },
            Direction::West => {
                self.west = value;
            },
        }
    }

    /// The three glyphs that the cell contributes to one text row: its upper
    /// edge for row 0, its body for any other row.
    pub fn row_string(&self, row: usize, mark: Option<bool>) -> (text: String)
        ensures
            text@ == self.row_glyphs(row, mark),
    {
        proof {
            reveal_strlit("\u{2588}");
            reveal_strlit(" ");
            reveal_strlit("X");
        }
        let mut ret = String::new();
        if row == 0 {
            ret.append("\u{2588}");
            ret.append(if self.north { "\u{2588}" } else { " " });
            ret.append("\u{2588}");
        } else {
            ret.append(if self.west { "\u{2588}" } else { " " });
            let marked = match mark {
                Some(flag) => flag,
                None => false,
            };
            ret.append(if marked { "X" } else { " " });
            ret.append(if self.east { "\u{2588}" } else { " " });
        }
        assert(ret@ =~= self.row_glyphs(row, mark));
        ret
    }
}

} // verus!
