use vstd::prelude::*;
use crate::cell::Cell;
use crate::coordinate::Coordinates;
use crate::direction::Direction;

verus! {

/// What can go wrong at the boundary of the grid model.
#[derive(Debug, Clone, Copy, PartialEq, Eq, Structural)]
pub enum MazeError {
    /// A width or height of zero, or a grid with more cells than fit in memory.
    InvalidDimensions,
    /// Coordinates, or the neighbour they point at, that are not on the grid.
    OutOfBounds,
    /// Persisted data that does not describe a grid.
    MalformedPersistedGrid,
}

/// Whether a grid of this size can be built: both sides are positive, and the
/// number of cells is one that a vector can hold, which is at most `isize::MAX`.
pub open spec fn valid_dimensions(width: usize, height: usize) -> bool {
    width > 0 && height > 0 && width * height <= isize::MAX
}

/// The cell where generation starts and where solving starts.
pub open spec fn origin() -> Coordinates {
    Coordinates { row: 0, col: 0 }
}

/// The number of east and south walls of one cell that are open.
pub open spec fn cell_openings(cell: Cell) -> nat {
    let east: nat = if cell.has_wall(Direction::East) {
        0
    } else {
        1
    };
    let south: nat = if cell.has_wall(Direction::South) {
        0
    } else {
        1
    };
    east + south
}

/// The number of open east and south walls over a sequence of cells.
pub open spec fn count_openings(cells: Seq<Cell>) -> nat
    decreases cells.len(),
{
    if cells.len() == 0 {
        0
    } else {
        count_openings(cells.drop_last()) + cell_openings(cells.last())
    }
}

proof fn lemma_count_update(cells: Seq<Cell>, index: int, cell: Cell)
    requires
        0 <= index < cells.len(),
    ensures
        count_openings(cells.update(index, cell)) + cell_openings(cells[index]) == count_openings(
            cells,
        ) + cell_openings(cell),
    decreases cells.len(),
{
    let updated = cells.update(index, cell);
    if index == cells.len() - 1 {
        assert(updated.drop_last() =~= cells.drop_last());
    } else {
        assert(updated.drop_last() =~= cells.drop_last().update(index, cell));
        lemma_count_update(cells.drop_last(), index, cell);
    }
}

proof fn lemma_count_closed(cells: Seq<Cell>)
    requires
        forall|i: int| 0 <= i < cells.len() ==> (#[trigger] cells[i]).walled(),
    ensures
        count_openings(cells) == 0,
    decreases cells.len(),
{
    if cells.len() > 0 {
        lemma_count_closed(cells.drop_last());
        assert(cells.last() == cells[cells.len() - 1]);
        assert(cells.last().walled());
    }
}

proof fn lemma_index_in_range(width: int, height: int, row: int, col: int)
    requires
        0 <= row < height,
        0 <= col < width,
    ensures
        0 <= width * row + col < width * height,
        width * row + width <= width * height,
{
    assert(width * row + width <= width * height) by (nonlinear_arith)
        requires
            0 <= row < height,
            0 < width,
    ;
    assert(0 <= width * row) by (nonlinear_arith)
        requires
            0 <= row,
            0 < width,
    ;
}

/// The place of a cell of the grid is below the number of cells.
pub proof fn lemma_slot_in_range(width: usize, height: usize, coordinates: Coordinates)
    requires
        coordinates.row < height,
        coordinates.col < width,
    ensures
        0 <= slot(width, coordinates) < width * height,
        slot(width, coordinates) == coordinates.row * width + coordinates.col,
{
    lemma_index_in_range(
        width as int,
        height as int,
        coordinates.row as int,
        coordinates.col as int,
    );
    assert(width * coordinates.row == coordinates.row * width) by (nonlinear_arith);
}

proof fn lemma_index_injective(width: int, row1: int, col1: int, row2: int, col2: int)
    requires
        0 <= col1 < width,
        0 <= col2 < width,
        0 <= row1,
        0 <= row2,
        width * row1 + col1 == width * row2 + col2,
    ensures
        row1 == row2,
        col1 == col2,
{
    if row1 < row2 {
        assert(width * row1 + width <= width * row2) by (nonlinear_arith)
            requires
                row1 < row2,
                0 < width,
        ;
    } else if row2 < row1 {
        assert(width * row2 + width <= width * row1) by (nonlinear_arith)
            requires
                row2 < row1,
                0 < width,
        ;
    }
}

/// A step in some direction and a step back in the opposite direction end
/// where they began, unless the first step left the range of the index type.
pub proof fn lemma_neighbor_back(coordinates: Coordinates, direction: Direction)
    ensures
        ({
            let beyond = coordinates.shifted(direction.adjustment());
            beyond.shifted(direction.opposite().adjustment()) == coordinates
        }),
        coordinates.shifted(direction.adjustment()) != coordinates,
{
}

/// The place of a cell in row-major order, in a grid of the given width.
pub open spec fn slot(width: usize, coordinates: Coordinates) -> int {
    width * coordinates.row + coordinates.col
}

/// A rectangular grid of cells in row-major order.
#[derive(Debug, PartialEq, Eq)]
pub struct Maze {
    width: usize,
    height: usize,
    cells: Vec<Cell>,
}

/// What a grid is: its two dimensions and its cells, row after row.
pub struct MazeView {
    pub width: usize,
    pub height: usize,
    pub cells: Seq<Cell>,
}

impl View for Maze {
    type V = MazeView;

    open spec fn view(&self) -> MazeView {
        MazeView { width: self.cols(), height: self.rows(), cells: self.cell_seq() }
    }
}

impl Clone for Maze {
    fn clone(&self) -> (copy: Self)
        ensures
            copy@ == self@,
    {
        let cells = self.cells.clone();
        assert(cells@ =~= self.cells@);
        Maze { width: self.width, height: self.height, cells }
    }
}

impl Maze {
    /// The number of columns.
    pub closed spec fn cols(&self) -> usize {
        self.width
    }

    /// The number of rows.
    pub closed spec fn rows(&self) -> usize {
        self.height
    }

    /// Whether the coordinates name a cell of the grid.
    pub open spec fn in_bounds(&self, coordinates: Coordinates) -> bool {
        coordinates.row < self.rows() && coordinates.col < self.cols()
    }

    /// The coordinates one step away in the given direction.
    pub open spec fn neighbor(coordinates: Coordinates, direction: Direction) -> Coordinates {
        coordinates.shifted(direction.adjustment())
    }

    /// The cell at the given coordinates, which are meant to be in bounds.
    pub open spec fn cell(&self, coordinates: Coordinates) -> Cell {
        self.cell_seq()[slot(self.cols(), coordinates)]
    }

    /// All cells, row after row.
    pub closed spec fn cell_seq(&self) -> Seq<Cell> {
        self.cells@
    }

    /// Whether the wall of the cell at `coordinates` stands on the given side.
    pub open spec fn has_wall(&self, coordinates: Coordinates, direction: Direction) -> bool {
        self.cell(coordinates).has_wall(direction)
    }

    /// Walls agree from both sides: between two cells of the grid, the wall
    /// seen from one is the wall seen from the other.
    pub open spec fn symmetric(&self) -> bool {
        forall|coordinates: Coordinates, direction: Direction|
            #![trigger self.cell(coordinates).has_wall(direction)]
            self.in_bounds(coordinates) && self.in_bounds(Self::neighbor(coordinates, direction))
                ==> self.has_wall(coordinates, direction) == self.has_wall(
                Self::neighbor(coordinates, direction),
                direction.opposite(),
            )
    }

    /// Every cell knows its own place.
    pub open spec fn placed(&self) -> bool {
        forall|coordinates: Coordinates|
            self.in_bounds(coordinates) ==> (#[trigger] self.cell(coordinates)).position()
                == coordinates
    }

    /// The invariant of the grid: valid dimensions, one cell for each
    /// coordinate pair in bounds, each cell in its place, and symmetric walls.
    pub open spec fn wf(&self) -> bool {
        &&& self.shaped()
        &&& self.placed()
        &&& self.symmetric()
    }

    /// No wall on the rim of the grid is open.
    pub open spec fn enclosed(&self) -> bool {
        forall|coordinates: Coordinates, direction: Direction|
            #![trigger self.cell(coordinates).has_wall(direction)]
            self.in_bounds(coordinates) && !self.in_bounds(Self::neighbor(coordinates, direction))
                ==> self.has_wall(coordinates, direction)
    }

    /// Every wall of every cell stands.
    pub open spec fn all_closed(&self) -> bool {
        forall|coordinates: Coordinates|
            self.in_bounds(coordinates) ==> (#[trigger] self.cell(coordinates)).walled()
    }

    /// The number of open walls between cells. Each wall inside an enclosed
    /// grid is the east wall of one cell or the south wall of one cell, so it
    /// is counted once.
    pub open spec fn open_wall_count(&self) -> nat {
        count_openings(self.cell_seq())
    }

    /// This grid is `earlier` with the wall between the cell at `from` and
    /// its neighbour in `direction` opened on both sides, and nothing else
    /// changed. The count of open walls has grown by one, unless the wall
    /// was open before.
    pub open spec fn opened_from(
        &self,
        earlier: &Maze,
        from: Coordinates,
        direction: Direction,
    ) -> bool {
        &&& self.wf()
        &&& self.cols() == earlier.cols()
        &&& self.rows() == earlier.rows()
        &&& forall|place: Coordinates, side: Direction|
            #![trigger self.cell(place).has_wall(side)]
            earlier.in_bounds(place) ==> self.has_wall(place, side) == (earlier.has_wall(
                place,
                side,
            ) && !(place == from && side == direction) && !(place == Self::neighbor(
                from,
                direction,
            ) && side == direction.opposite()))
        &&& self.open_wall_count() == earlier.open_wall_count() + if earlier.has_wall(
            from,
            direction,
        ) {
            1nat
        } else {
            0nat
        }
    }

    /// Valid dimensions and one cell for each coordinate pair in bounds.
    pub open spec fn shaped(&self) -> bool {
        &&& valid_dimensions(self.cols(), self.rows())
        &&& self.cell_seq().len() == self.cols() * self.rows()
    }

    proof fn lemma_cell_index(&self, coordinates: Coordinates)
        requires
            self.shaped(),
            self.in_bounds(coordinates),
        ensures
            0 <= slot(self.width, coordinates) < self.cells@.len(),
            slot(self.width, coordinates) <= usize::MAX,
            self.width * coordinates.row <= usize::MAX,
    {
        lemma_index_in_range(
            self.width as int,
            self.height as int,
            coordinates.row as int,
            coordinates.col as int,
        );
    }

    proof fn lemma_distinct_cells(&self, first: Coordinates, second: Coordinates)
        requires
            self.shaped(),
            self.in_bounds(first),
            self.in_bounds(second),
            first != second,
        ensures
            slot(self.width, first) != slot(self.width, second),
    {
        if slot(self.width, first) == slot(self.width, second) {
            lemma_index_injective(
                self.width as int,
                first.row as int,
                first.col as int,
                second.row as int,
                second.col as int,
            );
        }
    }

    /// The number of columns.
    pub fn width(&self) -> (width: usize)
        ensures
            width == self.cols(),
    {
        self.width
    }

    /// The number of rows.
    pub fn height(&self) -> (height: usize)
        ensures
            height == self.rows(),
    {
        self.height
    }

    /// The width and the height, in this order.
    pub fn dimensions(&self) -> (dimensions: (usize, usize))
        ensures
            dimensions == (self.cols(), self.rows()),
    {
        (self.width, self.height)
    }

    /// Whether the coordinates name a cell of the grid.
    pub fn within_bounds(&self, coordinates: Coordinates) -> (inside: bool)
        ensures
            inside == self.in_bounds(coordinates),
    {
        let (row, col): (usize, usize) = coordinates.into();
        let (width, height) = self.dimensions();
        row < height && col < width
    }

    fn calculate_index(&self, coordinates: Coordinates) -> (index: usize)
        requires
            self.shaped(),
            self.in_bounds(coordinates),
        ensures
            index == slot(self.width, coordinates),
            index < self.cells@.len(),
    {
        proof {
            self.lemma_cell_index(coordinates);
        }
        let (width, _) = self.dimensions();
        width * coordinates.row + coordinates.col
    }

    /// A grid of the given size with every wall standing.
    pub fn new(width: usize, height: usize) -> (made: Result<Self, MazeError>)
        ensures
            match made {
                Ok(maze) => {
                    &&& valid_dimensions(width, height)
                    &&& maze.wf()
                    &&& maze.cols() == width
                    &&& maze.rows() == height
                    &&& maze.all_closed()
                    &&& maze.open_wall_count() == 0
                },
                Err(error) => !valid_dimensions(width, height) && error
                    == MazeError::InvalidDimensions,
            },
    {
        if width == 0 || height == 0 {
            return Err(MazeError::InvalidDimensions);
        }
        match width.checked_mul(height) {
            None => Err(MazeError::InvalidDimensions),
            Some(count) => {
                if count > isize::MAX as usize {
                    return Err(MazeError::InvalidDimensions);
                }
                let mut m = Self { width, height, cells: Vec::new() };
                m.init();
                Ok(m)
            },
        }
    }

    /// Puts every wall back: afterwards the grid is as `new` makes it.
    pub fn init(&mut self)
        requires
            valid_dimensions(old(self).cols(), old(self).rows()),
        ensures
            final(self).wf(),
            final(self).cols() == old(self).cols(),
            final(self).rows() == old(self).rows(),
            final(self).all_closed(),
            final(self).open_wall_count() == 0,
    {
        let (width, height) = self.dimensions();
        let mut cells: Vec<Cell> = Vec::new();
        let mut row: usize = 0;
        while row < height
            invariant
                valid_dimensions(width, height),
                row <= height,
                cells@.len() == width * row,
                forall|i: int| 0 <= i < cells@.len() ==> (#[trigger] cells@[i]).walled(),
                forall|place: Coordinates|
                    place.row < row && place.col < width ==> (#[trigger] cells@[slot(
                        width,
                        place,
                    )]).position() == place,
            decreases height - row,
        {
            let mut col: usize = 0;
            while col < width
                invariant
                    valid_dimensions(width, height),
                    row < height,
                    col <= width,
                    cells@.len() == width * row + col,
                    forall|i: int| 0 <= i < cells@.len() ==> (#[trigger] cells@[i]).walled(),
                    forall|place: Coordinates|
                        (place.row < row || (place.row == row && place.col < col)) && place.col
                            < width ==> (#[trigger] cells@[slot(width, place)]).position() == place,
                decreases width - col,
            {
                let ghost before = cells@;
                cells.push(Cell::new(row, col));
                proof {
                    assert forall|place: Coordinates|
                        (place.row < row || (place.row == row && place.col < col + 1))
                            && place.col < width implies (#[trigger] cells@[slot(
                        width,
                        place,
                    )]).position() == place by {
                        if place.row < row {
                            lemma_index_in_range(
                                width as int,
                                row as int,
                                place.row as int,
                                place.col as int,
                            );
                            assert(cells@[slot(width, place)] == before[slot(width, place)]);
                        } else if place.col < col {
                            assert(cells@[slot(width, place)] == before[slot(width, place)]);
                        }
                    }
                }
                col += 1;
            }
            proof {
                assert(width * row + width == width * (row + 1)) by (nonlinear_arith);
                lemma_index_in_range(width as int, height as int, row as int, 0);
            }
            row += 1;
        }
        self.cells = cells;
        proof {
            lemma_count_closed(self.cells@);
            assert forall|place: Coordinates| self.in_bounds(place) implies (#[trigger] self.cell(
                place,
            )).walled() by {
                lemma_index_in_range(
                    width as int,
                    height as int,
                    place.row as int,
                    place.col as int,
                );
            }
        }
    }

    /// Opens the wall between the cell at `coordinates` and its neighbour in
    /// the given direction, on both sides at once.
    pub fn remove_wall(&mut self, coordinates: Coordinates, direction: Direction)
        requires
            old(self).wf(),
            old(self).in_bounds(coordinates),
            old(self).in_bounds(Self::neighbor(coordinates, direction)),
        ensures
            final(self).opened_from(&*old(self), coordinates, direction),
    {
        let adjusted = coordinates + direction.step();
        let opposite = direction.reverse();
        let ghost start = self.cells@;
        let mut origin = *self.get(coordinates).unwrap();
        origin.set_wall(direction, false);
        self.set(coordinates, origin);
        let ghost middle = self.cells@;
        let mut dest = self.cells[self.calculate_index(adjusted)];
        dest.set_wall(opposite, false);
        self.set(adjusted, dest);
        proof {
            let here = slot(self.width, coordinates);
            let there = slot(self.width, adjusted);
            old(self).lemma_cell_index(coordinates);
            old(self).lemma_cell_index(adjusted);
            old(self).lemma_distinct_cells(coordinates, adjusted);
            assert(old(self).has_wall(coordinates, direction) == old(self).has_wall(
                adjusted,
                opposite,
            ));
            lemma_count_update(start, here, origin);
            lemma_count_update(middle, there, dest);
            assert(middle[there] == start[there]);
            assert forall|place: Coordinates, side: Direction|
                #![trigger self.cell(place).has_wall(side)]
                old(self).in_bounds(place) implies self.has_wall(place, side) == (old(
                self,
            ).has_wall(place, side) && !(place == coordinates && side == direction) && !(place
                == adjusted && side == opposite)) by {
                old(self).lemma_cell_index(place);
                if place != coordinates {
                    old(self).lemma_distinct_cells(place, coordinates);
                }
                if place != adjusted {
                    old(self).lemma_distinct_cells(place, adjusted);
                }
            }
            assert forall|place: Coordinates| self.in_bounds(place) implies (#[trigger] self.cell(
                place,
            )).position() == place by {
                old(self).lemma_cell_index(place);
                if place != coordinates {
                    old(self).lemma_distinct_cells(place, coordinates);
                }
                if place != adjusted {
                    old(self).lemma_distinct_cells(place, adjusted);
                }
                assert(old(self).cell(place).position() == place);
            }
            assert forall|place: Coordinates, side: Direction|
                #![trigger self.cell(place).has_wall(side)]
                self.in_bounds(place) && self.in_bounds(
                    Self::neighbor(place, side),
                ) implies self.has_wall(place, side) == self.has_wall(
                Self::neighbor(place, side),
                side.opposite(),
            ) by {
                let beyond = Self::neighbor(place, side);
                assert(old(self).has_wall(place, side) == old(self).has_wall(
                    beyond,
                    side.opposite(),
                ));
                assert(self.has_wall(place, side) == (old(self).has_wall(place, side) && !(place
                    == coordinates && side == direction) && !(place == adjusted && side
                    == opposite)));
                assert(self.cell(beyond).has_wall(side.opposite()) == (old(self).has_wall(
                    beyond,
                    side.opposite(),
                ) && !(beyond == coordinates && side.opposite() == direction) && !(beyond
                    == adjusted && side.opposite() == opposite)));
                lemma_neighbor_back(place, side);
                lemma_neighbor_back(coordinates, direction);
            }
        }
    }

    /// Opens a wall as `remove_wall` does, after checking that both cells are
    /// on the grid; where one is not, the grid stays as it is.
    pub fn try_remove_wall(&mut self, coordinates: Coordinates, direction: Direction) -> (done:
        Result<(), MazeError>)
        requires
            old(self).wf(),
        ensures
            done.is_ok() == (old(self).in_bounds(coordinates) && old(self).in_bounds(
                Self::neighbor(coordinates, direction),
            )),
            match done {
                Ok(_) => final(self).opened_from(&*old(self), coordinates, direction),
                Err(error) => error == MazeError::OutOfBounds && *final(self) == *old(self),
            },
    {
        let adjusted = coordinates + direction.step();
        if self.within_bounds(coordinates) && self.within_bounds(adjusted) {
            self.remove_wall(coordinates, direction);
            Ok(())
        } else {
            Err(MazeError::OutOfBounds)
        }
    }

    fn set(&mut self, coordinates: Coordinates, cell: Cell)
        requires
            old(self).shaped(),
            old(self).in_bounds(coordinates),
        ensures
            final(self).shaped(),
            final(self).width == old(self).width,
            final(self).height == old(self).height,
            final(self).cells@ == old(self).cells@.update(
                slot(old(self).width, coordinates),
                cell,
            ),
            0 <= slot(old(self).width, coordinates) < old(self).cells@.len(),
    {
        let index = self.calculate_index(coordinates);
        self.cells.set(index, cell);
    }

    /// A grid of the given cells, which are taken as they are.
    pub(crate) fn assemble(width: usize, height: usize, cells: Vec<Cell>) -> (maze: Self)
        requires
            valid_dimensions(width, height),
            cells@.len() == width * height,
        ensures
            maze.shaped(),
            maze.cols() == width,
            maze.rows() == height,
            maze.cell_seq() == cells@,
    {
        Self { width, height, cells }
    }

    /// All cells, row after row.
    pub fn cells(&self) -> (cells: &Vec<Cell>)
        ensures
            cells@ == self.cell_seq(),
    {
        &self.cells
    }

    /// The number of open walls between cells.
    pub fn open_walls(&self) -> (count: usize)
        requires
            self.shaped(),
        ensures
            count == self.open_wall_count(),
    {
        let mut count: usize = 0;
        let mut i: usize = 0;
        while i < self.cells.len()
            invariant
                self.shaped(),
                i <= self.cells@.len(),
                count == count_openings(self.cells@.subrange(0, i as int)),
                count <= 2 * i,
            decreases self.cells@.len() - i,
        {
            let cell = &self.cells[i];
            proof {
                let upto = self.cells@.subrange(0, i + 1);
                assert(upto.drop_last() =~= self.cells@.subrange(0, i as int));
                assert(upto.last() == self.cells@[i as int]);
            }
            if !cell.wall(&Direction::East) {
                count += 1;
            }
            if !cell.wall(&Direction::South) {
                count += 1;
            }
            i += 1;
        }
        assert(self.cells@.subrange(0, i as int) =~= self.cells@);
        count
    }

    /// The cell at the coordinates, or nothing where they are off the grid.
    pub fn get(&self, coordinates: Coordinates) -> (found: Option<&Cell>)
        requires
            self.shaped(),
        ensures
            found == if self.in_bounds(coordinates) {
                Some(&self.cell(coordinates))
            } else {
                None
            },
    {
        if self.within_bounds(coordinates) {
            let index = self.calculate_index(coordinates);
            Some(&self.cells[index])
        } else {
            None
        }
    }
}

} // verus!
