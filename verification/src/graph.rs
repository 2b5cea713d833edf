use vstd::prelude::*;
use crate::coordinate::Coordinates;
use crate::direction::Direction;
use crate::maze::{lemma_slot_in_range, origin, slot, Maze};

verus! {

impl Maze {
    /// The cell where solving ends: the last cell of the last row.
    pub open spec fn goal(&self) -> Coordinates {
        Coordinates { row: (self.rows() - 1) as usize, col: (self.cols() - 1) as usize }
    }

    /// There is a passage out of `from` in `direction`: both cells are on the
    /// grid and no wall stands between them.
    pub open spec fn passage(&self, from: Coordinates, direction: Direction) -> bool {
        &&& self.in_bounds(from)
        &&& self.in_bounds(Self::neighbor(from, direction))
        &&& !self.has_wall(from, direction)
    }

    /// One step through a passage in the given direction leads from `from` to `to`.
    pub open spec fn step(&self, from: Coordinates, to: Coordinates, direction: Direction) -> bool {
        self.passage(from, direction) && to == Self::neighbor(from, direction)
    }

    /// One step through some passage leads from `from` to `to`.
    pub open spec fn linked(&self, from: Coordinates, to: Coordinates) -> bool {
        ||| self.step(from, to, Direction::North)
        ||| self.step(from, to, Direction::East)
        ||| self.step(from, to, Direction::South)
        ||| self.step(from, to, Direction::West)
    }

    /// A walk over the grid: it starts on a cell, and each of its cells is
    /// linked to the next by a passage.
    pub open spec fn is_path(&self, path: Seq<Coordinates>) -> bool {
        &&& path.len() > 0
        &&& self.in_bounds(path[0])
        &&& forall|i: int|
            #![trigger path[i]]
            0 <= i < path.len() - 1 ==> self.linked(path[i], path[i + 1])
    }

    /// A walk leads from `from` to `to`.
    pub open spec fn reachable(&self, from: Coordinates, to: Coordinates) -> bool {
        exists|path: Seq<Coordinates>|
            #![trigger self.is_path(path)]
            self.is_path(path) && path[0] == from && path.last() == to
    }

    /// A walk of at most `steps` passages leads from `from` to `to`.
    pub open spec fn walk_within(&self, from: Coordinates, to: Coordinates, steps: nat) -> bool {
        exists|path: Seq<Coordinates>|
            #![trigger self.is_path(path)]
            self.is_path(path) && path[0] == from && path.last() == to && path.len() <= steps + 1
    }

    /// The cells that a walk from `from` can end on.
    pub open spec fn reachable_set(&self, from: Coordinates) -> Set<Coordinates> {
        Set::new(|to: Coordinates| self.reachable(from, to))
    }

    /// Every cell can be reached from the origin.
    pub open spec fn connected(&self) -> bool {
        forall|to: Coordinates| self.in_bounds(to) ==> #[trigger] self.reachable(origin(), to)
    }

    /// The passages form a spanning tree of the grid: the rim is closed, every
    /// cell can be reached, and there is one open wall fewer than there are
    /// cells, which leaves no room for a cycle.
    pub open spec fn spanning_tree(&self) -> bool {
        &&& self.wf()
        &&& self.enclosed()
        &&& self.connected()
        &&& self.open_wall_count() + 1 == self.cols() * self.rows()
    }

    /// A walk stays on the grid.
    pub proof fn lemma_path_in_bounds(&self, path: Seq<Coordinates>, index: int)
        requires
            self.is_path(path),
            0 <= index < path.len(),
        ensures
            self.in_bounds(path[index]),
        decreases index,
    {
        if index > 0 {
            self.lemma_path_in_bounds(path, index - 1);
            assert(self.linked(path[index - 1], path[index - 1 + 1]));
        }
    }

    /// Every cell of the grid is reached from itself, by the walk that stays.
    pub proof fn lemma_reachable_self(&self, place: Coordinates)
        requires
            self.in_bounds(place),
        ensures
            self.reachable(place, place),
    {
        let path = seq![place];
        assert(self.is_path(path));
        assert(path[0] == place && path.last() == place);
    }

    /// The ends of a walk are on the grid.
    pub proof fn lemma_reachable_in_bounds(&self, from: Coordinates, to: Coordinates)
        requires
            self.reachable(from, to),
        ensures
            self.in_bounds(from),
            self.in_bounds(to),
    {
        let path = choose|path: Seq<Coordinates>|
            #![trigger self.is_path(path)]
            self.is_path(path) && path[0] == from && path.last() == to;
        self.lemma_path_in_bounds(path, path.len() - 1);
    }

    /// A walk can be made one passage longer.
    pub proof fn lemma_reachable_step(&self, from: Coordinates, via: Coordinates, to: Coordinates)
        requires
            self.reachable(from, via),
            self.linked(via, to),
        ensures
            self.reachable(from, to),
    {
        let path = choose|path: Seq<Coordinates>|
            #![trigger self.is_path(path)]
            self.is_path(path) && path[0] == from && path.last() == via;
        let longer = path.push(to);
        assert forall|i: int| #![trigger longer[i]] 0 <= i < longer.len() - 1 implies self.linked(
            longer[i],
            longer[i + 1],
        ) by {
            if i < path.len() - 1 {
                assert(self.linked(path[i], path[i + 1]));
            }
        }
        assert(self.is_path(longer));
        assert(longer[0] == from && longer.last() == to);
    }

    /// What can be reached within some number of passages can be reached
    /// within any larger number.
    pub proof fn lemma_walk_longer(&self, from: Coordinates, to: Coordinates, steps: nat, more: nat)
        requires
            self.walk_within(from, to, steps),
            steps <= more,
        ensures
            self.walk_within(from, to, more),
    {
        let path = choose|path: Seq<Coordinates>|
            #![trigger self.is_path(path)]
            self.is_path(path) && path[0] == from && path.last() == to && path.len() <= steps + 1;
        assert(self.is_path(path) && path.len() <= more + 1);
    }

    /// Without a passage a walk ends where it starts.
    pub proof fn lemma_walk_none(&self, from: Coordinates, to: Coordinates)
        requires
            self.walk_within(from, to, 0),
        ensures
            to == from,
    {
    }

    /// A walk can be made one passage longer.
    pub proof fn lemma_walk_step(
        &self,
        from: Coordinates,
        via: Coordinates,
        to: Coordinates,
        steps: nat,
    )
        requires
            self.walk_within(from, via, steps),
            self.linked(via, to),
        ensures
            self.walk_within(from, to, steps + 1),
    {
        let path = choose|path: Seq<Coordinates>|
            #![trigger self.is_path(path)]
            self.is_path(path) && path[0] == from && path.last() == via && path.len() <= steps + 1;
        let longer = path.push(to);
        assert forall|i: int| #![trigger longer[i]] 0 <= i < longer.len() - 1 implies self.linked(
            longer[i],
            longer[i + 1],
        ) by {
            if i < path.len() - 1 {
                assert(self.linked(path[i], path[i + 1]));
            }
        }
        assert(self.is_path(longer) && longer[0] == from && longer.last() == to);
    }

    /// A walk that ends elsewhere than it starts came through a passage from
    /// a cell that a walk one passage shorter leads to.
    pub proof fn lemma_walk_last_step(&self, from: Coordinates, to: Coordinates, steps: nat) -> (via:
        Coordinates)
        requires
            self.walk_within(from, to, steps),
            to != from,
        ensures
            steps > 0,
            self.walk_within(from, via, (steps - 1) as nat),
            self.linked(via, to),
    {
        let path = choose|path: Seq<Coordinates>|
            #![trigger self.is_path(path)]
            self.is_path(path) && path[0] == from && path.last() == to && path.len() <= steps + 1;
        let shorter = path.drop_last();
        let via = path[path.len() - 2];
        assert(self.linked(path[path.len() - 2], path[path.len() - 2 + 1]));
        assert forall|i: int|
            #![trigger shorter[i]]
            0 <= i < shorter.len() - 1 implies self.linked(shorter[i], shorter[i + 1]) by {
            assert(self.linked(path[i], path[i + 1]));
        }
        assert(self.is_path(shorter) && shorter[0] == from && shorter.last() == via);
        via
    }

    /// Opening walls closes no passage: what could be reached before can
    /// still be reached in a grid that has every passage of this one.
    pub proof fn lemma_reachable_monotone(&self, later: &Maze, from: Coordinates, to: Coordinates)
        requires
            self.reachable(from, to),
            later.cols() == self.cols(),
            later.rows() == self.rows(),
            forall|place: Coordinates, direction: Direction|
                #![trigger later.cell(place).has_wall(direction)]
                self.passage(place, direction) ==> later.passage(place, direction),
        ensures
            later.reachable(from, to),
    {
        let path = choose|path: Seq<Coordinates>|
            #![trigger self.is_path(path)]
            self.is_path(path) && path[0] == from && path.last() == to;
        assert forall|i: int| #![trigger path[i]] 0 <= i < path.len() - 1 implies later.linked(
            path[i],
            path[i + 1],
        ) by {
            assert(self.linked(path[i], path[i + 1]));
        }
        assert(later.is_path(path));
    }

    /// A set that holds `from` and, with each of its cells, every cell behind
    /// a passage out of it, holds everything that can be reached from `from`.
    pub proof fn lemma_closed_set_holds_reachable(
        &self,
        set: Set<Coordinates>,
        from: Coordinates,
        to: Coordinates,
    )
        requires
            set.contains(from),
            forall|place: Coordinates, direction: Direction|
                #![trigger self.cell(place).has_wall(direction)]
                set.contains(place) && self.passage(place, direction) ==> set.contains(
                    Self::neighbor(place, direction),
                ),
            self.reachable(from, to),
        ensures
            set.contains(to),
    {
        let path = choose|path: Seq<Coordinates>|
            #![trigger self.is_path(path)]
            self.is_path(path) && path[0] == from && path.last() == to;
        self.lemma_closed_set_holds_path(set, path, path.len() - 1);
    }

    proof fn lemma_closed_set_holds_path(&self, set: Set<Coordinates>, path: Seq<Coordinates>, index: int)
        requires
            self.is_path(path),
            set.contains(path[0]),
            forall|place: Coordinates, direction: Direction|
                #![trigger self.cell(place).has_wall(direction)]
                set.contains(place) && self.passage(place, direction) ==> set.contains(
                    Self::neighbor(place, direction),
                ),
            0 <= index < path.len(),
        ensures
            set.contains(path[index]),
        decreases index,
    {
        if index > 0 {
            self.lemma_closed_set_holds_path(set, path, index - 1);
            assert(self.linked(path[index - 1], path[index - 1 + 1]));
        }
    }

    /// A set that holds the origin and, with each of its cells, every
    /// neighbour on the grid, holds every cell of the grid.
    pub proof fn lemma_grid_closure(&self, set: Set<Coordinates>, place: Coordinates)
        requires
            set.contains(origin()),
            forall|inner: Coordinates, direction: Direction|
                #![trigger set.contains(Self::neighbor(inner, direction))]
                set.contains(inner) && self.in_bounds(inner) && self.in_bounds(
                    Self::neighbor(inner, direction),
                ) ==> set.contains(Self::neighbor(inner, direction)),
            self.in_bounds(place),
        ensures
            set.contains(place),
        decreases place.row + place.col,
    {
        if place.row > 0 {
            let above = Coordinates { row: (place.row - 1) as usize, col: place.col };
            self.lemma_grid_closure(set, above);
            assert(Self::neighbor(above, Direction::South) == place);
        } else if place.col > 0 {
            let left = Coordinates { row: place.row, col: (place.col - 1) as usize };
            self.lemma_grid_closure(set, left);
            assert(Self::neighbor(left, Direction::East) == place);
        } else {
            assert(place == origin());
        }
    }

    /// Every cell of the grid.
    pub open spec fn all_cells(&self) -> Set<Coordinates> {
        Set::new(|place: Coordinates| self.in_bounds(place))
    }

    /// The grid has as many cells as its dimensions say.
    pub proof fn lemma_all_cells(&self)
        requires
            self.shaped(),
        ensures
            self.all_cells().finite(),
            self.all_cells().len() == self.cols() * self.rows(),
    {
        let width = self.cols() as int;
        let height = self.rows() as int;
        let count = width * height;
        let range = vstd::set_lib::set_int_range(0, count);
        let place_of = |index: int|
            Coordinates { row: (index / width) as usize, col: (index % width) as usize };
        vstd::set_lib::lemma_int_range(0, count);
        assert forall|index: int| 0 <= index < count implies 0 <= #[trigger] (index / width)
            < height && 0 <= #[trigger] (index % width) < width && index == width * (index
            / width) + index % width by {
            vstd::arithmetic::div_mod::lemma_fundamental_div_mod(index, width);
            vstd::arithmetic::div_mod::lemma_mod_bound(index, width);
            assert(index / width < height) by (nonlinear_arith)
                requires
                    index == width * (index / width) + index % width,
                    0 <= index % width,
                    index < width * height,
                    width > 0,
            ;
            assert(0 <= index / width) by (nonlinear_arith)
                requires
                    index == width * (index / width) + index % width,
                    index % width < width,
                    0 <= index,
                    width > 0,
            ;
        }
        assert(vstd::relations::injective_on(place_of, range)) by {
            assert forall|i: int, j: int|
                range.contains(i) && range.contains(j) && #[trigger] place_of(i)
                    == #[trigger] place_of(j) implies i == j by {
                assert(0 <= i / width < height && 0 <= i % width < width);
                assert(0 <= j / width < height && 0 <= j % width < width);
                assert(i == width * (i / width) + i % width);
                assert(j == width * (j / width) + j % width);
            }
        }
        assert(range.map(place_of) =~= self.all_cells()) by {
            assert forall|place: Coordinates| self.all_cells().contains(place) implies range.map(
                place_of,
            ).contains(place) by {
                let index = slot(self.cols(), place);
                lemma_slot_in_range(self.cols(), self.rows(), place);
                vstd::arithmetic::div_mod::lemma_fundamental_div_mod_converse(
                    index,
                    width,
                    place.row as int,
                    place.col as int,
                );
                assert(range.contains(index) && place == place_of(index));
            }
            assert forall|place: Coordinates| range.map(place_of).contains(
                place,
            ) implies self.all_cells().contains(place) by {
                let index = choose|index: int| range.contains(index) && place == place_of(index);
                assert(0 <= index / width < height && 0 <= index % width < width);
            }
        }
        vstd::set_lib::lemma_map_size(range, self.all_cells(), place_of);
    }

    /// A set of cells of the grid is finite and no larger than the grid.
    pub proof fn lemma_cells_bounded(&self, set: Set<Coordinates>)
        requires
            self.shaped(),
            forall|place: Coordinates| set.contains(place) ==> self.in_bounds(place),
        ensures
            set.finite(),
            set.len() <= self.cols() * self.rows(),
    {
        self.lemma_all_cells();
        vstd::set_lib::lemma_len_subset(set, self.all_cells());
    }

    /// A set that holds every cell of the grid and nothing else has as many
    /// members as the grid has cells.
    pub proof fn lemma_cells_complete(&self, set: Set<Coordinates>)
        requires
            self.shaped(),
            forall|place: Coordinates| set.contains(place) <==> self.in_bounds(place),
        ensures
            set.finite(),
            set.len() == self.cols() * self.rows(),
    {
        self.lemma_all_cells();
        assert(set =~= self.all_cells());
    }

    /// On a grid of a single cell the goal is the origin, which is reached
    /// without a step, and nothing else can be reached.
    pub proof fn lemma_single_cell(&self)
        requires
            self.wf(),
            self.cols() == 1,
            self.rows() == 1,
        ensures
            self.goal() == origin(),
            self.reachable(origin(), self.goal()),
            self.reachable_set(origin()) == set![origin()],
    {
        self.lemma_reachable_self(origin());
        assert forall|place: Coordinates| self.reachable(origin(), place) implies place
            == origin() by {
            self.lemma_reachable_in_bounds(origin(), place);
        }
        assert(self.reachable_set(origin()) =~= set![origin()]);
    }

    /// On a grid with all its walls nothing but the origin can be reached
    /// from the origin; so the goal cannot, unless the grid is a single cell.
    pub proof fn lemma_closed_grid(&self)
        requires
            self.wf(),
            self.all_closed(),
        ensures
            self.reachable_set(origin()) == set![origin()],
            self.reachable(origin(), self.goal()) == (self.cols() == 1 && self.rows() == 1),
    {
        let alone = set![origin()];
        self.lemma_reachable_self(origin());
        assert forall|place: Coordinates| self.reachable(origin(), place) implies place
            == origin() by {
            assert forall|inner: Coordinates, direction: Direction|
                #![trigger self.cell(inner).has_wall(direction)]
                alone.contains(inner) && self.passage(inner, direction) implies alone.contains(
                Self::neighbor(inner, direction),
            ) by {
                assert(self.cell(inner).walled());
            }
            self.lemma_closed_set_holds_reachable(alone, origin(), place);
        }
        assert(self.reachable_set(origin()) =~= alone);
    }

    /// In a spanning tree the goal can be reached from the origin. The
    /// generator makes nothing but spanning trees, and a solver tells whether
    /// the goal can be reached: so every generated grid is solved.
    pub proof fn lemma_spanning_tree_reaches_goal(&self)
        requires
            self.spanning_tree(),
        ensures
            self.reachable(origin(), self.goal()),
    {
        assert(self.in_bounds(self.goal()));
    }
}

} // verus!
