use vstd::prelude::*;
use std::sync::mpsc::Sender;
use crate::channel::offer;
use crate::coordinate::Coordinates;
use crate::coordinate_set::CoordinateSet;
use crate::direction::Direction;
use crate::maze::{lemma_neighbor_back, origin, valid_dimensions, Maze, MazeError};

verus! {

/// Walls only come down between `earlier` and `later`: the two grids have the
/// same size, and every wall that is open in the first is open in the second.
pub open spec fn carved_from(later: &Maze, earlier: &Maze) -> bool {
    &&& later.cols() == earlier.cols()
    &&& later.rows() == earlier.rows()
    &&& forall|place: Coordinates, side: Direction|
        #![trigger later.cell(place).has_wall(side)]
        earlier.in_bounds(place) && !earlier.has_wall(place, side) ==> !later.has_wall(
            place,
            side,
        )
}

/// The state of a depth-first carving in progress. The visited cells are
/// cells of the grid, the origin among them, and each can be reached from the
/// origin; the cells on the stack are visited; a cell not yet visited has all
/// its walls; there is one open wall for each visited cell but the origin;
/// and a visited cell that has left the stack has no unvisited neighbour.
pub open spec fn carving(maze: &Maze, visited: Set<Coordinates>, stack: Seq<Coordinates>) -> bool {
    &&& maze.wf()
    &&& maze.enclosed()
    &&& visited.finite()
    &&& visited.contains(origin())
    &&& forall|place: Coordinates| visited.contains(place) ==> maze.in_bounds(place)
    &&& forall|i: int| 0 <= i < stack.len() ==> visited.contains(#[trigger] stack[i])
    &&& forall|place: Coordinates|
        visited.contains(place) ==> #[trigger] maze.reachable(origin(), place)
    &&& forall|place: Coordinates|
        maze.in_bounds(place) && !visited.contains(place) ==> (#[trigger] maze.cell(
            place,
        )).walled()
    &&& maze.open_wall_count() + 1 == visited.len()
    &&& forall|place: Coordinates, side: Direction|
        #![trigger visited.contains(Maze::neighbor(place, side))]
        visited.contains(place) && !stack.contains(place) && maze.in_bounds(
            Maze::neighbor(place, side),
        ) ==> visited.contains(Maze::neighbor(place, side))
}

/// A grid with all its walls, the origin visited and on the stack, is a
/// carving about to begin.
proof fn lemma_carving_begins(maze: &Maze)
    requires
        maze.wf(),
        maze.all_closed(),
        maze.open_wall_count() == 0,
    ensures
        carving(maze, set![origin()], seq![origin()]),
{
    maze.lemma_reachable_self(origin());
    assert forall|place: Coordinates, side: Direction|
        #![trigger maze.cell(place).has_wall(side)]
        maze.in_bounds(place) && !maze.in_bounds(
            Maze::neighbor(place, side),
        ) implies maze.has_wall(place, side) by {
        assert(maze.cell(place).walled());
    }
    assert(seq![origin()][0] == origin());
    assert(seq![origin()].contains(origin()));
}

/// The visited cells of a carving are no more than the grid has.
proof fn lemma_carving_bounded(maze: &Maze, visited: Set<Coordinates>, stack: Seq<Coordinates>)
    requires
        carving(maze, visited, stack),
    ensures
        0 < visited.len() <= maze.cols() * maze.rows(),
        stack.len() > 0 ==> maze.in_bounds(stack.last()),
{
    maze.lemma_cells_bounded(visited);
    if stack.len() > 0 {
        assert(visited.contains(stack[stack.len() - 1]));
    }
}

/// Going on from the top of the stack to an unvisited neighbour, and opening
/// the wall to it, keeps the carving in order.
proof fn lemma_carving_descends(
    earlier: &Maze,
    later: &Maze,
    visited: Set<Coordinates>,
    stack: Seq<Coordinates>,
    direction: Direction,
)
    requires
        carving(earlier, visited, stack),
        stack.len() > 0,
        earlier.in_bounds(Maze::neighbor(stack.last(), direction)),
        !visited.contains(Maze::neighbor(stack.last(), direction)),
        later.opened_from(earlier, stack.last(), direction),
    ensures
        carving(
            later,
            visited.insert(Maze::neighbor(stack.last(), direction)),
            stack.push(Maze::neighbor(stack.last(), direction)),
        ),
        carved_from(later, earlier),
        later.open_wall_count() == earlier.open_wall_count() + 1,
{
    let top = stack.last();
    let adjusted = Maze::neighbor(top, direction);
    let seen = visited.insert(adjusted);
    let deeper = stack.push(adjusted);
    assert(visited.contains(stack[stack.len() - 1]));
    lemma_neighbor_back(top, direction);
    assert(earlier.cell(adjusted).walled());
    assert(earlier.cell(adjusted).has_wall(direction.opposite()));
    assert(earlier.cell(top).has_wall(direction));
    assert(carved_from(later, earlier));
    assert forall|place: Coordinates, side: Direction|
        #![trigger later.cell(place).has_wall(side)]
        earlier.passage(place, side) implies later.passage(place, side) by {}
    assert forall|place: Coordinates| seen.contains(place) implies #[trigger] later.reachable(
        origin(),
        place,
    ) by {
        if place == adjusted {
            earlier.lemma_reachable_monotone(later, origin(), top);
            assert(later.step(top, adjusted, direction));
            later.lemma_reachable_step(origin(), top, adjusted);
        } else {
            earlier.lemma_reachable_monotone(later, origin(), place);
        }
    }
    lemma_descent_keeps_walls(earlier, later, visited, stack, direction);
    assert forall|i: int| 0 <= i < deeper.len() implies seen.contains(#[trigger] deeper[i]) by {
        if i < stack.len() {
            assert(deeper[i] == stack[i]);
        }
    }
    assert forall|place: Coordinates, side: Direction|
        #![trigger seen.contains(Maze::neighbor(place, side))]
        seen.contains(place) && !deeper.contains(place) && later.in_bounds(
            Maze::neighbor(place, side),
        ) implies seen.contains(Maze::neighbor(place, side)) by {
        if place == adjusted {
            assert(deeper[deeper.len() - 1] == adjusted);
        } else {
            if stack.contains(place) {
                let i = choose|i: int| 0 <= i < stack.len() && stack[i] == place;
                assert(deeper[i] == place);
            }
            assert(visited.contains(Maze::neighbor(place, side)));
        }
    }
}

/// The part of `lemma_carving_descends` that is about walls: the rim stays
/// closed and the cells still unvisited keep all their walls.
proof fn lemma_descent_keeps_walls(
    earlier: &Maze,
    later: &Maze,
    visited: Set<Coordinates>,
    stack: Seq<Coordinates>,
    direction: Direction,
)
    requires
        carving(earlier, visited, stack),
        stack.len() > 0,
        earlier.in_bounds(Maze::neighbor(stack.last(), direction)),
        !visited.contains(Maze::neighbor(stack.last(), direction)),
        later.opened_from(earlier, stack.last(), direction),
    ensures
        later.enclosed(),
        forall|place: Coordinates|
            later.in_bounds(place) && !visited.insert(
                Maze::neighbor(stack.last(), direction),
            ).contains(place) ==> (#[trigger] later.cell(place)).walled(),
{
    let top = stack.last();
    let adjusted = Maze::neighbor(top, direction);
    assert(visited.contains(stack[stack.len() - 1]));
    lemma_neighbor_back(top, direction);
    assert forall|place: Coordinates, side: Direction|
        #![trigger later.cell(place).has_wall(side)]
        later.in_bounds(place) && !later.in_bounds(
            Maze::neighbor(place, side),
        ) implies later.has_wall(place, side) by {
        assert(earlier.cell(place).has_wall(side));
    }
    assert forall|place: Coordinates|
        later.in_bounds(place) && !visited.insert(adjusted).contains(
            place,
        ) implies (#[trigger] later.cell(place)).walled() by {
        assert(earlier.cell(place).walled());
        assert forall|side: Direction| later.cell(place).has_wall(side) by {
            assert(earlier.cell(place).has_wall(side));
        }
    }
}

/// Leaving the top of the stack, once it has no unvisited neighbour, keeps
/// the carving in order.
proof fn lemma_carving_retreats(maze: &Maze, visited: Set<Coordinates>, stack: Seq<Coordinates>)
    requires
        carving(maze, visited, stack),
        stack.len() > 0,
        forall|side: Direction|
            maze.in_bounds(#[trigger] Maze::neighbor(stack.last(), side)) ==> visited.contains(
                Maze::neighbor(stack.last(), side),
            ),
    ensures
        carving(maze, visited, stack.drop_last()),
{
    let top = stack.last();
    let shorter = stack.drop_last();
    assert forall|place: Coordinates, side: Direction|
        #![trigger visited.contains(Maze::neighbor(place, side))]
        visited.contains(place) && !shorter.contains(place) && maze.in_bounds(
            Maze::neighbor(place, side),
        ) implies visited.contains(Maze::neighbor(place, side)) by {
        if place == top {
            assert(maze.in_bounds(Maze::neighbor(stack.last(), side)));
        } else if stack.contains(place) {
            let i = choose|i: int| 0 <= i < stack.len() && stack[i] == place;
            assert(shorter[i] == place);
        }
    }
    assert forall|i: int| 0 <= i < shorter.len() implies visited.contains(
        #[trigger] shorter[i],
    ) by {
        assert(shorter[i] == stack[i]);
    }
}

/// When the stack is empty the carving is done: every cell is visited, and
/// the passages form a spanning tree.
proof fn lemma_carving_ends(maze: &Maze, visited: Set<Coordinates>)
    requires
        carving(maze, visited, Seq::<Coordinates>::empty()),
    ensures
        maze.spanning_tree(),
        visited.len() == maze.cols() * maze.rows(),
{
    assert forall|place: Coordinates| maze.in_bounds(place) implies visited.contains(place) by {
        maze.lemma_grid_closure(visited, place);
    }
    maze.lemma_cells_complete(visited);
}

/// A randomized depth-first maze generator: the size of the grid to carve,
/// and the channel on which to show the grid after each wall that comes down.
pub struct DFSOptions {
    width: usize,
    height: usize,
    visualize: bool,
    tx: Sender<Maze>,
    emitted: Ghost<Seq<Maze>>,
}

impl DFSOptions {
    /// The width of the grids that this generator carves.
    pub closed spec fn cols(&self) -> usize {
        self.width
    }

    /// The height of the grids that this generator carves.
    pub closed spec fn rows(&self) -> usize {
        self.height
    }

    /// Whether the generator shows its progress on the channel.
    pub closed spec fn streams(&self) -> bool {
        self.visualize
    }

    /// Every snapshot that this generator has handed to its channel so far,
    /// in the order in which it did.
    pub closed spec fn emitted(&self) -> Seq<Maze> {
        self.emitted@
    }

    /// What a run has added to the snapshots when `carved` walls have come
    /// down and the grid stands as `maze`. Without streaming it has added
    /// nothing. With streaming it has added one snapshot for each wall that
    /// came down: the first has one open wall, each has one more than the one
    /// before it and every open wall of that one, and the last is `maze`.
    pub open spec fn progress(
        &self,
        before: Seq<Maze>,
        after: Seq<Maze>,
        carved: int,
        maze: &Maze,
    ) -> bool {
        let added = after.len() - before.len();
        &&& before.len() <= after.len()
        &&& after.subrange(0, before.len() as int) == before
        &&& added == if self.streams() {
            carved
        } else {
            0
        }
        &&& forall|k: int|
            before.len() <= k < after.len() ==> {
                let snapshot = #[trigger] after[k];
                &&& snapshot.wf()
                &&& snapshot.cols() == self.cols()
                &&& snapshot.rows() == self.rows()
                &&& snapshot.enclosed()
                &&& snapshot.open_wall_count() == k - before.len() + 1
            }
        &&& forall|k: int|
            before.len() < k < after.len() ==> carved_from(#[trigger] &after[k], &after[k - 1])
        &&& added > 0 ==> after.last()@ == maze@
    }

    /// What one whole run adds to the snapshots when it ends with `maze`: a
    /// grid of `w` by `h` cells takes `w * h - 1` walls to carve.
    pub open spec fn streamed(&self, before: Seq<Maze>, after: Seq<Maze>, maze: &Maze) -> bool {
        self.progress(before, after, self.cols() * self.rows() - 1, maze)
    }

    proof fn lemma_progress_begins(&self, before: Seq<Maze>, maze: &Maze)
        ensures
            self.progress(before, before, 0, maze),
    {
        assert(before.subrange(0, before.len() as int) =~= before);
    }

    proof fn lemma_progress_silent(
        &self,
        before: Seq<Maze>,
        after: Seq<Maze>,
        carved: int,
        earlier: &Maze,
        later: &Maze,
    )
        requires
            self.progress(before, after, carved, earlier),
            !self.streams(),
        ensures
            self.progress(before, after, carved + 1, later),
    {
    }

    proof fn lemma_progress_shown(
        &self,
        before: Seq<Maze>,
        after: Seq<Maze>,
        carved: int,
        earlier: &Maze,
        later: &Maze,
        snapshot: Maze,
    )
        requires
            self.progress(before, after, carved, earlier),
            self.streams(),
            carved >= 0,
            snapshot@ == later@,
            later.wf(),
            later.enclosed(),
            later.cols() == self.cols(),
            later.rows() == self.rows(),
            later.open_wall_count() == carved + 1,
            carved_from(later, earlier),
        ensures
            self.progress(before, after.push(snapshot), carved + 1, later),
    {
        let longer = after.push(snapshot);
        assert(longer.subrange(0, before.len() as int) =~= after.subrange(0, before.len() as int));
        assert forall|place: Coordinates| snapshot.cell(place) == later.cell(place) by {}
        assert(snapshot.wf());
        assert(snapshot.enclosed());
        assert forall|k: int| before.len() <= k < longer.len() implies {
            let shown = #[trigger] longer[k];
            &&& shown.wf()
            &&& shown.cols() == self.cols()
            &&& shown.rows() == self.rows()
            &&& shown.enclosed()
            &&& shown.open_wall_count() == k - before.len() + 1
        } by {
            if k < after.len() {
                assert(longer[k] == after[k]);
            }
        }
        assert forall|k: int| before.len() < k < longer.len() implies carved_from(
            #[trigger] &longer[k],
            &longer[k - 1],
        ) by {
            if k < after.len() {
                assert(longer[k] == after[k]);
                assert(longer[k - 1] == after[k - 1]);
            } else {
                let last = after[k - 1];
                assert(longer[k - 1] == last);
                assert(last@ == earlier@);
                assert forall|place: Coordinates| last.cell(place) == earlier.cell(place) by {}
            }
        }
    }

    /// A generator for grids of the given size that shows its progress on
    /// `tx` where `visualize` asks for it. The size is checked by `create`.
    pub fn new(width: usize, height: usize, visualize: bool, tx: Sender<Maze>) -> (options: Self)
        ensures
            options.cols() == width,
            options.rows() == height,
            options.streams() == visualize,
            options.emitted() == Seq::<Maze>::empty(),
    {
        Self { width, height, visualize, tx, emitted: Ghost(Seq::empty()) }
    }

    /// Hands a snapshot to the channel and notes it among the emitted ones.
    /// A snapshot that nobody is there to take is lost, and the run goes on.
    fn emit(&mut self, snapshot: Maze)
        ensures
            final(self).cols() == old(self).cols(),
            final(self).rows() == old(self).rows(),
            final(self).streams() == old(self).streams(),
            final(self).emitted() == old(self).emitted().push(snapshot),
    {
        let ghost noted = snapshot;
        let _ = offer(&self.tx, snapshot);
        proof {
            self.emitted@ = self.emitted@.push(noted);
        }
    }

    /// Carves a maze by randomized depth-first search from the origin. The
    /// result is a spanning tree of the grid whatever the random choices were,
    /// and whether or not anyone still listens on the channel.
    pub fn create(&mut self) -> (made: Result<Maze, MazeError>)
        ensures
            final(self).cols() == old(self).cols(),
            final(self).rows() == old(self).rows(),
            final(self).streams() == old(self).streams(),
            match made {
                Ok(maze) => {
                    &&& valid_dimensions(old(self).cols(), old(self).rows())
                    &&& maze.cols() == old(self).cols()
                    &&& maze.rows() == old(self).rows()
                    &&& maze.spanning_tree()
                    &&& old(self).streamed(old(self).emitted(), final(self).emitted(), &maze)
                },
                Err(error) => {
                    &&& !valid_dimensions(old(self).cols(), old(self).rows())
                    &&& error == MazeError::InvalidDimensions
                    &&& final(self).emitted() == old(self).emitted()
                },
            },
    {
        let mut maze = match Maze::new(self.width, self.height) {
            Ok(maze) => maze,
            Err(error) => {
                return Err(error);
            },
        };
        let ghost before = self.emitted@;
        let ghost total = self.width * self.height;
        let mut stack: Vec<Coordinates> = Vec::new();
        let mut visited = CoordinateSet::new();
        let start = Coordinates::new(0, 0);
        stack.push(start);
        visited.insert(start);
        proof {
            lemma_carving_begins(&maze);
            assert(visited@ =~= set![origin()]);
            assert(stack@ =~= seq![origin()]);
            self.lemma_progress_begins(before, &maze);
            lemma_carving_bounded(&maze, visited@, stack@);
        }
        while stack.len() > 0
            invariant
                self.cols() == old(self).cols(),
                self.rows() == old(self).rows(),
                self.streams() == old(self).streams(),
                total == self.cols() * self.rows(),
                maze.cols() == self.cols(),
                maze.rows() == self.rows(),
                carving(&maze, visited@, stack@),
                visited@.len() <= total,
                self.progress(before, self.emitted(), visited@.len() - 1, &maze),
            decreases 2 * (total - visited@.len()) + stack@.len(),
        {
            proof {
                lemma_carving_bounded(&maze, visited@, stack@);
            }
            let top = stack[stack.len() - 1];
            let cell = *maze.get(top).unwrap();
            if cell.has_unvisited_neighbor(&maze, &visited) {
                let direction = cell.get_unvisited_neighbor(&maze, &visited);
                let adjusted = top + direction.step();
                let ghost earlier = maze;
                let ghost log = self.emitted@;
                maze.remove_wall(top, direction);
                proof {
                    lemma_carving_descends(&earlier, &maze, visited@, stack@, direction);
                }
                if self.visualize {
                    let snapshot = maze.clone();
                    self.emit(snapshot);
                    proof {
                        old(self).lemma_progress_shown(
                            before,
                            log,
                            visited@.len() - 1,
                            &earlier,
                            &maze,
                            snapshot,
                        );
                    }
                } else {
                    proof {
                        old(self).lemma_progress_silent(
                            before,
                            log,
                            visited@.len() - 1,
                            &earlier,
                            &maze,
                        );
                    }
                }
                visited.insert(adjusted);
                stack.push(adjusted);
                proof {
                    lemma_carving_bounded(&maze, visited@, stack@);
                }
            } else {
                proof {
                    lemma_carving_retreats(&maze, visited@, stack@);
                }
                stack.pop();
            }
        }
        proof {
            assert(stack@ =~= Seq::<Coordinates>::empty());
            lemma_carving_ends(&maze, visited@);
        }
        Ok(maze)
    }
}

} // verus!
