use vstd::prelude::*;
use std::collections::VecDeque;
use std::sync::mpsc::Sender;
use crate::channel::offer;
use crate::coordinate::Coordinates;
use crate::coordinate_set::CoordinateSet;
use crate::direction::{Direction, DIRECTIONS};
use crate::maze::{origin, Maze};

verus! {

/// Every passage out of `place` leads to an explored cell.
pub open spec fn fully_expanded(maze: &Maze, explored: Set<Coordinates>, place: Coordinates) -> bool {
    forall|side: Direction|
        #![trigger Maze::neighbor(place, side)]
        maze.passage(place, side) ==> explored.contains(Maze::neighbor(place, side))
}

/// The passages out of `place` in the first `count` of the solver's
/// directions lead to explored cells.
pub open spec fn expanded_upto(
    maze: &Maze,
    explored: Set<Coordinates>,
    place: Coordinates,
    count: int,
) -> bool {
    forall|k: int|
        #![trigger DIRECTIONS[k]]
        0 <= k < count ==> (maze.passage(place, DIRECTIONS[k]) ==> explored.contains(
            Maze::neighbor(place, DIRECTIONS[k]),
        ))
}

/// The state of a breadth-first search in progress. `done` lists the cells
/// taken from the queue, in that order; `explored` holds the cells ever put
/// on the queue, each of which can be reached from the origin and is either
/// done or still waiting; no cell waits twice. Every done cell but the one
/// in hand, `active`, is not the goal and has all its passages followed.
pub open spec fn searching(
    maze: &Maze,
    done: Seq<Coordinates>,
    explored: Set<Coordinates>,
    queue: Seq<Coordinates>,
    active: Option<Coordinates>,
) -> bool {
    &&& maze.wf()
    &&& explored.finite()
    &&& explored.contains(origin())
    &&& forall|place: Coordinates|
        explored.contains(place) ==> #[trigger] maze.reachable(origin(), place)
    &&& forall|place: Coordinates| explored.contains(place) ==> maze.in_bounds(place)
    &&& forall|place: Coordinates|
        explored.contains(place) <==> (done.contains(place) || queue.contains(place))
    &&& done.no_duplicates()
    &&& queue.no_duplicates()
    &&& forall|i: int| 0 <= i < queue.len() ==> !done.contains(#[trigger] queue[i])
    &&& forall|i: int|
        0 <= i < done.len() ==> Some(#[trigger] done[i]) == active || (done[i] != maze.goal()
            && fully_expanded(maze, explored, done[i]))
}

proof fn lemma_search_begins(maze: &Maze)
    requires
        maze.wf(),
    ensures
        searching(
            maze,
            Seq::<Coordinates>::empty(),
            set![origin()],
            seq![origin()],
            None::<Coordinates>,
        ),
{
    maze.lemma_reachable_self(origin());
    let queue = seq![origin()];
    assert(queue[0] == origin());
    assert(queue.contains(origin()));
}

/// The explored cells are no more than the grid has, and the cell at the
/// head of the queue is a cell of the grid.
proof fn lemma_search_bounded(
    maze: &Maze,
    done: Seq<Coordinates>,
    explored: Set<Coordinates>,
    queue: Seq<Coordinates>,
    active: Option<Coordinates>,
)
    requires
        searching(maze, done, explored, queue, active),
    ensures
        explored.len() <= maze.cols() * maze.rows(),
        queue.len() > 0 ==> maze.in_bounds(queue[0]),
{
    maze.lemma_cells_bounded(explored);
    if queue.len() > 0 {
        assert(queue.contains(queue[0]));
    }
}

/// Taking the head of the queue in hand keeps the search in order.
proof fn lemma_search_visits(
    maze: &Maze,
    done: Seq<Coordinates>,
    explored: Set<Coordinates>,
    queue: Seq<Coordinates>,
)
    requires
        searching(maze, done, explored, queue, None::<Coordinates>),
        queue.len() > 0,
    ensures
        searching(
            maze,
            done.push(queue[0]),
            explored,
            queue.subrange(1, queue.len() as int),
            Some(queue[0]),
        ),
        !done.contains(queue[0]),
        explored.contains(queue[0]),
{
    let top = queue[0];
    let rest = queue.subrange(1, queue.len() as int);
    let more = done.push(top);
    assert(queue.contains(top));
    assert forall|place: Coordinates| explored.contains(place) <==> (more.contains(place)
        || rest.contains(place)) by {
        if more.contains(place) {
            let i = choose|i: int| 0 <= i < more.len() && more[i] == place;
            if i < done.len() {
                assert(done[i] == place);
            }
        }
        if rest.contains(place) {
            let i = choose|i: int| 0 <= i < rest.len() && rest[i] == place;
            assert(queue[i + 1] == place);
        }
        if done.contains(place) {
            let i = choose|i: int| 0 <= i < done.len() && done[i] == place;
            assert(more[i] == place);
        }
        if queue.contains(place) {
            let i = choose|i: int| 0 <= i < queue.len() && queue[i] == place;
            if i == 0 {
                assert(more[done.len() as int] == place);
            } else {
                assert(rest[i - 1] == place);
            }
        }
    }
    assert forall|i: int| 0 <= i < rest.len() implies !more.contains(#[trigger] rest[i]) by {
        assert(rest[i] == queue[i + 1]);
        if more.contains(rest[i]) {
            let j = choose|j: int| 0 <= j < more.len() && more[j] == rest[i];
            if j < done.len() {
                assert(done[j] == rest[i]);
            }
        }
    }
    assert forall|i: int| 0 <= i < more.len() implies Some(#[trigger] more[i]) == Some(top) || (
    more[i] != maze.goal() && fully_expanded(maze, explored, more[i])) by {
        if i < done.len() {
            assert(more[i] == done[i]);
        }
    }
    assert(more.no_duplicates()) by {
        assert forall|i: int, j: int| 0 <= i < more.len() && 0 <= j < more.len() && i != j implies more[i] != more[j] by {
            if i < done.len() {
                assert(more[i] == done[i]);
            }
            if j < done.len() {
                assert(more[j] == done[j]);
            }
        }
    }
    assert(rest.no_duplicates());
}

/// Putting a newly found neighbour of the cell in hand on the queue keeps
/// the search in order.
proof fn lemma_search_discovers(
    maze: &Maze,
    done: Seq<Coordinates>,
    explored: Set<Coordinates>,
    queue: Seq<Coordinates>,
    top: Coordinates,
    side: Direction,
)
    requires
        searching(maze, done, explored, queue, Some(top)),
        explored.contains(top),
        maze.passage(top, side),
        !explored.contains(Maze::neighbor(top, side)),
    ensures
        searching(
            maze,
            done,
            explored.insert(Maze::neighbor(top, side)),
            queue.push(Maze::neighbor(top, side)),
            Some(top),
        ),
{
    let found = Maze::neighbor(top, side);
    let wider = explored.insert(found);
    let longer = queue.push(found);
    assert(maze.linked(top, found)) by {
        assert(maze.step(top, found, side));
    }
    maze.lemma_reachable_step(origin(), top, found);
    assert forall|place: Coordinates| wider.contains(place) <==> (done.contains(place)
        || longer.contains(place)) by {
        if longer.contains(place) {
            let i = choose|i: int| 0 <= i < longer.len() && longer[i] == place;
            if i < queue.len() {
                assert(queue[i] == place);
            }
        }
        if queue.contains(place) {
            let i = choose|i: int| 0 <= i < queue.len() && queue[i] == place;
            assert(longer[i] == place);
        }
        if place == found {
            assert(longer[queue.len() as int] == place);
        }
    }
    assert(longer.no_duplicates()) by {
        assert forall|i: int, j: int| 0 <= i < longer.len() && 0 <= j < longer.len() && i != j implies longer[i] != longer[j] by {
            if i < queue.len() {
                assert(longer[i] == queue[i]);
                assert(queue.contains(queue[i]));
            }
            if j < queue.len() {
                assert(longer[j] == queue[j]);
                assert(queue.contains(queue[j]));
            }
        }
    }
    assert forall|i: int| 0 <= i < longer.len() implies !done.contains(#[trigger] longer[i]) by {
        if i < queue.len() {
            assert(longer[i] == queue[i]);
        }
    }
}

/// Once every passage out of the cell in hand has been followed, and the
/// cell is not the goal, the search is ready for the next cell.
proof fn lemma_search_settles(
    maze: &Maze,
    done: Seq<Coordinates>,
    explored: Set<Coordinates>,
    queue: Seq<Coordinates>,
    top: Coordinates,
)
    requires
        searching(maze, done, explored, queue, Some(top)),
        top != maze.goal(),
        expanded_upto(maze, explored, top, 4),
    ensures
        searching(maze, done, explored, queue, None::<Coordinates>),
{
    assert forall|side: Direction| #![trigger Maze::neighbor(top, side)] maze.passage(
        top,
        side,
    ) implies explored.contains(Maze::neighbor(top, side)) by {
        assert(DIRECTIONS[0] == Direction::North);
        assert(DIRECTIONS[1] == Direction::South);
        assert(DIRECTIONS[2] == Direction::East);
        assert(DIRECTIONS[3] == Direction::West);
    }
    assert(fully_expanded(maze, explored, top));
}

/// When no cell waits any more, the done cells are exactly the cells that
/// can be reached from the origin, and the goal is not one of them.
proof fn lemma_search_ends(maze: &Maze, done: Seq<Coordinates>, explored: Set<Coordinates>)
    requires
        searching(maze, done, explored, Seq::<Coordinates>::empty(), None::<Coordinates>),
    ensures
        !maze.reachable(origin(), maze.goal()),
        done.to_set() == maze.reachable_set(origin()),
{
    assert forall|place: Coordinates, direction: Direction|
        #![trigger maze.cell(place).has_wall(direction)]
        explored.contains(place) && maze.passage(place, direction) implies explored.contains(
        Maze::neighbor(place, direction),
    ) by {
        let i = choose|i: int| 0 <= i < done.len() && done[i] == place;
        assert(fully_expanded(maze, explored, done[i]));
        assert(explored.contains(Maze::neighbor(done[i], direction)));
    }
    assert forall|place: Coordinates| maze.reachable(origin(), place) implies explored.contains(
        place,
    ) by {
        maze.lemma_closed_set_holds_reachable(explored, origin(), place);
    }
    if maze.reachable(origin(), maze.goal()) {
        let i = choose|i: int| 0 <= i < done.len() && done[i] == maze.goal();
        assert(done[i] != maze.goal());
    }
    assert(done.to_set() =~= maze.reachable_set(origin()));
}

/// While the search runs, every done cell can be reached from the origin.
proof fn lemma_search_reaches(
    maze: &Maze,
    done: Seq<Coordinates>,
    explored: Set<Coordinates>,
    queue: Seq<Coordinates>,
    active: Option<Coordinates>,
)
    requires
        searching(maze, done, explored, queue, active),
    ensures
        done.to_set().subset_of(maze.reachable_set(origin())),
{
    assert forall|place: Coordinates| done.to_set().contains(
        place,
    ) implies maze.reachable_set(origin()).contains(place) by {
        assert(explored.contains(place));
    }
}

/// The cells of `order` stand by their distance from the origin: a number of
/// passages that is enough to reach one of them is enough to reach each cell
/// that stands before it.
pub open spec fn by_distance(maze: &Maze, order: Seq<Coordinates>) -> bool {
    forall|i: int, j: int, steps: nat|
        #![trigger order[i], maze.walk_within(origin(), order[j], steps)]
        0 <= i < j < order.len() && maze.walk_within(origin(), order[j], steps)
            ==> maze.walk_within(origin(), order[i], steps)
}

/// Every cell that is nearer to the origin than `place` is among `found`: a
/// cell that can be reached within a number of passages that is not enough to
/// reach `place`.
pub open spec fn nearer_found(maze: &Maze, found: Set<Coordinates>, place: Coordinates) -> bool {
    forall|other: Coordinates, steps: nat|
        #![trigger maze.walk_within(origin(), other, steps)]
        maze.walk_within(origin(), other, steps) && !maze.walk_within(origin(), place, steps)
            ==> found.contains(other)
}

/// How a breadth-first search keeps its cells in the order of their distance
/// from the origin. `levels` gives each explored cell its distance: so many
/// passages reach it and no fewer do. The done cells and the waiting cells
/// stand in the order of their levels; the done cells are at most at level
/// `front`, the waiting cells at `front` or one beyond; and every cell within
/// `front` passages of the origin is explored.
pub open spec fn leveled(
    maze: &Maze,
    done: Seq<Coordinates>,
    explored: Set<Coordinates>,
    queue: Seq<Coordinates>,
    levels: Map<Coordinates, nat>,
    front: nat,
) -> bool {
    &&& forall|place: Coordinates|
        explored.contains(place) ==> #[trigger] levels.contains_key(place) && maze.walk_within(
            origin(),
            place,
            levels[place],
        )
    &&& forall|place: Coordinates, steps: nat|
        explored.contains(place) && #[trigger] maze.walk_within(origin(), place, steps)
            ==> levels[place] <= steps
    &&& forall|i: int, j: int|
        0 <= i < j < done.len() ==> levels[#[trigger] done[i]] <= levels[#[trigger] done[j]]
    &&& forall|i: int, j: int|
        0 <= i < j < queue.len() ==> levels[#[trigger] queue[i]] <= levels[#[trigger] queue[j]]
    &&& forall|i: int| 0 <= i < queue.len() ==> front <= levels[#[trigger] queue[i]] <= front + 1
    &&& forall|i: int| 0 <= i < done.len() ==> levels[#[trigger] done[i]] <= front
    &&& forall|place: Coordinates, steps: nat|
        steps <= front && #[trigger] maze.walk_within(origin(), place, steps)
            ==> explored.contains(place)
}

proof fn lemma_levels_begin(maze: &Maze)
    requires
        maze.wf(),
    ensures
        leveled(
            maze,
            Seq::<Coordinates>::empty(),
            set![origin()],
            seq![origin()],
            map![origin() => 0nat],
            0,
        ),
{
    let levels = map![origin() => 0nat];
    let queue = seq![origin()];
    maze.lemma_reachable_self(origin());
    assert(maze.walk_within(origin(), origin(), 0)) by {
        let path = seq![origin()];
        assert(maze.is_path(path) && path[0] == origin() && path.last() == origin());
    }
    assert forall|place: Coordinates, steps: nat|
        steps <= 0 && #[trigger] maze.walk_within(origin(), place, steps) implies set![
        origin(),
    ].contains(place) by {
        maze.lemma_walk_none(origin(), place);
    }
    assert(queue[0] == origin());
}

/// Taking the head of the queue in hand moves the front to its level.
proof fn lemma_levels_visit(
    maze: &Maze,
    done: Seq<Coordinates>,
    explored: Set<Coordinates>,
    queue: Seq<Coordinates>,
    levels: Map<Coordinates, nat>,
    front: nat,
)
    requires
        searching(maze, done, explored, queue, None::<Coordinates>),
        leveled(maze, done, explored, queue, levels, front),
        queue.len() > 0,
    ensures
        leveled(
            maze,
            done.push(queue[0]),
            explored,
            queue.subrange(1, queue.len() as int),
            levels,
            levels[queue[0]],
        ),
{
    let top = queue[0];
    let rest = queue.subrange(1, queue.len() as int);
    let more = done.push(top);
    let ahead = levels[top];
    assert(front <= ahead <= front + 1);
    assert forall|i: int, j: int| 0 <= i < j < more.len() implies levels[#[trigger] more[i]]
        <= levels[#[trigger] more[j]] by {
        assert(more[i] == done[i]);
        if j < done.len() {
            assert(more[j] == done[j]);
        }
    }
    assert forall|i: int, j: int| 0 <= i < j < rest.len() implies levels[#[trigger] rest[i]]
        <= levels[#[trigger] rest[j]] by {
        assert(rest[i] == queue[i + 1]);
        assert(rest[j] == queue[j + 1]);
    }
    assert forall|i: int| 0 <= i < rest.len() implies ahead <= levels[#[trigger] rest[i]] <= ahead
        + 1 by {
        assert(rest[i] == queue[i + 1]);
        assert(levels[queue[0]] <= levels[queue[i + 1]]);
    }
    assert forall|i: int| 0 <= i < more.len() implies levels[#[trigger] more[i]] <= ahead by {
        if i < done.len() {
            assert(more[i] == done[i]);
        }
    }
    assert forall|place: Coordinates, steps: nat|
        steps <= ahead && #[trigger] maze.walk_within(
            origin(),
            place,
            steps,
        ) implies explored.contains(place) by {
        if steps <= front {
        } else if place == origin() {
        } else {
            let via = maze.lemma_walk_last_step(origin(), place, steps);
            assert(maze.walk_within(origin(), via, (steps - 1) as nat));
            assert(explored.contains(via));
            assert(levels[via] <= steps - 1);
            if queue.contains(via) {
                let i = choose|i: int| 0 <= i < queue.len() && queue[i] == via;
                if i > 0 {
                    assert(levels[queue[0]] <= levels[queue[i]]);
                }
            }
            assert(done.contains(via));
            let k = choose|k: int| 0 <= k < done.len() && done[k] == via;
            assert(fully_expanded(maze, explored, done[k]));
            assert(maze.linked(via, place));
        }
    }
}

/// A newly found neighbour of the cell in hand lies one level beyond it.
proof fn lemma_levels_discover(
    maze: &Maze,
    done: Seq<Coordinates>,
    explored: Set<Coordinates>,
    queue: Seq<Coordinates>,
    levels: Map<Coordinates, nat>,
    front: nat,
    top: Coordinates,
    side: Direction,
)
    requires
        searching(maze, done, explored, queue, Some(top)),
        leveled(maze, done, explored, queue, levels, front),
        explored.contains(top),
        levels[top] == front,
        maze.passage(top, side),
        !explored.contains(Maze::neighbor(top, side)),
    ensures
        leveled(
            maze,
            done,
            explored.insert(Maze::neighbor(top, side)),
            queue.push(Maze::neighbor(top, side)),
            levels.insert(Maze::neighbor(top, side), front + 1),
            front,
        ),
{
    let found = Maze::neighbor(top, side);
    let wider = explored.insert(found);
    let longer = queue.push(found);
    let deeper = levels.insert(found, front + 1);
    assert(maze.linked(top, found)) by {
        assert(maze.step(top, found, side));
    }
    assert(levels.contains_key(top));
    maze.lemma_walk_step(origin(), top, found, front);
    assert forall|i: int| 0 <= i < done.len() implies #[trigger] done[i] != found by {
        assert(done.contains(done[i]));
    }
    assert forall|i: int| 0 <= i < queue.len() implies #[trigger] queue[i] != found by {
        assert(queue.contains(queue[i]));
    }
    assert forall|place: Coordinates| wider.contains(place) implies #[trigger] deeper.contains_key(
        place,
    ) && maze.walk_within(origin(), place, deeper[place]) by {
        if place != found {
            assert(levels.contains_key(place));
        }
    }
    assert forall|place: Coordinates, steps: nat|
        wider.contains(place) && #[trigger] maze.walk_within(
            origin(),
            place,
            steps,
        ) implies deeper[place] <= steps by {
        if place == found {
            if steps <= front {
                assert(explored.contains(found));
            }
        }
    }
    assert forall|i: int| 0 <= i < done.len() implies deeper[#[trigger] done[i]] <= front by {
        assert(levels[done[i]] <= front);
        if done[i] == found {
        }
    }
    assert forall|i: int| 0 <= i < longer.len() implies front <= deeper[#[trigger] longer[i]]
        <= front + 1 by {
        if i < queue.len() {
            assert(longer[i] == queue[i]);
            assert(front <= levels[queue[i]] <= front + 1);
        }
    }
    assert forall|i: int, j: int| 0 <= i < j < done.len() implies deeper[#[trigger] done[i]]
        <= deeper[#[trigger] done[j]] by {
        assert(levels[done[i]] <= levels[done[j]]);
        assert(levels[done[i]] <= front);
        assert(levels[done[j]] <= front);
    }
    assert forall|i: int, j: int| 0 <= i < j < longer.len() implies deeper[#[trigger] longer[i]]
        <= deeper[#[trigger] longer[j]] by {
        assert(longer[i] == queue[i]);
        assert(front <= levels[queue[i]] <= front + 1);
        if j < queue.len() {
            assert(longer[j] == queue[j]);
            assert(levels[queue[i]] <= levels[queue[j]]);
            assert(front <= levels[queue[j]] <= front + 1);
        }
    }
}

/// The done cells of a leveled search stand by their distance from the origin.
proof fn lemma_levels_order(
    maze: &Maze,
    done: Seq<Coordinates>,
    explored: Set<Coordinates>,
    queue: Seq<Coordinates>,
    active: Option<Coordinates>,
    levels: Map<Coordinates, nat>,
    front: nat,
)
    requires
        searching(maze, done, explored, queue, active),
        leveled(maze, done, explored, queue, levels, front),
    ensures
        by_distance(maze, done),
{
    assert forall|i: int, j: int, steps: nat|
        #![trigger done[i], maze.walk_within(origin(), done[j], steps)]
        0 <= i < j < done.len() && maze.walk_within(
            origin(),
            done[j],
            steps,
        ) implies maze.walk_within(origin(), done[i], steps) by {
        assert(done.contains(done[i]));
        assert(done.contains(done[j]));
        assert(explored.contains(done[i]));
        assert(explored.contains(done[j]));
        assert(levels[done[i]] <= levels[done[j]]);
        assert(levels.contains_key(done[i]));
        maze.lemma_walk_longer(origin(), done[i], levels[done[i]], steps);
    }
}

/// When the cell in hand is taken from the queue, every cell nearer to the
/// origin than it has been taken before.
proof fn lemma_levels_nearer(
    maze: &Maze,
    done: Seq<Coordinates>,
    explored: Set<Coordinates>,
    queue: Seq<Coordinates>,
    levels: Map<Coordinates, nat>,
    top: Coordinates,
)
    requires
        searching(maze, done, explored, queue, Some(top)),
        leveled(maze, done, explored, queue, levels, levels[top]),
        explored.contains(top),
    ensures
        nearer_found(maze, done.to_set(), top),
{
    let front = levels[top];
    assert forall|other: Coordinates, steps: nat|
        #![trigger maze.walk_within(origin(), other, steps)]
        maze.walk_within(origin(), other, steps) && !maze.walk_within(
            origin(),
            top,
            steps,
        ) implies done.to_set().contains(other) by {
        assert(levels.contains_key(top));
        if steps >= front {
            maze.lemma_walk_longer(origin(), top, front, steps);
        }
        assert(explored.contains(other));
        assert(levels[other] <= steps);
        if queue.contains(other) {
            let i = choose|i: int| 0 <= i < queue.len() && queue[i] == other;
            assert(front <= levels[queue[i]]);
        }
        assert(done.contains(other));
    }
}

/// A strategy that decides whether the goal of a grid can be reached from its origin.
pub trait Solver {
    /// The grid that the solver works on.
    spec fn grid(&self) -> Maze;

    /// Whether the solver is fit to run: its grid is well formed.
    spec fn ready(&self) -> bool;

    /// Tells whether a walk leads from the origin to the goal, and shows the
    /// progress of the search on the channel where `visualize` asks for it.
    fn solve(&mut self, visualize: bool, tx: Sender<CoordinateSet>) -> (solved: bool)
        requires
            old(self).ready(),
        ensures
            final(self).ready(),
            final(self).grid() == old(self).grid(),
            solved == old(self).grid().reachable(origin(), old(self).grid().goal()),
    ;
}

/// A breadth-first solver over a grid that it only reads.
pub struct BFS<'a> {
    maze: &'a Maze,
    relevant: CoordinateSet,
    emitted: Ghost<Seq<Set<Coordinates>>>,
}

impl<'a> BFS<'a> {
    /// The cells that the last search took from its queue.
    pub closed spec fn visited(&self) -> CoordinateSet {
        self.relevant
    }

    /// Every snapshot that this solver has handed to a channel so far, in the
    /// order in which it did.
    pub closed spec fn emitted(&self) -> Seq<Set<Coordinates>> {
        self.emitted@
    }

    /// What a search has added to the snapshots when it has taken the cells
    /// `done` from its queue, in this order. Without streaming it has added
    /// nothing. With streaming it has added one snapshot for each cell of
    /// `done`: the cells taken from the queue up to and with that one.
    pub open spec fn shown(
        visualize: bool,
        before: Seq<Set<Coordinates>>,
        after: Seq<Set<Coordinates>>,
        done: Seq<Coordinates>,
    ) -> bool {
        let added = after.len() - before.len();
        &&& before.len() <= after.len()
        &&& after.subrange(0, before.len() as int) == before
        &&& added == if visualize {
            done.len()
        } else {
            0
        }
        &&& forall|k: int|
            before.len() <= k < after.len() ==> #[trigger] after[k] == done.subrange(
                0,
                k - before.len() + 1,
            ).to_set()
    }

    proof fn lemma_shown_more(
        visualize: bool,
        before: Seq<Set<Coordinates>>,
        after: Seq<Set<Coordinates>>,
        done: Seq<Coordinates>,
        top: Coordinates,
    )
        requires
            Self::shown(visualize, before, after, done),
        ensures
            visualize ==> Self::shown(
                visualize,
                before,
                after.push(done.push(top).to_set()),
                done.push(top),
            ),
            !visualize ==> Self::shown(visualize, before, after, done.push(top)),
    {
        if visualize {
            let more = done.push(top);
            let longer = after.push(more.to_set());
            assert(longer.subrange(0, before.len() as int) =~= after.subrange(
                0,
                before.len() as int,
            ));
            assert forall|k: int| before.len() <= k < longer.len() implies #[trigger] longer[k]
                == more.subrange(0, k - before.len() + 1).to_set() by {
                let i = k - before.len();
                if i < done.len() {
                    assert(longer[k] == after[k]);
                    assert(more.subrange(0, i + 1) =~= done.subrange(0, i + 1));
                } else {
                    assert(more.subrange(0, i + 1) =~= more);
                }
            }
        }
    }

    /// Hands a snapshot of the visited cells to the channel and notes it
    /// among the emitted ones. A snapshot that nobody is there to take is
    /// lost, and the search goes on.
    fn emit(&mut self, tx: &Sender<CoordinateSet>)
        ensures
            final(self).maze == old(self).maze,
            final(self).relevant == old(self).relevant,
            final(self).emitted() == old(self).emitted().push(old(self).visited()@),
    {
        let snapshot = self.relevant.clone();
        let _ = offer(tx, snapshot);
        proof {
            self.emitted@ = self.emitted@.push(self.relevant@);
        }
    }

    /// A solver for the given grid that has searched nothing yet.
    pub fn new(maze: &'a Maze) -> (solver: Self)
        requires
            maze.wf(),
        ensures
            solver.ready(),
            solver.grid() == *maze,
            solver.visited()@ == Set::<Coordinates>::empty(),
            solver.emitted() == Seq::<Set<Coordinates>>::empty(),
    {
        Self { maze, relevant: CoordinateSet::new(), emitted: Ghost(Seq::empty()) }
    }

    /// The cells that the last search took from its queue, in that order.
    pub fn relevant(&self) -> (relevant: &CoordinateSet)
        ensures
            *relevant == self.visited(),
    {
        &self.relevant
    }
}

impl<'a> Solver for BFS<'a> {
    closed spec fn grid(&self) -> Maze {
        *self.maze
    }

    closed spec fn ready(&self) -> bool {
        self.maze.wf()
    }

    /// Breadth-first search from the origin. The cells taken from the queue
    /// are kept as the visited cells: they can all be reached from the origin;
    /// where the goal is found it is the last of them, and where it is not
    /// they are all the cells that can be reached.
    fn solve(&mut self, visualize: bool, tx: Sender<CoordinateSet>) -> (solved: bool)
        ensures
            by_distance(&old(self).grid(), final(self).visited().order()),
            solved ==> nearer_found(
                &old(self).grid(),
                final(self).visited()@,
                old(self).grid().goal(),
            ),
            final(self).visited()@.subset_of(old(self).grid().reachable_set(origin())),
            final(self).visited().order().len() > 0,
            final(self).visited().order()[0] == origin(),
            final(self).visited().order().no_duplicates(),
            solved ==> final(self).visited().order().last() == old(self).grid().goal(),
            !solved ==> final(self).visited()@ == old(self).grid().reachable_set(origin()),
            Self::shown(
                visualize,
                old(self).emitted(),
                final(self).emitted(),
                final(self).visited().order(),
            ),
    {
        let ghost before = self.emitted@;
        let root = Coordinates::new(0, 0);
        let (width, height) = self.maze.dimensions();
        let end = Coordinates::new(height - 1, width - 1);
        self.relevant = CoordinateSet::new();
        let mut queue: VecDeque<Coordinates> = VecDeque::new();
        let mut explored = CoordinateSet::new();
        queue.push_back(root);
        explored.insert(root);
        let ghost total = self.maze.cols() * self.maze.rows();
        let ghost mut levels: Map<Coordinates, nat> = map![origin() => 0nat];
        let ghost mut front: nat = 0;
        proof {
            lemma_levels_begin(self.maze);
            lemma_search_begins(self.maze);
            assert(explored@ =~= set![origin()]);
            assert(queue@ =~= seq![origin()]);
            assert(before.subrange(0, before.len() as int) =~= before);
            lemma_search_bounded(
                self.maze,
                self.relevant.order(),
                explored@,
                queue@,
                None::<Coordinates>,
            );
        }
        while queue.len() > 0
            invariant
                self.maze == old(self).maze,
                before == old(self).emitted(),
                end == self.maze.goal(),
                total == self.maze.cols() * self.maze.rows(),
                searching(self.maze, self.relevant.order(), explored@, queue@, None::<Coordinates>),
                leveled(self.maze, self.relevant.order(), explored@, queue@, levels, front),
                self.relevant.order().no_duplicates(),
                explored@.len() <= total,
                queue@.len() + self.relevant.order().len() > 0,
                self.relevant.order().len() > 0 ==> self.relevant.order()[0] == origin(),
                self.relevant.order().len() == 0 ==> queue@[0] == origin(),
                Self::shown(visualize, before, self.emitted@, self.relevant.order()),
            decreases 2 * (total - explored@.len()) + queue@.len(),
        {
            let ghost done = self.relevant.order();
            let ghost waiting = queue@;
            let ghost log = self.emitted@;
            let ghost measure = 2 * (total - explored@.len()) + queue@.len();
            proof {
                lemma_search_bounded(self.maze, done, explored@, waiting, None::<Coordinates>);
                lemma_search_visits(self.maze, done, explored@, waiting);
                lemma_levels_visit(self.maze, done, explored@, waiting, levels, front);
                front = levels[waiting[0]];
                self.relevant.lemma_order();
            }
            let top = queue.pop_front().unwrap();
            let fresh = self.relevant.insert(top);
            assert(fresh);
            proof {
                Self::lemma_shown_more(visualize, before, log, done, top);
                self.relevant.lemma_order();
            }
            if visualize {
                self.emit(&tx);
            }
            if top.row == end.row && top.col == end.col {
                proof {
                    lemma_levels_order(
                        self.maze,
                        self.relevant.order(),
                        explored@,
                        queue@,
                        Some(top),
                        levels,
                        front,
                    );
                    lemma_levels_nearer(
                        self.maze,
                        self.relevant.order(),
                        explored@,
                        queue@,
                        levels,
                        top,
                    );
                    lemma_search_reaches(
                        self.maze,
                        self.relevant.order(),
                        explored@,
                        queue@,
                        Some(top),
                    );
                }
                return true;
            }
            let cell = *self.maze.get(top).unwrap();
            let mut k: usize = 0;
            while k < 4
                invariant
                    k <= 4,
                    self.maze == old(self).maze,
                    total == self.maze.cols() * self.maze.rows(),
                    cell == self.maze.cell(top),
                    self.maze.in_bounds(top),
                    explored@.contains(top),
                    searching(self.maze, self.relevant.order(), explored@, queue@, Some(top)),
                    leveled(self.maze, self.relevant.order(), explored@, queue@, levels, front),
                    levels[top] == front,
                    expanded_upto(self.maze, explored@, top, k as int),
                    explored@.len() <= total,
                    2 * (total - explored@.len()) + queue@.len() < measure,
                decreases 4 - k,
            {
                let direction = DIRECTIONS[k];
                let w = top + direction.step();
                let ghost known = explored@;
                if self.maze.within_bounds(w) && !cell.wall(&direction) {
                    let ghost waiting = queue@;
                    let took_place = explored.insert(w);
                    assert(!took_place ==> explored@ =~= known);
                    if took_place {
                        queue.push_back(w);
                        proof {
                            lemma_levels_discover(
                                self.maze,
                                self.relevant.order(),
                                known,
                                waiting,
                                levels,
                                front,
                                top,
                                direction,
                            );
                            levels = levels.insert(w, front + 1);
                            lemma_search_discovers(
                                self.maze,
                                self.relevant.order(),
                                known,
                                waiting,
                                top,
                                direction,
                            );
                            lemma_search_bounded(
                                self.maze,
                                self.relevant.order(),
                                explored@,
                                queue@,
                                Some(top),
                            );
                        }
                    }
                }
                proof {
                    assert forall|j: int|
                        #![trigger DIRECTIONS[j]]
                        0 <= j < k + 1 && self.maze.passage(
                            top,
                            DIRECTIONS[j],
                        ) implies explored@.contains(Maze::neighbor(top, DIRECTIONS[j])) by {
                        if j < k {
                            assert(known.contains(Maze::neighbor(top, DIRECTIONS[j])));
                        }
                    }
                }
                k += 1;
            }
            proof {
                lemma_search_settles(self.maze, self.relevant.order(), explored@, queue@, top);
            }
        }
        proof {
            assert(queue@ =~= Seq::<Coordinates>::empty());
            lemma_levels_order(
                self.maze,
                self.relevant.order(),
                explored@,
                queue@,
                None::<Coordinates>,
                levels,
                front,
            );
            lemma_search_ends(self.maze, self.relevant.order(), explored@);
            self.relevant.lemma_order();
        }
        false
    }
}

} // verus!
