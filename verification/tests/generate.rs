use std::sync::mpsc::channel;

use ariadne::bfs::{Solver, BFS};
use ariadne::cell::Cell;
use ariadne::coordinate::Coordinates;
use ariadne::coordinate_set::CoordinateSet;
use ariadne::dfs::DFSOptions;
use ariadne::direction::Direction;
use ariadne::maze::{Maze, MazeError};

fn sides() -> [Direction; 4] {
    [Direction::North, Direction::East, Direction::South, Direction::West]
}

fn generate(width: usize, height: usize) -> Maze {
    let (tx, _rx) = channel::<Maze>();
    DFSOptions::new(width, height, false, tx).create().unwrap()
}

fn reachable_from_origin(maze: &Maze) -> usize {
    let mut seen = vec![false; maze.width() * maze.height()];
    let mut stack = vec![Coordinates::new(0, 0)];
    seen[0] = true;
    let mut count = 0;
    while let Some(place) = stack.pop() {
        count += 1;
        let cell = maze.get(place).unwrap();
        for side in sides() {
            let next = place + side.step();
            if maze.within_bounds(next) && !cell.wall(&side) {
                let index = next.row * maze.width() + next.col;
                if !seen[index] {
                    seen[index] = true;
                    stack.push(next);
                }
            }
        }
    }
    count
}

fn open_flags(maze: &Maze) -> usize {
    let mut count = 0;
    for cell in maze.cells() {
        for side in sides() {
            if !cell.wall(&side) {
                count += 1;
            }
        }
    }
    count
}

fn rim_is_closed(maze: &Maze) -> bool {
    for cell in maze.cells() {
        for side in sides() {
            if !maze.within_bounds(cell.coordinates() + side.step()) && !cell.wall(&side) {
                return false;
            }
        }
    }
    true
}

fn walls_are_symmetric(maze: &Maze) -> bool {
    for cell in maze.cells() {
        for side in sides() {
            if let Some(other) = maze.get(cell.coordinates() + side.step()) {
                if cell.wall(&side) != other.wall(&side.reverse()) {
                    return false;
                }
            }
        }
    }
    true
}

fn solve(maze: &Maze) -> bool {
    let (tx, _rx) = channel::<CoordinateSet>();
    BFS::new(maze).solve(false, tx)
}

#[test]
fn generated_grid_has_the_asked_size() {
    let maze = generate(7, 4);
    assert_eq!(maze.dimensions(), (7, 4));
    assert_eq!(maze.cells().len(), 28);
    for (index, cell) in maze.cells().iter().enumerate() {
        assert_eq!(cell.coordinates(), Coordinates::new(index / 7, index % 7));
    }
}

#[test]
fn generated_grid_is_connected() {
    for (width, height) in [(1usize, 1usize), (1, 5), (6, 1), (2, 2), (5, 4), (9, 12)] {
        for _ in 0..5 {
            let maze = generate(width, height);
            assert_eq!(reachable_from_origin(&maze), width * height);
        }
    }
}

#[test]
fn generated_grid_is_solved() {
    for (width, height) in [(1usize, 1usize), (1, 5), (6, 1), (2, 2), (5, 4), (9, 12), (3, 8)] {
        for _ in 0..5 {
            let maze = generate(width, height);
            assert!(solve(&maze));
        }
    }
}

#[test]
fn generated_grid_has_one_open_wall_less_than_cells() {
    for (width, height) in [(1usize, 1usize), (1, 5), (6, 1), (2, 2), (5, 4), (9, 12)] {
        for _ in 0..5 {
            let maze = generate(width, height);
            assert_eq!(maze.open_walls(), width * height - 1);
            assert_eq!(open_flags(&maze), 2 * (width * height - 1));
        }
    }
}

#[test]
fn generated_grid_has_symmetric_walls_and_a_closed_rim() {
    for (width, height) in [(1usize, 1usize), (4, 4), (7, 3), (3, 10)] {
        for _ in 0..5 {
            let maze = generate(width, height);
            assert!(walls_are_symmetric(&maze));
            assert!(rim_is_closed(&maze));
        }
    }
}

#[test]
fn single_cell_grid_keeps_its_walls() {
    let maze = generate(1, 1);
    assert_eq!(maze.open_walls(), 0);
    assert_eq!(maze.cells()[0].walls(), [true, true, true, true]);
}

#[test]
fn generation_rejects_zero_dimensions() {
    let (tx, rx) = channel::<Maze>();
    assert_eq!(
        DFSOptions::new(0, 4, true, tx.clone()).create().err(),
        Some(MazeError::InvalidDimensions)
    );
    assert_eq!(
        DFSOptions::new(4, 0, true, tx.clone()).create().err(),
        Some(MazeError::InvalidDimensions)
    );
    assert_eq!(
        DFSOptions::new(usize::MAX, usize::MAX, true, tx).create().err(),
        Some(MazeError::InvalidDimensions)
    );
    assert!(rx.try_recv().is_err());
}

#[test]
fn streamed_generation_of_three_by_three_counts_up_to_eight() {
    let (tx, rx) = channel::<Maze>();
    let maze = DFSOptions::new(3, 3, true, tx).create().unwrap();
    let snapshots: Vec<Maze> = rx.iter().collect();
    assert_eq!(snapshots.len(), 8);
    let mut previous = 0;
    for (index, snapshot) in snapshots.iter().enumerate() {
        let count = snapshot.open_walls();
        assert!(count >= previous);
        assert_eq!(count, index + 1);
        previous = count;
    }
    assert_eq!(snapshots.last().unwrap().open_walls(), 8);
    assert_eq!(snapshots.last().unwrap().cells(), maze.cells());
}

#[test]
fn streamed_snapshots_only_lose_walls() {
    let (tx, rx) = channel::<Maze>();
    let maze = DFSOptions::new(5, 4, true, tx).create().unwrap();
    let snapshots: Vec<Maze> = rx.iter().collect();
    assert_eq!(snapshots.len(), 19);
    for pair in snapshots.windows(2) {
        assert_eq!(pair[0].dimensions(), pair[1].dimensions());
        for (before, after) in pair[0].cells().iter().zip(pair[1].cells().iter()) {
            for side in sides() {
                if !before.wall(&side) {
                    assert!(!after.wall(&side));
                }
            }
        }
        assert!(walls_are_symmetric(&pair[1]));
        assert!(rim_is_closed(&pair[1]));
    }
    assert_eq!(snapshots.last().unwrap().string(), maze.string());
}

#[test]
fn silent_generation_sends_nothing() {
    let (tx, rx) = channel::<Maze>();
    let maze = DFSOptions::new(4, 4, false, tx).create().unwrap();
    assert_eq!(rx.iter().count(), 0);
    assert_eq!(maze.open_walls(), 15);
}

#[test]
fn generation_survives_a_receiver_that_left() {
    let (tx, rx) = channel::<Maze>();
    drop(rx);
    let maze = DFSOptions::new(6, 5, true, tx).create().unwrap();
    assert_eq!(maze.open_walls(), 29);
    assert_eq!(reachable_from_origin(&maze), 30);
    assert!(walls_are_symmetric(&maze));
    assert!(solve(&maze));
}

#[test]
fn generation_survives_a_receiver_that_stops_part_way() {
    let (tx, rx) = channel::<Maze>();
    let maze = DFSOptions::new(8, 8, true, tx).create().unwrap();
    let mut taken = 0;
    for snapshot in rx.iter() {
        taken += 1;
        assert_eq!(snapshot.open_walls(), taken);
        if taken == 5 {
            break;
        }
    }
    drop(rx);
    assert_eq!(taken, 5);
    assert_eq!(maze.open_walls(), 63);
    assert_eq!(reachable_from_origin(&maze), 64);
    assert!(walls_are_symmetric(&maze));
    assert!(rim_is_closed(&maze));
}

#[test]
fn options_can_carve_more_than_once() {
    let (tx, rx) = channel::<Maze>();
    let mut options = DFSOptions::new(2, 3, true, tx);
    let first = options.create().unwrap();
    let second = options.create().unwrap();
    drop(options);
    assert_eq!(first.open_walls(), 5);
    assert_eq!(second.open_walls(), 5);
    let counts: Vec<usize> = rx.iter().map(|snapshot| snapshot.open_walls()).collect();
    assert_eq!(counts, vec![1, 2, 3, 4, 5, 1, 2, 3, 4, 5]);
}

#[test]
fn unvisited_neighbors_are_listed_in_wall_order() {
    let maze = Maze::new(3, 3).unwrap();
    let mut visited = CoordinateSet::new();
    let centre = *maze.get(Coordinates::new(1, 1)).unwrap();
    assert_eq!(
        centre.unvisited_neighbors(&maze, &visited),
        vec![Direction::North, Direction::East, Direction::South, Direction::West]
    );
    visited.insert(Coordinates::new(1, 2));
    visited.insert(Coordinates::new(0, 1));
    assert_eq!(
        centre.unvisited_neighbors(&maze, &visited),
        vec![Direction::South, Direction::West]
    );
    let corner = *maze.get(Coordinates::new(0, 0)).unwrap();
    assert_eq!(corner.unvisited_neighbors(&maze, &visited), vec![Direction::South]);
    let last = *maze.get(Coordinates::new(2, 2)).unwrap();
    assert_eq!(
        last.unvisited_neighbors(&maze, &visited),
        vec![Direction::West]
    );
}

#[test]
fn has_unvisited_neighbor_looks_at_all_four_sides() {
    let maze = Maze::new(2, 2).unwrap();
    let mut visited = CoordinateSet::new();
    let corner = *maze.get(Coordinates::new(0, 0)).unwrap();
    assert!(corner.has_unvisited_neighbor(&maze, &visited));
    visited.insert(Coordinates::new(0, 1));
    assert!(corner.has_unvisited_neighbor(&maze, &visited));
    visited.insert(Coordinates::new(1, 0));
    assert!(!corner.has_unvisited_neighbor(&maze, &visited));
    let single = Maze::new(1, 1).unwrap();
    let only = *single.get(Coordinates::new(0, 0)).unwrap();
    assert!(!only.has_unvisited_neighbor(&single, &CoordinateSet::new()));
}

#[test]
fn has_unvisited_neighbor_goes_by_the_cell_own_place() {
    let maze = Maze::new(3, 3).unwrap();
    let mut visited = CoordinateSet::new();
    visited.insert(Coordinates::new(0, 1));
    visited.insert(Coordinates::new(1, 0));
    let stranger = Cell::new(0, 0);
    assert!(!stranger.has_unvisited_neighbor(&maze, &visited));
    let far = Cell::new(7, 7);
    assert!(!far.has_unvisited_neighbor(&maze, &CoordinateSet::new()));
    let beside = Cell::new(3, 1);
    assert!(beside.has_unvisited_neighbor(&maze, &CoordinateSet::new()));
    assert_eq!(
        beside.unvisited_neighbors(&maze, &CoordinateSet::new()),
        vec![Direction::North]
    );
}

#[test]
fn nth_unvisited_neighbor_picks_by_place() {
    let maze = Maze::new(3, 3).unwrap();
    let mut visited = CoordinateSet::new();
    visited.insert(Coordinates::new(1, 2));
    let centre = *maze.get(Coordinates::new(1, 1)).unwrap();
    assert_eq!(centre.nth_unvisited_neighbor(&maze, &visited, 0), Some(Direction::North));
    assert_eq!(centre.nth_unvisited_neighbor(&maze, &visited, 1), Some(Direction::South));
    assert_eq!(centre.nth_unvisited_neighbor(&maze, &visited, 2), Some(Direction::West));
    assert_eq!(centre.nth_unvisited_neighbor(&maze, &visited, 3), None);
    assert_eq!(centre.nth_unvisited_neighbor(&maze, &visited, usize::MAX), None);
}

#[test]
fn get_unvisited_neighbor_returns_an_unvisited_side() {
    let maze = Maze::new(3, 3).unwrap();
    let mut visited = CoordinateSet::new();
    visited.insert(Coordinates::new(0, 1));
    visited.insert(Coordinates::new(1, 0));
    let centre = *maze.get(Coordinates::new(1, 1)).unwrap();
    let mut east = 0;
    let mut south = 0;
    for _ in 0..200 {
        match centre.get_unvisited_neighbor(&maze, &visited) {
            Direction::East => east += 1,
            Direction::South => south += 1,
            other => panic!("{:?} leads to a visited cell", other),
        }
    }
    assert_eq!(east + south, 200);
    assert!(east > 0);
    assert!(south > 0);
}

#[test]
fn get_unvisited_neighbor_with_one_choice() {
    let maze = Maze::new(2, 1).unwrap();
    let visited = CoordinateSet::new();
    let left = *maze.get(Coordinates::new(0, 0)).unwrap();
    let right = *maze.get(Coordinates::new(0, 1)).unwrap();
    for _ in 0..20 {
        assert_eq!(left.get_unvisited_neighbor(&maze, &visited), Direction::East);
        assert_eq!(right.get_unvisited_neighbor(&maze, &visited), Direction::West);
    }
}

#[test]
fn large_grid_is_generated_and_solved() {
    let maze = generate(60, 40);
    assert_eq!(maze.open_walls(), 2399);
    assert_eq!(reachable_from_origin(&maze), 2400);
    assert!(walls_are_symmetric(&maze));
    assert!(rim_is_closed(&maze));
    let (tx, _rx) = channel::<CoordinateSet>();
    let mut solver = BFS::new(&maze);
    assert!(solver.solve(false, tx));
    let order = solver.relevant().to_vec();
    assert_eq!(order.first(), Some(&Coordinates::new(0, 0)));
    assert_eq!(order.last(), Some(&Coordinates::new(39, 59)));
}

#[test]
fn generation_makes_different_grids() {
    let first = generate(8, 8).string();
    let mut differs = false;
    for _ in 0..20 {
        if generate(8, 8).string() != first {
            differs = true;
        }
    }
    assert!(differs);
}
