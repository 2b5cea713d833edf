use std::sync::mpsc::channel;

use ariadne::bfs::{Solver, BFS};
use ariadne::coordinate::Coordinates;
use ariadne::coordinate_set::CoordinateSet;
use ariadne::direction::Direction;
use ariadne::maze::Maze;

fn at(row: usize, col: usize) -> Coordinates {
    Coordinates::new(row, col)
}

#[test]
fn single_cell_is_solved_without_expansion() {
    let maze = Maze::new(1, 1).unwrap();
    let (tx, rx) = channel::<CoordinateSet>();
    let mut solver = BFS::new(&maze);
    assert!(solver.solve(true, tx));
    assert_eq!(solver.relevant().to_vec(), vec![at(0, 0)]);
    let snapshots: Vec<CoordinateSet> = rx.iter().collect();
    assert_eq!(snapshots.len(), 1);
    assert_eq!(snapshots[0].to_vec(), vec![at(0, 0)]);
}

#[test]
fn closed_grid_is_not_solved() {
    for (width, height) in [(2usize, 1usize), (1, 2), (2, 2), (5, 3)] {
        let maze = Maze::new(width, height).unwrap();
        let (tx, _rx) = channel::<CoordinateSet>();
        let mut solver = BFS::new(&maze);
        assert!(!solver.solve(false, tx));
        assert_eq!(solver.relevant().to_vec(), vec![at(0, 0)]);
        assert_eq!(solver.relevant().len(), 1);
    }
}

#[test]
fn walled_off_goal_is_not_solved() {
    let mut maze = Maze::new(3, 3).unwrap();
    maze.remove_wall(at(0, 0), Direction::East);
    maze.remove_wall(at(0, 1), Direction::East);
    maze.remove_wall(at(0, 0), Direction::South);
    maze.remove_wall(at(1, 0), Direction::South);
    maze.remove_wall(at(1, 0), Direction::East);
    let (tx, _rx) = channel::<CoordinateSet>();
    let mut solver = BFS::new(&maze);
    assert!(!solver.solve(false, tx));
    let mut found = solver.relevant().to_vec();
    found.sort_by_key(|place| (place.row, place.col));
    assert_eq!(found, vec![at(0, 0), at(0, 1), at(0, 2), at(1, 0), at(1, 1), at(2, 0)]);
}

#[test]
fn goal_is_the_last_cell_of_the_last_row() {
    let mut wide = Maze::new(3, 2).unwrap();
    wide.remove_wall(at(0, 0), Direction::East);
    wide.remove_wall(at(0, 1), Direction::South);
    let (tx, _rx) = channel::<CoordinateSet>();
    let mut solver = BFS::new(&wide);
    assert!(!solver.solve(false, tx));
    assert!(solver.relevant().contains(&at(1, 1)));
    wide.remove_wall(at(1, 1), Direction::East);
    let (tx, _rx) = channel::<CoordinateSet>();
    let mut solver = BFS::new(&wide);
    assert!(solver.solve(false, tx));
    assert_eq!(solver.relevant().to_vec().last(), Some(&at(1, 2)));

    let mut tall = Maze::new(2, 3).unwrap();
    tall.remove_wall(at(0, 0), Direction::South);
    tall.remove_wall(at(1, 0), Direction::East);
    let (tx, _rx) = channel::<CoordinateSet>();
    let mut solver = BFS::new(&tall);
    assert!(!solver.solve(false, tx));
    assert!(solver.relevant().contains(&at(1, 1)));
    tall.remove_wall(at(1, 1), Direction::South);
    let (tx, _rx) = channel::<CoordinateSet>();
    let mut solver = BFS::new(&tall);
    assert!(solver.solve(false, tx));
    assert_eq!(solver.relevant().to_vec().last(), Some(&at(2, 1)));
}

#[test]
fn corridor_is_visited_in_order() {
    let mut maze = Maze::new(4, 1).unwrap();
    maze.remove_wall(at(0, 0), Direction::East);
    maze.remove_wall(at(0, 1), Direction::East);
    maze.remove_wall(at(0, 2), Direction::East);
    let (tx, rx) = channel::<CoordinateSet>();
    let mut solver = BFS::new(&maze);
    assert!(solver.solve(true, tx));
    assert_eq!(solver.relevant().to_vec(), vec![at(0, 0), at(0, 1), at(0, 2), at(0, 3)]);
    let snapshots: Vec<Vec<Coordinates>> = rx.iter().map(|set| set.to_vec()).collect();
    assert_eq!(
        snapshots,
        vec![
            vec![at(0, 0)],
            vec![at(0, 0), at(0, 1)],
            vec![at(0, 0), at(0, 1), at(0, 2)],
            vec![at(0, 0), at(0, 1), at(0, 2), at(0, 3)],
        ]
    );
}

#[test]
fn open_grid_is_visited_by_distance() {
    let mut maze = Maze::new(3, 3).unwrap();
    for row in 0..3 {
        for col in 0..3 {
            if col + 1 < 3 {
                maze.remove_wall(at(row, col), Direction::East);
            }
            if row + 1 < 3 {
                maze.remove_wall(at(row, col), Direction::South);
            }
        }
    }
    let (tx, _rx) = channel::<CoordinateSet>();
    let mut solver = BFS::new(&maze);
    assert!(solver.solve(false, tx));
    let order = solver.relevant().to_vec();
    assert_eq!(
        order,
        vec![
            at(0, 0),
            at(1, 0),
            at(0, 1),
            at(2, 0),
            at(1, 1),
            at(0, 2),
            at(2, 1),
            at(1, 2),
            at(2, 2),
        ]
    );
    let distances: Vec<usize> = order.iter().map(|place| place.row + place.col).collect();
    for pair in distances.windows(2) {
        assert!(pair[0] <= pair[1]);
    }
}

#[test]
fn search_stops_at_the_goal() {
    let mut maze = Maze::new(2, 2).unwrap();
    maze.remove_wall(at(0, 0), Direction::South);
    maze.remove_wall(at(1, 0), Direction::East);
    maze.remove_wall(at(1, 1), Direction::North);
    let (tx, rx) = channel::<CoordinateSet>();
    let mut solver = BFS::new(&maze);
    assert!(solver.solve(true, tx));
    assert_eq!(solver.relevant().to_vec(), vec![at(0, 0), at(1, 0), at(1, 1)]);
    assert!(!solver.relevant().contains(&at(0, 1)));
    assert_eq!(rx.iter().count(), 3);
}

#[test]
fn silent_search_sends_nothing() {
    let mut maze = Maze::new(2, 1).unwrap();
    maze.remove_wall(at(0, 0), Direction::East);
    let (tx, rx) = channel::<CoordinateSet>();
    let mut solver = BFS::new(&maze);
    assert!(solver.solve(false, tx));
    assert_eq!(rx.iter().count(), 0);
}

#[test]
fn search_survives_a_receiver_that_left() {
    let mut maze = Maze::new(3, 1).unwrap();
    maze.remove_wall(at(0, 0), Direction::East);
    maze.remove_wall(at(0, 1), Direction::East);
    let (tx, rx) = channel::<CoordinateSet>();
    drop(rx);
    let mut solver = BFS::new(&maze);
    assert!(solver.solve(true, tx));
    assert_eq!(solver.relevant().len(), 3);
}

#[test]
fn snapshots_grow_by_one_cell() {
    let mut maze = Maze::new(3, 3).unwrap();
    maze.remove_wall(at(0, 0), Direction::East);
    maze.remove_wall(at(0, 0), Direction::South);
    maze.remove_wall(at(1, 0), Direction::East);
    maze.remove_wall(at(1, 1), Direction::East);
    maze.remove_wall(at(1, 2), Direction::South);
    let (tx, rx) = channel::<CoordinateSet>();
    let mut solver = BFS::new(&maze);
    assert!(solver.solve(true, tx));
    let order = solver.relevant().to_vec();
    let snapshots: Vec<Vec<Coordinates>> = rx.iter().map(|set| set.to_vec()).collect();
    assert_eq!(snapshots.len(), order.len());
    for (index, snapshot) in snapshots.iter().enumerate() {
        assert_eq!(snapshot.as_slice(), &order[..index + 1]);
    }
    assert_eq!(order.first(), Some(&at(0, 0)));
    assert_eq!(order.last(), Some(&at(2, 2)));
}

#[test]
fn solving_twice_gives_the_same_answer() {
    let mut maze = Maze::new(2, 2).unwrap();
    maze.remove_wall(at(0, 0), Direction::East);
    maze.remove_wall(at(0, 1), Direction::South);
    let mut solver = BFS::new(&maze);
    let (tx, _rx) = channel::<CoordinateSet>();
    assert!(solver.solve(false, tx));
    let first = solver.relevant().to_vec();
    let (tx, _rx) = channel::<CoordinateSet>();
    assert!(solver.solve(false, tx));
    assert_eq!(solver.relevant().to_vec(), first);
    assert_eq!(first, vec![at(0, 0), at(0, 1), at(1, 1)]);
}

#[test]
fn new_solver_has_visited_nothing() {
    let maze = Maze::new(2, 2).unwrap();
    let solver = BFS::new(&maze);
    assert!(solver.relevant().is_empty());
}
