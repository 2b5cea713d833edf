use std::sync::mpsc::channel;

use ariadne::coordinate::Coordinates;
use ariadne::dfs::DFSOptions;
use ariadne::direction::Direction;
use ariadne::maze::{Maze, MazeError};
use ariadne::record::{CellRecord, MazeRecord};

fn closed_record(width: usize, height: usize) -> MazeRecord {
    let mut cells = Vec::new();
    for row in 0..height {
        for col in 0..width {
            cells.push(CellRecord {
                walls: vec![true, true, true, true],
                coordinates: Coordinates::new(row, col),
            });
        }
    }
    MazeRecord { width, height, cells }
}

#[test]
fn export_writes_cells_row_after_row() {
    let mut maze = Maze::new(2, 2).unwrap();
    maze.remove_wall(Coordinates::new(0, 0), Direction::East);
    let record = maze.export();
    assert_eq!(record.width, 2);
    assert_eq!(record.height, 2);
    assert_eq!(
        record.cells,
        vec![
            CellRecord { walls: vec![true, false, true, true], coordinates: Coordinates::new(0, 0) },
            CellRecord { walls: vec![true, true, true, false], coordinates: Coordinates::new(0, 1) },
            CellRecord { walls: vec![true, true, true, true], coordinates: Coordinates::new(1, 0) },
            CellRecord { walls: vec![true, true, true, true], coordinates: Coordinates::new(1, 1) },
        ]
    );
}

#[test]
fn load_reads_what_export_wrote() {
    let mut maze = Maze::new(3, 2).unwrap();
    maze.remove_wall(Coordinates::new(0, 0), Direction::South);
    maze.remove_wall(Coordinates::new(1, 0), Direction::East);
    maze.remove_wall(Coordinates::new(1, 1), Direction::North);
    let loaded = Maze::load(&maze.export()).unwrap();
    assert_eq!(loaded.dimensions(), maze.dimensions());
    assert_eq!(loaded.cells(), maze.cells());
    assert_eq!(loaded.string(), maze.string());
    assert_eq!(loaded.export(), maze.export());
}

#[test]
fn generated_grids_survive_the_round_trip() {
    for (width, height) in [(1usize, 1usize), (4, 7), (10, 3)] {
        let (tx, _rx) = channel::<Maze>();
        let maze = DFSOptions::new(width, height, false, tx).create().unwrap();
        let loaded = Maze::load(&maze.export()).unwrap();
        assert_eq!(loaded.dimensions(), (width, height));
        assert_eq!(loaded.cells(), maze.cells());
        assert_eq!(loaded.open_walls(), width * height - 1);
    }
}

#[test]
fn load_accepts_a_closed_record() {
    let maze = Maze::load(&closed_record(3, 4)).unwrap();
    assert_eq!(maze.dimensions(), (3, 4));
    assert_eq!(maze.open_walls(), 0);
    assert_eq!(maze.cells(), Maze::new(3, 4).unwrap().cells());
}

#[test]
fn load_rejects_a_wrong_cell_count() {
    let mut record = closed_record(2, 2);
    record.cells.pop();
    assert_eq!(Maze::load(&record).err(), Some(MazeError::MalformedPersistedGrid));
    let mut record = closed_record(2, 2);
    record.cells.push(CellRecord {
        walls: vec![true, true, true, true],
        coordinates: Coordinates::new(2, 0),
    });
    assert_eq!(Maze::load(&record).err(), Some(MazeError::MalformedPersistedGrid));
    let mut record = closed_record(2, 2);
    record.width = 3;
    assert_eq!(Maze::load(&record).err(), Some(MazeError::MalformedPersistedGrid));
    let mut record = closed_record(2, 2);
    record.cells.clear();
    assert_eq!(Maze::load(&record).err(), Some(MazeError::MalformedPersistedGrid));
}

#[test]
fn load_rejects_invalid_dimensions() {
    let record = MazeRecord { width: 0, height: 0, cells: Vec::new() };
    assert_eq!(Maze::load(&record).err(), Some(MazeError::InvalidDimensions));
    let record = MazeRecord { width: 0, height: 3, cells: Vec::new() };
    assert_eq!(Maze::load(&record).err(), Some(MazeError::InvalidDimensions));
    let mut record = closed_record(2, 2);
    record.height = 0;
    assert_eq!(Maze::load(&record).err(), Some(MazeError::InvalidDimensions));
    let record = MazeRecord { width: usize::MAX, height: usize::MAX, cells: Vec::new() };
    assert_eq!(Maze::load(&record).err(), Some(MazeError::InvalidDimensions));
}

#[test]
fn load_rejects_a_cell_without_four_walls() {
    let mut record = closed_record(2, 2);
    record.cells[3].walls.pop();
    assert_eq!(Maze::load(&record).err(), Some(MazeError::MalformedPersistedGrid));
    let mut record = closed_record(2, 2);
    record.cells[0].walls.push(true);
    assert_eq!(Maze::load(&record).err(), Some(MazeError::MalformedPersistedGrid));
    let mut record = closed_record(1, 1);
    record.cells[0].walls.clear();
    assert_eq!(Maze::load(&record).err(), Some(MazeError::MalformedPersistedGrid));
}

#[test]
fn load_rejects_a_cell_out_of_place() {
    let mut record = closed_record(2, 2);
    record.cells.swap(1, 2);
    assert_eq!(Maze::load(&record).err(), Some(MazeError::MalformedPersistedGrid));
    let mut record = closed_record(2, 2);
    record.cells[3].coordinates = Coordinates::new(1, 0);
    assert_eq!(Maze::load(&record).err(), Some(MazeError::MalformedPersistedGrid));
    let mut record = closed_record(3, 2);
    record.width = 2;
    record.height = 3;
    assert_eq!(Maze::load(&record).err(), Some(MazeError::MalformedPersistedGrid));
}

#[test]
fn load_rejects_one_sided_walls() {
    let mut record = closed_record(2, 2);
    record.cells[0].walls[1] = false;
    assert_eq!(Maze::load(&record).err(), Some(MazeError::MalformedPersistedGrid));
    let mut record = closed_record(2, 2);
    record.cells[3].walls[0] = false;
    assert_eq!(Maze::load(&record).err(), Some(MazeError::MalformedPersistedGrid));
    let mut record = closed_record(2, 2);
    record.cells[2].walls[0] = false;
    assert_eq!(Maze::load(&record).err(), Some(MazeError::MalformedPersistedGrid));
    let mut record = closed_record(2, 2);
    record.cells[1].walls[3] = false;
    assert_eq!(Maze::load(&record).err(), Some(MazeError::MalformedPersistedGrid));
    record.cells[0].walls[1] = false;
    let maze = Maze::load(&record).unwrap();
    assert_eq!(maze.open_walls(), 1);
}

#[test]
fn load_keeps_open_walls_on_the_rim() {
    let mut record = closed_record(2, 1);
    record.cells[0].walls[3] = false;
    record.cells[1].walls[2] = false;
    let maze = Maze::load(&record).unwrap();
    assert_eq!(maze.get(Coordinates::new(0, 0)).unwrap().walls(), [true, true, true, false]);
    assert_eq!(maze.get(Coordinates::new(0, 1)).unwrap().walls(), [true, true, false, true]);
    assert_eq!(maze.export(), record);
}
