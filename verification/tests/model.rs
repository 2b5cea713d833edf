use ariadne::cell::Cell;
use ariadne::coordinate::Coordinates;
use ariadne::coordinate_set::CoordinateSet;
use ariadne::direction::{Direction, DIRECTIONS};
use ariadne::{adjustments, opposites};

#[test]
fn direction_values_follow_the_wall_order() {
    assert_eq!(Direction::North.value(), 0);
    assert_eq!(Direction::East.value(), 1);
    assert_eq!(Direction::South.value(), 2);
    assert_eq!(Direction::West.value(), 3);
}

#[test]
fn direction_reverse_swaps_pairs() {
    assert_eq!(Direction::North.reverse(), Direction::South);
    assert_eq!(Direction::South.reverse(), Direction::North);
    assert_eq!(Direction::East.reverse(), Direction::West);
    assert_eq!(Direction::West.reverse(), Direction::East);
}

#[test]
fn direction_steps_are_unit_offsets() {
    assert_eq!(Direction::North.step(), (-1, 0));
    assert_eq!(Direction::East.step(), (0, 1));
    assert_eq!(Direction::South.step(), (1, 0));
    assert_eq!(Direction::West.step(), (0, -1));
}

#[test]
fn directions_are_ordered_as_their_values() {
    let mut sides = vec![Direction::West, Direction::South, Direction::North, Direction::East];
    sides.sort();
    assert_eq!(
        sides,
        vec![Direction::North, Direction::East, Direction::South, Direction::West]
    );
    assert!(Direction::North < Direction::East);
    assert!(Direction::South < Direction::West);
}

#[test]
fn solver_directions_are_north_south_east_west() {
    assert_eq!(
        DIRECTIONS,
        [Direction::North, Direction::South, Direction::East, Direction::West]
    );
}

#[test]
fn adjustments_table_has_each_direction() {
    let table = adjustments();
    assert_eq!(table.len(), 4);
    assert_eq!(table[&Direction::North.value()], (-1, 0));
    assert_eq!(table[&Direction::East.value()], (0, 1));
    assert_eq!(table[&Direction::South.value()], (1, 0));
    assert_eq!(table[&Direction::West.value()], (0, -1));
}

#[test]
fn opposites_table_has_each_direction() {
    let table = opposites();
    assert_eq!(table.len(), 4);
    assert_eq!(table[&Direction::North.value()], Direction::South);
    assert_eq!(table[&Direction::East.value()], Direction::West);
    assert_eq!(table[&Direction::South.value()], Direction::North);
    assert_eq!(table[&Direction::West.value()], Direction::East);
}

#[test]
fn opposite_of_opposite_is_the_direction() {
    for direction in [Direction::North, Direction::East, Direction::South, Direction::West] {
        assert_eq!(direction.reverse().reverse(), direction);
        assert_ne!(direction.reverse(), direction);
        let there = direction.step();
        let back = direction.reverse().step();
        assert_eq!((there.0 + back.0, there.1 + back.1), (0, 0));
    }
}

#[test]
fn coordinates_new_sets_both_fields() {
    let c = Coordinates::new(3, 7);
    assert_eq!(c.row, 3);
    assert_eq!(c.col, 7);
}

#[test]
fn coordinates_convert_to_and_from_pairs() {
    let c: Coordinates = (4usize, 5usize).into();
    assert_eq!(c, Coordinates::new(4, 5));
    let pair: (usize, usize) = c.into();
    assert_eq!(pair, (4, 5));
}

#[test]
fn coordinates_add_signed_offsets() {
    assert_eq!(Coordinates::new(2, 2) + (-1, 0), Coordinates::new(1, 2));
    assert_eq!(Coordinates::new(2, 2) + (0, 1), Coordinates::new(2, 3));
    assert_eq!(Coordinates::new(2, 2) + (1, 0), Coordinates::new(3, 2));
    assert_eq!(Coordinates::new(2, 2) + (0, -1), Coordinates::new(2, 1));
    assert_eq!(Coordinates::new(5, 9) + (-3, 4), Coordinates::new(2, 13));
}

#[test]
fn coordinates_add_wraps_off_the_grid() {
    assert_eq!(Coordinates::new(0, 0) + (-1, 0), Coordinates::new(usize::MAX, 0));
    assert_eq!(Coordinates::new(0, 0) + (0, -1), Coordinates::new(0, usize::MAX));
    assert_eq!(Coordinates::new(usize::MAX, 1) + (1, 0), Coordinates::new(0, 1));
}

#[test]
fn step_and_step_back_returns() {
    let start = Coordinates::new(0, 0);
    for direction in [Direction::North, Direction::East, Direction::South, Direction::West] {
        let there = start + direction.step();
        assert_ne!(there, start);
        assert_eq!(there + direction.reverse().step(), start);
    }
}

#[test]
fn new_cell_has_all_walls() {
    let cell = Cell::new(2, 3);
    assert!(cell.wall(&Direction::North));
    assert!(cell.wall(&Direction::East));
    assert!(cell.wall(&Direction::South));
    assert!(cell.wall(&Direction::West));
    assert_eq!(cell.walls(), [true, true, true, true]);
    assert_eq!(cell.coordinates(), Coordinates::new(2, 3));
}

#[test]
fn set_wall_changes_one_flag() {
    let mut cell = Cell::new(0, 0);
    cell.set_wall(Direction::East, false);
    assert_eq!(cell.walls(), [true, false, true, true]);
    cell.set_wall(Direction::North, false);
    assert_eq!(cell.walls(), [false, false, true, true]);
    cell.set_wall(Direction::East, true);
    assert_eq!(cell.walls(), [false, true, true, true]);
    cell.set_wall(Direction::West, false);
    cell.set_wall(Direction::South, false);
    assert_eq!(cell.walls(), [false, true, false, false]);
    assert_eq!(cell.coordinates(), Coordinates::new(0, 0));
}

#[test]
fn with_walls_keeps_flags_in_order() {
    let cell = Cell::with_walls([true, false, false, true], Coordinates::new(1, 4));
    assert!(cell.wall(&Direction::North));
    assert!(!cell.wall(&Direction::East));
    assert!(!cell.wall(&Direction::South));
    assert!(cell.wall(&Direction::West));
    assert_eq!(cell.walls(), [true, false, false, true]);
    assert_eq!(cell.coordinates(), Coordinates::new(1, 4));
}

#[test]
fn row_string_upper_edge() {
    let mut cell = Cell::new(0, 0);
    assert_eq!(cell.row_string(0, None), "\u{2588}\u{2588}\u{2588}");
    assert_eq!(cell.row_string(0, Some(true)), "\u{2588}\u{2588}\u{2588}");
    cell.set_wall(Direction::North, false);
    assert_eq!(cell.row_string(0, None), "\u{2588} \u{2588}");
    assert_eq!(cell.row_string(0, Some(false)), "\u{2588} \u{2588}");
}

#[test]
fn row_string_body() {
    let mut cell = Cell::new(0, 0);
    assert_eq!(cell.row_string(1, None), "\u{2588} \u{2588}");
    assert_eq!(cell.row_string(1, Some(false)), "\u{2588} \u{2588}");
    assert_eq!(cell.row_string(1, Some(true)), "\u{2588}X\u{2588}");
    cell.set_wall(Direction::West, false);
    assert_eq!(cell.row_string(1, Some(true)), " X\u{2588}");
    cell.set_wall(Direction::East, false);
    assert_eq!(cell.row_string(1, Some(true)), " X ");
    assert_eq!(cell.row_string(1, None), "   ");
    assert_eq!(cell.row_string(7, None), "   ");
    cell.set_wall(Direction::West, true);
    assert_eq!(cell.row_string(usize::MAX, Some(false)), "\u{2588}  ");
}

#[test]
fn coordinate_set_starts_empty() {
    let set = CoordinateSet::new();
    assert_eq!(set.len(), 0);
    assert!(set.is_empty());
    assert!(!set.contains(&Coordinates::new(0, 0)));
    assert_eq!(set.to_vec(), Vec::<Coordinates>::new());
}

#[test]
fn coordinate_set_insert_reports_new_members() {
    let mut set = CoordinateSet::new();
    assert!(set.insert(Coordinates::new(1, 2)));
    assert!(set.insert(Coordinates::new(2, 1)));
    assert!(!set.insert(Coordinates::new(1, 2)));
    assert_eq!(set.len(), 2);
    assert!(!set.is_empty());
    assert!(set.contains(&Coordinates::new(1, 2)));
    assert!(set.contains(&Coordinates::new(2, 1)));
    assert!(!set.contains(&Coordinates::new(1, 1)));
}

#[test]
fn coordinate_set_keeps_insertion_order() {
    let mut set = CoordinateSet::new();
    set.insert(Coordinates::new(5, 5));
    set.insert(Coordinates::new(0, 1));
    set.insert(Coordinates::new(5, 5));
    set.insert(Coordinates::new(3, 0));
    assert_eq!(
        set.to_vec(),
        vec![Coordinates::new(5, 5), Coordinates::new(0, 1), Coordinates::new(3, 0)]
    );
}

#[test]
fn coordinate_set_clone_is_independent() {
    let mut set = CoordinateSet::new();
    set.insert(Coordinates::new(0, 0));
    let copy = set.clone();
    set.insert(Coordinates::new(0, 1));
    assert_eq!(copy.len(), 1);
    assert!(copy.contains(&Coordinates::new(0, 0)));
    assert!(!copy.contains(&Coordinates::new(0, 1)));
    assert_eq!(set.len(), 2);
}

#[test]
fn coordinate_set_holds_many_members() {
    let mut set = CoordinateSet::new();
    for row in 0..20 {
        for col in 0..20 {
            assert!(set.insert(Coordinates::new(row, col)));
        }
    }
    assert_eq!(set.len(), 400);
    for row in 0..20 {
        for col in 0..20 {
            assert!(set.contains(&Coordinates::new(row, col)));
            assert!(!set.insert(Coordinates::new(row, col)));
        }
    }
    assert!(!set.contains(&Coordinates::new(20, 0)));
    assert_eq!(set.len(), 400);
}
