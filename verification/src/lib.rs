//! Rectangular grid mazes: a grid model with symmetric walls, a randomized
//! depth-first generator and a breadth-first solver, both able to stream
//! intermediate states to a renderer.

pub mod bfs;
pub mod cell;
mod channel;
pub mod coordinate;
pub mod coordinate_set;
pub mod dfs;
pub mod direction;
pub mod graph;
pub mod maze;
mod random;
pub mod record;
pub mod render;

use vstd::prelude::*;
use std::collections::HashMap;
use crate::direction::Direction;

verus! {

/// The unit step of each direction, under the direction's `value`.
pub fn adjustments() -> (table: HashMap<usize, (isize, isize)>)
    ensures
        forall|key: usize| table@.contains_key(key) <==> key < 4,
        forall|direction: Direction|
            #![trigger direction.adjustment()]
            table@[direction.index() as usize] == direction.adjustment(),
{
    let mut table: HashMap<usize, (isize, isize)> = HashMap::new();
    table.insert(Direction::North.value(), Direction::North.step());
    table.insert(Direction::East.value(), Direction::East.step());
    table.insert(Direction::South.value(), Direction::South.step());
    table.insert(Direction::West.value(), Direction::West.step());
    table
}

/// The opposite of each direction, under the direction's `value`.
pub fn opposites() -> (table: HashMap<usize, Direction>)
    ensures
        forall|key: usize| table@.contains_key(key) <==> key < 4,
        forall|direction: Direction|
            #![trigger direction.opposite()]
            table@[direction.index() as usize] == direction.opposite(),
{
    let mut table: HashMap<usize, Direction> = HashMap::new();
    table.insert(Direction::North.value(), Direction::North.reverse());
    table.insert(Direction::East.value(), Direction::East.reverse());
    table.insert(Direction::South.value(), Direction::South.reverse());
    table.insert(Direction::West.value(), Direction::West.reverse());
    table
}

} // verus!
