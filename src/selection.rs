use vstd::prelude::*;

use crate::board::{CellIndex, SIZE};

verus! {

/// A move of the selected cell.
#[derive(Debug, Clone, Copy, PartialEq, Eq, Structural)]
pub enum Direction {
    Left,
    Right,
    Up,
    Down,
}

/// The cell selected after a move from `idx`: left and right wrap within the row, up and
/// down within the column.
pub fn move_selection(idx: CellIndex, dir: Direction) -> (r: CellIndex)
    requires
        idx < SIZE,
    ensures
        r < SIZE,
        match dir {
            Direction::Left => r == idx / 9 * 9 + (idx % 9 + 8) % 9,
            Direction::Right => r == idx / 9 * 9 + (idx % 9 + 1) % 9,
            Direction::Down => r == (idx + 9) % 81,
            Direction::Up => r == (idx + 72) % 81,
        },
{
    let row_start: usize = idx / 9 * 9;
    match dir {
        Direction::Left => (idx + 9 - 1) % 9 + row_start,
        Direction::Right => (idx + 1) % 9 + row_start,
        Direction::Down => (idx + 9) % SIZE,
        Direction::Up => (idx + SIZE - 9) % SIZE,
    }
}

} // verus!
