pub mod bits;
pub mod board;
pub mod loader;
pub mod selection;

pub use bits::{add_possibility, check_possibility, remove_possibility, toggle_possibility};
pub use board::{AlreadySolved, Cell, CellIndex, InvalidCellSolution, State, Sudoku, SIZE};
pub use loader::LoadError;
pub use selection::{move_selection, Direction};
