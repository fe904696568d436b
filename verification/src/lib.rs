pub mod groups;
pub mod solver;
pub mod sudoku;

pub use solver::solve_sudoku;
pub use sudoku::{Cell, CellLookup, Sudoku};
