//! A Sudoku engine: a bounds-checked 9x9 grid, a constraint validator,
//! a backtracking solver with a solution-counting mode, and a puzzle
//! generator that keeps every puzzle uniquely solvable.

pub mod board;
pub mod generator;
pub mod grid;
pub mod rng;
pub mod session;
pub mod solver;
pub mod validator;

pub use board::Board;
pub use generator::GameLevel;
pub use generator::SudokuGridFactory;
pub use grid::Cell;
pub use grid::SudokuError;
pub use grid::SudokuGrid;
pub use grid::EMPTY_CELL;
pub use grid::SIZE;
pub use session::SudokuSession;
pub use solver::Solver;
pub use validator::Validator;
