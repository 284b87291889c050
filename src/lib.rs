pub mod completion;
pub mod parse;
pub mod solver;
pub mod sudoku_cell;
pub mod sudoku_grid;
pub mod sudoku_values;

pub use sudoku_cell::SudokuCell;
pub use sudoku_grid::SudokuGrid;
pub use sudoku_values::SudokuValues;
