//! Ready-made example puzzles for each supported variant.

pub mod hypersudoku;
pub mod nonomino;
pub mod sudoku;
pub mod sudoku2;
pub mod sudoku_xwings;
