//! Enumeration of the permutations of the digits 1-9 that form valid Sudoku
//! rows, in lexicographic order, and construction of the lexicographically
//! first fully populated 9x9 Sudoku grid from them.

pub mod digits;
mod first_rows;
pub mod grid;
pub mod lex;
pub mod row;
