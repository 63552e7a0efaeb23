//! Sudoku-family puzzles on an N×N board with boxes of side B = ⌊√N⌋:
//! the board model, the relation of cells that must differ, and three
//! solvers (exact backtracking, simulated annealing, alternating projections).
pub mod annealing;
pub mod backtrack;
pub mod conflicts;
pub mod grid;
pub mod parsing;
pub mod projection;
