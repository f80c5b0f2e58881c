//! Brute-force backtracking search for 9×9 sudoku grids.
//!
//! `field` holds the grid and its two predicates (contradictory, full);
//! `search` holds the one-level backtracking step and the sequential solver
//! built on it; `tasks` splits a search into independent units of work for a
//! worker pool and runs one unit.

pub mod field;
pub mod search;
pub mod tasks;
