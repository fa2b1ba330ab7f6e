//! A 9x9 Sudoku solver: a grid kept in three synchronized views, a conflict
//! test on them, and a depth-first search that fills the blank cells in
//! reading order with the least digits that fit.
//!
//! - `index`: positions, groups, and the reorderings behind the views.
//! - `rules`: what it means to fill the blank cells, and which way of
//!   filling them comes first.
//! - `solved`: solved grids and solutions, and how far given cells that
//!   break the rules can go.
//! - `grid`: the grid in its three views.
//! - `solver`: the search, and `solve`.
//! - `io`: reading a puzzle from text, drawing a grid as text.
//!
//! Two choices shape what `solve` promises. The given cells are never
//! compared with one another, so a grid may be filled around given cells
//! that break the rules; it is then filled, and not solved. And a search
//! that fails leaves the caller's grid as it was.

pub mod index;
pub mod rules;
pub mod solved;
pub mod grid;
pub mod solver;
pub mod io;

pub use solver::solve;
