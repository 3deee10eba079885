//! A 9×9 Sudoku solver: candidate bitmasks, constraint propagation, four
//! deduction techniques (naked singles, hidden singles, locked candidates,
//! naked pairs) and a minimum-remaining-values backtracking search.
mod bits;
mod debug;
mod error;
mod geometry;
pub mod grid;
mod hidden;
mod locked;
pub mod solver;
pub mod sudoku;
mod visible;

pub use crate::debug::{pretty_print, pretty_print_alternatives};
pub use crate::error::{Error, Result};
pub use crate::hidden::{check_all_hidden_zeroes, place_all_hidden_singles};
pub use crate::locked::check_locked_candidates;
pub use crate::solver::{check_constraints, solve};
pub use crate::sudoku::Sudoku;
pub use crate::visible::{check_all_visible_doubles, place_all_visible_singles};
