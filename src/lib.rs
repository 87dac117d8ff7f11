//! A deductive solver for 9x9 Sudoku puzzles.
//!
//! A board holds 81 cells, each either a placed digit or the set of digits
//! that are still possible there. Solving narrows those candidate sets by
//! constraint propagation until nothing more follows; there is no guessing.
use vstd::prelude::*;

pub mod board;
pub mod field;
pub mod grid;
pub mod text;

pub use board::Board;
pub use field::{Cell, Field};
pub use text::board_from_string;
