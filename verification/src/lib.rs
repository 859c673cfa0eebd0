//! Rules engine for a minesweeper board.
//!
//! [`Board`] owns the grid, lays the mines on the first reveal (never on or
//! next to the revealed cell), opens cells with a flood fill, and reports
//! whether the game is lost or won.  Every operation is specified against
//! [`Grid`], the mathematical model of a board.
//!
//! - `cell`: the cell, the position of an opened cell, the errors.
//! - `grid`: the model and the rules that need no more than one cell.
//! - `cascade`: which cells a reveal opens.
//! - `layout`: which cells the mines are laid on.
//! - `laws`: what holds of every game.
//! - `board`: the board and its operations.
//! - `flood`, `placement`: the two longer operations, opening and mine
//!   laying.
//! - `random`: the random draws, taken from the `rand` crate.
//! - `rowmajor`: index arithmetic.

pub mod board;
pub mod cascade;
pub mod cell;
pub mod flood;
pub mod grid;
pub mod laws;
pub mod layout;
pub mod placement;
pub mod random;
pub mod rowmajor;

pub use crate::board::Board;
pub use crate::cell::{BoardError, Cell, ChangedCell};
pub use crate::grid::Grid;
