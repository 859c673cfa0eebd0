//! The plain values that cross the library's boundary.

use vstd::prelude::*;

verus! {

/// One square of the board.
#[derive(Clone, Copy, Debug, PartialEq, Eq, Structural)]
pub struct Cell {
    pub is_open: bool,
    pub is_mine: bool,
    pub is_flagged: bool,
}

impl Cell {
    /// A closed cell without mine or flag.
    pub open spec fn blank() -> Cell {
        Cell { is_open: false, is_mine: false, is_flagged: false }
    }

    /// The same cell, opened.
    pub open spec fn opened(self) -> Cell {
        Cell { is_open: true, is_mine: self.is_mine, is_flagged: self.is_flagged }
    }

    /// The same cell, holding a mine.
    pub open spec fn mined(self) -> Cell {
        Cell { is_open: self.is_open, is_mine: true, is_flagged: self.is_flagged }
    }

    /// The same cell with its flag flipped.
    pub open spec fn toggled(self) -> Cell {
        Cell { is_open: self.is_open, is_mine: self.is_mine, is_flagged: !self.is_flagged }
    }
}

/// The position of a cell that an operation opened: `x` counts columns,
/// `y` counts rows, both from zero.
#[derive(Clone, Copy, Debug, PartialEq, Eq, Structural)]
pub struct ChangedCell {
    pub x: usize,
    pub y: usize,
}

impl View for ChangedCell {
    type V = (int, int);

    open spec fn view(&self) -> (int, int) {
        (self.x as int, self.y as int)
    }
}

/// The positions that a list of changed cells names, in its order.
pub open spec fn positions(cells: Seq<ChangedCell>) -> Seq<(int, int)> {
    cells.map_values(|c: ChangedCell| c@)
}

/// Why an operation was rejected.  A rejected operation leaves the board
/// as it was.
#[derive(Clone, Copy, Debug, PartialEq, Eq, Structural)]
pub enum BoardError {
    /// A board needs at least one column and one row.
    InvalidDimensions,
    /// The coordinates name no cell of the board.
    OutOfBounds,
    /// More mines were asked for than there are cells outside the
    /// neighbourhood of the first reveal.
    TooManyMines,
    /// The draws handed in for the mine placement do not fit it.
    InvalidDraws,
}

} // verus!
