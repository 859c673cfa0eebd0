//! The mathematical model of a board, and the rules of the game stated
//! over it.

use vstd::prelude::*;
use crate::cell::Cell;

verus! {

/// A board as a value: `rows[y][x]` is the cell in column `x` of row `y`,
/// and `pending` says that no reveal has happened yet, so that the mines
/// are still to be laid.
pub struct Grid {
    pub rows: Seq<Seq<Cell>>,
    pub pending: bool,
}

/// Two different positions that touch, by an edge or by a corner.
pub open spec fn adjacent(a: (int, int), b: (int, int)) -> bool {
    &&& a != b
    &&& -1 <= a.0 - b.0 <= 1
    &&& -1 <= a.1 - b.1 <= 1
}

impl Grid {
    pub open spec fn height(self) -> nat {
        self.rows.len()
    }

    pub open spec fn width(self) -> nat {
        self.rows[0].len()
    }

    pub open spec fn in_bounds(self, x: int, y: int) -> bool {
        0 <= x < self.width() && 0 <= y < self.height()
    }

    pub open spec fn cell(self, x: int, y: int) -> Cell {
        self.rows[y][x]
    }

    /// A grid is a rectangle of at least one cell; no cell is both open
    /// and flagged; and while the mines are pending it holds neither a
    /// mine nor an open cell.
    pub open spec fn wf(self) -> bool {
        &&& self.height() >= 1
        &&& self.width() >= 1
        &&& forall|y: int| 0 <= y < self.height() ==> (#[trigger] self.rows[y]).len() == self.width()
        &&& forall|x: int, y: int|
            self.in_bounds(x, y) ==> !((#[trigger] self.cell(x, y)).is_open && self.cell(x, y).is_flagged)
        &&& self.pending ==> forall|x: int, y: int|
            self.in_bounds(x, y) ==> !(#[trigger] self.cell(x, y)).is_open && !self.cell(x, y).is_mine
    }

    /// The grid of `width` by `height` blank cells, mines pending.
    pub open spec fn blank(width: nat, height: nat) -> Grid {
        Grid {
            rows: Seq::new(height, |y: int| Seq::new(width, |x: int| Cell::blank())),
            pending: true,
        }
    }

    /// The grid with the cell at `(x, y)` replaced by `c`.
    pub open spec fn with_cell(self, x: int, y: int, c: Cell) -> Grid {
        Grid { rows: self.rows.update(y, self.rows[y].update(x, c)), pending: self.pending }
    }

    /// There is a cell at `(x, y)` and it holds a mine.
    pub open spec fn mined(self, x: int, y: int) -> bool {
        self.in_bounds(x, y) && self.cell(x, y).is_mine
    }

    /// 1 if there is a mine at `(x, y)`, else 0.
    pub open spec fn mine_weight(self, x: int, y: int) -> int {
        if self.mined(x, y) { 1 } else { 0 }
    }

    /// The number of mines on the up to eight neighbours of `(x, y)`.
    pub open spec fn mines_around(self, x: int, y: int) -> int {
        self.mine_weight(x - 1, y - 1) + self.mine_weight(x, y - 1) + self.mine_weight(x + 1, y - 1)
            + self.mine_weight(x - 1, y) + self.mine_weight(x + 1, y)
            + self.mine_weight(x - 1, y + 1) + self.mine_weight(x, y + 1) + self.mine_weight(x + 1, y + 1)
    }

    /// A reveal can open the cell at `(x, y)`: it exists, is closed and
    /// carries no flag.
    pub open spec fn can_open(self, x: int, y: int) -> bool {
        self.in_bounds(x, y) && !self.cell(x, y).is_open && !self.cell(x, y).is_flagged
    }

    /// The game is lost: some open cell holds a mine.
    pub open spec fn game_over(self) -> bool {
        exists|x: int, y: int| self.in_bounds(x, y) && (#[trigger] self.cell(x, y)).is_open && self.cell(x, y).is_mine
    }

    /// The game is won: every cell without a mine is open.
    pub open spec fn game_clear(self) -> bool {
        forall|x: int, y: int| self.in_bounds(x, y) ==> (#[trigger] self.cell(x, y)).is_mine || self.cell(x, y).is_open
    }

    /// The cells that are closed in this grid and open in `after`.
    pub open spec fn opened_since(self, after: Grid) -> Set<(int, int)> {
        Set::new(
            |p: (int, int)| self.in_bounds(p.0, p.1) && !self.cell(p.0, p.1).is_open && after.cell(p.0, p.1).is_open,
        )
    }

    /// The grid after a flag toggle at `(x, y)`: an open cell keeps its
    /// state, a closed one has its flag flipped.
    pub open spec fn toggle_flag(self, x: int, y: int) -> Grid {
        if self.cell(x, y).is_open {
            self
        } else {
            self.with_cell(x, y, self.cell(x, y).toggled())
        }
    }
}

/// Grids of the same shape that hold the same cells are the same grid.
pub proof fn lemma_same_grid(a: Grid, b: Grid)
    requires
        a.wf(),
        b.wf(),
        a.height() == b.height(),
        a.width() == b.width(),
        a.pending == b.pending,
        forall|x: int, y: int| a.in_bounds(x, y) ==> #[trigger] a.cell(x, y) == b.cell(x, y),
    ensures
        a == b,
{
    assert forall|y: int| 0 <= y < a.height() implies #[trigger] a.rows[y] =~= b.rows[y] by {
        assert forall|x: int| 0 <= x < a.width() implies a.rows[y][x] == b.rows[y][x] by {
            assert(a.cell(x, y) == b.cell(x, y));
        }
    }
    assert(a.rows =~~= b.rows);
}

} // verus!
