//! The executable board.

use vstd::prelude::*;
use crate::cell::{positions, BoardError, Cell, ChangedCell};
use crate::grid::{lemma_same_grid, Grid};
use crate::laws::{law_changed_cells, law_first_reveal_is_safe, law_first_reveal_mines};
use crate::layout::in_safe_zone;
use crate::random::random_draws;
use crate::rowmajor::{lemma_index_in_range, lemma_index_split};

verus! {

/// A minesweeper board.  The cells are kept row by row in one vector.
///
/// A board belongs to one caller at a time: every operation that changes
/// it takes it by `&mut`, runs to its end and leaves it in a state that
/// `Grid::wf` describes.  The queries compute their answer from the cells
/// at each call.
pub struct Board {
    cells: Vec<Cell>,
    width: usize,
    height: usize,
    first_click: bool,
}

/// Overwrites one element of a vector.
fn put(cells: &mut Vec<Cell>, i: usize, c: Cell)
    requires
        i < old(cells)@.len(),
    ensures
        final(cells)@ == old(cells)@.update(i as int, c),
    no_unwind
{
    cells[i] = c;
}

/// What holds of a board after its first reveal, at `(x, y)` with `count`
/// mines asked for: the game is not lost, the revealed cell holds no mine,
/// and there are exactly `count` mines, none of them at `(x, y)` or next
/// to it.
pub open spec fn first_reveal_outcome(after: Grid, x: int, y: int, count: nat) -> bool {
    &&& !after.game_over()
    &&& !after.mined(x, y)
    &&& after.mines().finite()
    &&& after.mines().len() == count
    &&& forall|p: (int, int)| #[trigger] after.mines().contains(p) ==> !in_safe_zone(p, (x, y))
}

impl View for Board {
    type V = Grid;

    closed spec fn view(&self) -> Grid {
        Grid {
            rows: Seq::new(
                self.height as nat,
                |y: int| Seq::new(self.width as nat, |x: int| self.cells@[y * self.width + x]),
            ),
            pending: self.first_click,
        }
    }
}

impl Board {
    #[verifier::type_invariant]
    pub(crate) closed spec fn inv(self) -> bool {
        &&& self.width >= 1
        &&& self.height >= 1
        &&& self.cells.len() == self.width * self.height
        &&& forall|i: int|
            0 <= i < self.cells@.len() ==> !((#[trigger] self.cells@[i]).is_open && self.cells@[i].is_flagged)
        &&& self.first_click ==> forall|i: int|
            0 <= i < self.cells@.len() ==> !(#[trigger] self.cells@[i]).is_open && !self.cells@[i].is_mine
    }

    /// What the invariant says of the model.
    proof fn lemma_view_wf(self)
        requires
            self.inv(),
        ensures
            self@.wf(),
            self@.width() == self.width,
            self@.height() == self.height,
            self.width * self.height <= usize::MAX,
    {
        let g = self@;
        assert(g.rows[0].len() == self.width);
        assert forall|x: int, y: int| g.in_bounds(x, y) implies !((#[trigger] g.cell(x, y)).is_open && g.cell(
            x,
            y,
        ).is_flagged) by {
            self.lemma_cell_index(x, y);
        }
        if self.first_click {
            assert forall|x: int, y: int| g.in_bounds(x, y) implies !(#[trigger] g.cell(x, y)).is_open
                && !g.cell(x, y).is_mine by {
                self.lemma_cell_index(x, y);
            }
        }
    }

    /// The model of a board is a well-formed grid.
    pub(crate) proof fn lemma_wf(self)
        requires
            self.inv(),
        ensures
            self@.wf(),
    {
        self.lemma_view_wf();
    }

    /// Where the model's cell at `(x, y)` is kept.
    proof fn lemma_cell_index(self, x: int, y: int)
        requires
            self.inv(),
            0 <= x < self.width,
            0 <= y < self.height,
        ensures
            0 <= y * self.width <= y * self.width + x < self.cells@.len(),
            self@.cell(x, y) == self.cells@[y * self.width + x],
    {
        lemma_index_in_range(x, y, self.width as int, self.height as int);
    }

    /// Which cell of the model the `i`-th stored cell is.
    proof fn lemma_flat_cell(self, i: int)
        requires
            self.inv(),
            0 <= i < self.cells@.len(),
        ensures
            self@.in_bounds(i % (self.width as int), i / (self.width as int)),
            self@.cell(i % (self.width as int), i / (self.width as int)) == self.cells@[i],
    {
        self.lemma_view_wf();
        lemma_index_split(i, self.width as int, self.height as int);
        self.lemma_cell_index(i % (self.width as int), i / (self.width as int));
    }

    /// Creates a board of `width` by `height` closed cells without mines or
    /// flags.  The mines are laid by the first reveal.
    pub fn new(width: usize, height: usize) -> (r: Result<Board, BoardError>)
        ensures
            match r {
                Ok(b) => width >= 1 && height >= 1 && b@ == Grid::blank(width as nat, height as nat)
                    && b@.wf() && !b@.game_clear() && !b@.game_over(),
                Err(e) => e == BoardError::InvalidDimensions && (width == 0 || height == 0),
            },
    {
        if width == 0 || height == 0 {
            return Err(BoardError::InvalidDimensions);
        }
        let blank = Cell { is_open: false, is_mine: false, is_flagged: false };
        let mut cells: Vec<Cell> = Vec::new();
        let mut y: usize = 0;
        while y < height
            invariant
                y <= height,
                cells@.len() == y * width,
                forall|i: int| 0 <= i < cells@.len() ==> cells@[i] == Cell::blank(),
                blank == Cell::blank(),
            decreases height - y,
        {
            let mut x: usize = 0;
            while x < width
                invariant
                    x <= width,
                    cells@.len() == y * width + x,
                    forall|i: int| 0 <= i < cells@.len() ==> cells@[i] == Cell::blank(),
                    blank == Cell::blank(),
                decreases width - x,
            {
                cells.push(blank);
                x += 1;
            }
            assert((y + 1) * width == y * width + width) by (nonlinear_arith);
            y += 1;
        }
        assert(cells@.len() == width * height) by (nonlinear_arith)
            requires
                cells@.len() == y * width,
                y == height,
        ;
        let b = Board { cells, width, height, first_click: true };
        proof {
            b.lemma_view_wf();
            assert(b@.rows =~~= Grid::blank(width as nat, height as nat).rows) by {
                assert forall|yy: int| 0 <= yy < height implies #[trigger] b@.rows[yy] =~= Seq::new(
                    width as nat,
                    |x: int| Cell::blank(),
                ) by {
                    assert forall|xx: int| 0 <= xx < width implies b@.rows[yy][xx] == Cell::blank() by {
                        lemma_index_in_range(xx, yy, width as int, height as int);
                    }
                }
            }
            assert(b@.in_bounds(0, 0));
            assert(!b@.cell(0, 0).is_mine && !b@.cell(0, 0).is_open);
        }
        Ok(b)
    }

    /// The number of columns.
    pub fn width(&self) -> (w: usize)
        ensures
            self@.wf(),
            w == self@.width(),
            w >= 1,
    {
        proof {
            use_type_invariant(self);
            self.lemma_view_wf();
        }
        self.width
    }

    /// The number of rows.
    pub fn height(&self) -> (h: usize)
        ensures
            self@.wf(),
            h == self@.height(),
            h >= 1,
    {
        proof {
            use_type_invariant(self);
            self.lemma_view_wf();
        }
        self.height
    }

    /// Says whether the mines are still to be laid.
    pub(crate) fn is_pending(&self) -> (b: bool)
        ensures
            b == self@.pending,
    {
        self.first_click
    }

    /// Notes that the mines are no longer pending.
    pub(crate) fn begin_play(&mut self)
        ensures
            final(self)@ == (Grid { rows: old(self)@.rows, pending: false }),
            final(self)@.wf(),
    {
        proof {
            use_type_invariant(&*self);
            self.lemma_view_wf();
        }
        self.first_click = false;
        proof {
            self.lemma_view_wf();
        }
    }

    /// The cell at `(x, y)`, which must exist.
    pub(crate) fn cell(&self, x: usize, y: usize) -> (c: Cell)
        requires
            self@.in_bounds(x as int, y as int),
        ensures
            c == self@.cell(x as int, y as int),
    {
        proof {
            use_type_invariant(self);
            self.lemma_view_wf();
            self.lemma_cell_index(x as int, y as int);
        }
        self.cells[y * self.width + x]
    }

    /// Replaces the cell at `(x, y)`, which must exist, by a cell that is
    /// not both open and flagged.  Before the mines are laid a cell can
    /// only change its flag.
    pub(crate) fn set_cell(&mut self, x: usize, y: usize, c: Cell)
        requires
            old(self)@.in_bounds(x as int, y as int),
            !(c.is_open && c.is_flagged),
            old(self)@.pending ==> !c.is_open && !c.is_mine,
        ensures
            final(self)@ == old(self)@.with_cell(x as int, y as int, c),
            final(self)@.wf(),
    {
        proof {
            use_type_invariant(&*self);
            self.lemma_view_wf();
            self.lemma_cell_index(x as int, y as int);
        }
        let ghost before = *self;
        let i: usize = y * self.width + x;
        put(&mut self.cells, i, c);
        proof {
            self.lemma_view_wf();
            let w = self.width as int;
            let h = self.height as int;
            let want = before@.with_cell(x as int, y as int, c);
            assert forall|yy: int| 0 <= yy < h implies #[trigger] self@.rows[yy] =~= want.rows[yy] by {
                assert forall|xx: int| 0 <= xx < w implies self@.rows[yy][xx] == want.rows[yy][xx] by {
                    lemma_index_in_range(xx, yy, w, h);
                    lemma_index_in_range(x as int, y as int, w, h);
                    assert(self@.rows[yy][xx] == self.cells@[yy * w + xx]);
                    assert(before@.rows[yy][xx] == before.cells@[yy * w + xx]);
                }
            }
            assert(self@.rows =~~= want.rows);
        }
    }

    /// The state of the cell at `(x, y)`.
    pub fn get_cell_state(&self, x: usize, y: usize) -> (r: Result<Cell, BoardError>)
        ensures
            self@.wf(),
            match r {
                Ok(c) => self@.in_bounds(x as int, y as int) && c == self@.cell(x as int, y as int),
                Err(e) => e == BoardError::OutOfBounds && !self@.in_bounds(x as int, y as int),
            },
    {
        proof {
            use_type_invariant(self);
            self.lemma_view_wf();
        }
        if x < self.width && y < self.height {
            Ok(self.cell(x, y))
        } else {
            Err(BoardError::OutOfBounds)
        }
    }

    /// The neighbour of `(x, y)` that lies `dx` columns and `dy` rows
    /// away, if the board has such a cell.
    pub(crate) fn neighbour(&self, x: usize, y: usize, dx: i8, dy: i8) -> (r: Option<(usize, usize)>)
        requires
            self@.in_bounds(x as int, y as int),
            -1 <= dx <= 1,
            -1 <= dy <= 1,
        ensures
            match r {
                Some(p) => p.0 == x + dx && p.1 == y + dy && self@.in_bounds(p.0 as int, p.1 as int),
                None => !self@.in_bounds(x + dx, y + dy),
            },
    {
        proof {
            use_type_invariant(self);
            self.lemma_view_wf();
        }
        if (dx < 0 && x == 0) || (dy < 0 && y == 0) {
            return None;
        }
        let nx: usize = if dx < 0 {
            x - 1
        } else if dx > 0 {
            x + 1
        } else {
            x
        };
        let ny: usize = if dy < 0 {
            y - 1
        } else if dy > 0 {
            y + 1
        } else {
            y
        };
        if nx < self.width && ny < self.height {
            Some((nx, ny))
        } else {
            None
        }
    }

    /// 1 if the neighbour of `(x, y)` at offset `(dx, dy)` exists and
    /// holds a mine, else 0.
    fn mine_weight(&self, x: usize, y: usize, dx: i8, dy: i8) -> (n: usize)
        requires
            self@.in_bounds(x as int, y as int),
            -1 <= dx <= 1,
            -1 <= dy <= 1,
        ensures
            n == self@.mine_weight(x + dx, y + dy),
    {
        match self.neighbour(x, y, dx, dy) {
            Some(p) => if self.cell(p.0, p.1).is_mine {
                1
            } else {
                0
            },
            None => 0,
        }
    }

    /// The number of mines on the neighbours of the cell at `(x, y)`,
    /// which must exist.
    pub(crate) fn mines_near(&self, x: usize, y: usize) -> (n: usize)
        requires
            self@.in_bounds(x as int, y as int),
        ensures
            n == self@.mines_around(x as int, y as int),
    {
        let mut count: usize = self.mine_weight(x, y, -1, -1);
        count += self.mine_weight(x, y, 0, -1);
        count += self.mine_weight(x, y, 1, -1);
        count += self.mine_weight(x, y, -1, 0);
        count += self.mine_weight(x, y, 1, 0);
        count += self.mine_weight(x, y, -1, 1);
        count += self.mine_weight(x, y, 0, 1);
        count += self.mine_weight(x, y, 1, 1);
        count
    }

    /// Counts the mines on the up to eight neighbours of the cell at
    /// `(x, y)`; the cell itself is not counted.
    pub fn count_mines_around(&self, x: usize, y: usize) -> (r: Result<usize, BoardError>)
        ensures
            self@.wf(),
            match r {
                Ok(n) => self@.in_bounds(x as int, y as int) && n == self@.mines_around(x as int, y as int),
                Err(e) => e == BoardError::OutOfBounds && !self@.in_bounds(x as int, y as int),
            },
    {
        proof {
            use_type_invariant(self);
            self.lemma_view_wf();
        }
        if x < self.width && y < self.height {
            Ok(self.mines_near(x, y))
        } else {
            Err(BoardError::OutOfBounds)
        }
    }

    /// Says whether a reveal can open the cell at `(x, y)`.
    pub(crate) fn can_open_cell(&self, x: usize, y: usize) -> (b: bool)
        ensures
            b == self@.can_open(x as int, y as int),
    {
        proof {
            use_type_invariant(self);
            self.lemma_view_wf();
        }
        if x < self.width && y < self.height {
            let c = self.cell(x, y);
            !c.is_open && !c.is_flagged
        } else {
            false
        }
    }

    /// Opens the cell at `(x, y)` of a board that has its mines: nothing
    /// if the cell is open or flagged, the cell alone if it holds a mine,
    /// and else all cells that the flood fill from it reaches.  Returns
    /// the cells that were opened.
    fn open_laid(&mut self, x: usize, y: usize) -> (changed: Vec<ChangedCell>)
        requires
            old(self)@.in_bounds(x as int, y as int),
            !old(self)@.pending,
        ensures
            final(self)@.wf(),
            final(self)@ == old(self)@.reveal_at(x as int, y as int),
            positions(changed@).no_duplicates(),
            positions(changed@).to_set() == old(self)@.opened_by(x as int, y as int),
    {
        let ghost g0 = self@;
        proof {
            use_type_invariant(&*self);
            self.lemma_view_wf();
            g0.lemma_reveal_at(x as int, y as int);
        }
        let mut changed: Vec<ChangedCell> = Vec::new();
        if self.can_open_cell(x, y) {
            let here = self.cell(x, y);
            if !here.is_mine {
                return self.flood_open(x, y);
            }
            self.set_cell(x, y, Cell { is_open: true, is_mine: here.is_mine, is_flagged: here.is_flagged });
            changed.push(ChangedCell { x, y });
            proof {
                assert(positions(changed@) =~= seq![(x as int, y as int)]);
                assert(positions(changed@)[0] == (x as int, y as int));
            }
        }
        proof {
            assert(positions(changed@).to_set() =~= g0.opened_by(x as int, y as int));
            assert(self@.rows[0].len() == g0.width());
            lemma_same_grid(self@, g0.reveal_at(x as int, y as int));
        }
        changed
    }

    /// Reveals the cell at `(x, y)`, with the mine placement written out:
    /// if this is the first reveal of the board, `mines_count` mines are
    /// laid first, and draw number `k` names the place of the `k`-th mine
    /// among the eligible cells that are left (the cells outside the safe
    /// zone of `(x, y)`, row by row; a picked cell makes room for the last
    /// one).  The draws are looked at on the first reveal only.
    ///
    /// Returns the cells that were opened, in no particular order.
    pub fn open_cell_with(
        &mut self,
        x: usize,
        y: usize,
        mines_count: usize,
        draws: &[usize],
    ) -> (r: Result<Vec<ChangedCell>, BoardError>)
        ensures
            final(self)@.wf(),
            match r {
                Ok(changed) => {
                    &&& old(self)@.open_error(x as int, y as int, mines_count as nat, draws@) is None
                    &&& final(self)@ == old(self)@.open_cell(x as int, y as int, mines_count as nat, draws@)
                    &&& positions(changed@).no_duplicates()
                    &&& positions(changed@).to_set() == old(self)@.seeded(
                        x as int,
                        y as int,
                        mines_count as nat,
                        draws@,
                    ).opened_by(x as int, y as int)
                },
                Err(e) => {
                    &&& old(self)@.open_error(x as int, y as int, mines_count as nat, draws@) == Some(e)
                    &&& final(self)@ == old(self)@
                },
            },
            r matches Ok(changed) ==> positions(changed@).to_set() == old(self)@.opened_since(final(self)@),
            old(self)@.pending && r is Ok ==> first_reveal_outcome(
                final(self)@,
                x as int,
                y as int,
                mines_count as nat,
            ),
    {
        let ghost g0 = self@;
        proof {
            use_type_invariant(&*self);
            self.lemma_view_wf();
        }
        if x >= self.width || y >= self.height {
            return Err(BoardError::OutOfBounds);
        }
        match self.place_mines(mines_count, x, y, draws) {
            Err(e) => Err(e),
            Ok(_) => {
                let changed = self.open_laid(x, y);
                proof {
                    law_changed_cells(g0, x as int, y as int, mines_count as nat, draws@);
                    if g0.pending {
                        law_first_reveal_mines(g0, x as int, y as int, mines_count as nat, draws@);
                        law_first_reveal_is_safe(g0, x as int, y as int, mines_count as nat, draws@);
                    }
                }
                Ok(changed)
            },
        }
    }

    /// Reveals the cell at `(x, y)`.  The first reveal of a board lays
    /// `mines_count` mines on cells outside the safe zone of `(x, y)`; it
    /// is rejected if there are fewer such cells.  Which cells get a mine
    /// is drawn from the thread's random generator, one uniform draw among
    /// the cells that are left for each mine; the contract says what holds
    /// whatever is drawn.  Then the cell is opened as `open_cell_with`
    /// tells.
    ///
    /// Returns the cells that were opened, in no particular order.
    pub fn open_cell(&mut self, x: usize, y: usize, mines_count: usize) -> (r: Result<
        Vec<ChangedCell>,
        BoardError,
    >)
        ensures
            final(self)@.wf(),
            match r {
                Ok(changed) => {
                    &&& old(self)@.refusal(x as int, y as int, mines_count as nat) is None
                    &&& positions(changed@).no_duplicates()
                    &&& exists|draws: Seq<usize>|
                        {
                            &&& old(self)@.open_error(x as int, y as int, mines_count as nat, draws) is None
                            &&& final(self)@ == #[trigger] old(self)@.open_cell(
                                x as int,
                                y as int,
                                mines_count as nat,
                                draws,
                            )
                            &&& positions(changed@).to_set() == old(self)@.seeded(
                                x as int,
                                y as int,
                                mines_count as nat,
                                draws,
                            ).opened_by(x as int, y as int)
                        }
                },
                Err(e) => {
                    &&& old(self)@.refusal(x as int, y as int, mines_count as nat) == Some(e)
                    &&& final(self)@ == old(self)@
                },
            },
            r matches Ok(changed) ==> positions(changed@).to_set() == old(self)@.opened_since(final(self)@),
            old(self)@.pending && r is Ok ==> first_reveal_outcome(
                final(self)@,
                x as int,
                y as int,
                mines_count as nat,
            ),
    {
        proof {
            use_type_invariant(&*self);
            self.lemma_view_wf();
        }
        if x >= self.width || y >= self.height {
            return Err(BoardError::OutOfBounds);
        }
        let mut draws: Vec<usize> = Vec::new();
        if self.first_click {
            let room: usize = self.eligible_cells(x, y).len();
            if mines_count > room {
                return Err(BoardError::TooManyMines);
            }
            draws = random_draws(mines_count, room);
        }
        self.open_cell_with(x, y, mines_count, draws.as_slice())
    }

    /// Sets or removes the flag of the cell at `(x, y)`.  An open cell
    /// takes no flag: it is left as it is.
    pub fn toggle_flag(&mut self, x: usize, y: usize) -> (r: Result<(), BoardError>)
        ensures
            final(self)@.wf(),
            match r {
                Ok(_) => {
                    &&& old(self)@.in_bounds(x as int, y as int)
                    &&& final(self)@ == old(self)@.toggle_flag(x as int, y as int)
                },
                Err(e) => {
                    &&& e == BoardError::OutOfBounds
                    &&& !old(self)@.in_bounds(x as int, y as int)
                    &&& final(self)@ == old(self)@
                },
            },
    {
        proof {
            use_type_invariant(&*self);
            self.lemma_view_wf();
        }
        if x >= self.width || y >= self.height {
            return Err(BoardError::OutOfBounds);
        }
        let c = self.cell(x, y);
        if !c.is_open {
            self.set_cell(x, y, Cell { is_open: c.is_open, is_mine: c.is_mine, is_flagged: !c.is_flagged });
        }
        Ok(())
    }

    /// Says whether the game is lost: whether some open cell holds a
    /// mine.  The answer is computed from the cells at each call.
    pub fn is_game_over(&self) -> (b: bool)
        ensures
            self@.wf(),
            b == self@.game_over(),
    {
        proof {
            use_type_invariant(self);
            self.lemma_view_wf();
        }
        let n: usize = self.cells.len();
        let mut i: usize = 0;
        while i < n
            invariant
                self.inv(),
                self@.wf(),
                n == self.cells@.len(),
                i <= n,
                forall|j: int| 0 <= j < i ==> !((#[trigger] self.cells@[j]).is_open && self.cells@[j].is_mine),
            decreases n - i,
        {
            if self.cells[i].is_open && self.cells[i].is_mine {
                proof {
                    self.lemma_flat_cell(i as int);
                }
                return true;
            }
            i += 1;
        }
        proof {
            assert forall|x: int, y: int| self@.in_bounds(x, y) implies !((#[trigger] self@.cell(x, y)).is_open
                && self@.cell(x, y).is_mine) by {
                self.lemma_view_wf();
                self.lemma_cell_index(x, y);
            }
        }
        false
    }

    /// Says whether the game is won: whether every cell without a mine is
    /// open.  The answer is computed from the cells at each call.
    pub fn is_game_clear(&self) -> (b: bool)
        ensures
            self@.wf(),
            b == self@.game_clear(),
    {
        proof {
            use_type_invariant(self);
            self.lemma_view_wf();
        }
        let n: usize = self.cells.len();
        let mut i: usize = 0;
        while i < n
            invariant
                self.inv(),
                self@.wf(),
                n == self.cells@.len(),
                i <= n,
                forall|j: int| 0 <= j < i ==> (#[trigger] self.cells@[j]).is_mine || self.cells@[j].is_open,
            decreases n - i,
        {
            if !(self.cells[i].is_mine || self.cells[i].is_open) {
                proof {
                    self.lemma_flat_cell(i as int);
                }
                return false;
            }
            i += 1;
        }
        proof {
            assert forall|x: int, y: int| self@.in_bounds(x, y) implies (#[trigger] self@.cell(x, y)).is_mine
                || self@.cell(x, y).is_open by {
                self.lemma_view_wf();
                self.lemma_cell_index(x, y);
            }
        }
        true
    }
}

} // verus!
