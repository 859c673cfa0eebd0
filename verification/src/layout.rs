//! Where the mines go: the cells that may take one, and which of them the
//! draws pick.

use vstd::prelude::*;
use crate::cell::BoardError;
use crate::grid::Grid;
use crate::rowmajor::{lemma_index_in_range, lemma_index_split};

verus! {

/// `p` is `center` or one of its neighbours: the zone that the first
/// reveal keeps free of mines.
pub open spec fn in_safe_zone(p: (int, int), center: (int, int)) -> bool {
    -1 <= p.0 - center.0 <= 1 && -1 <= p.1 - center.1 <= 1
}

/// The test for a cell outside the safe zone of `center`.
pub open spec fn outside_zone(center: (int, int)) -> spec_fn((int, int)) -> bool {
    |p: (int, int)| !in_safe_zone(p, center)
}

/// The cells of a board row by row, each row from left to right.
pub open spec fn all_cells(width: nat, height: nat) -> Seq<(int, int)> {
    Seq::new(width * height, |i: int| (i % (width as int), i / (width as int)))
}

/// The cells that may take a mine when the first reveal is at `center`:
/// those outside its safe zone, in the order of `all_cells`.
pub open spec fn eligible_cells(width: nat, height: nat, center: (int, int)) -> Seq<(int, int)> {
    all_cells(width, height).filter(outside_zone(center))
}

/// `cells` after the one at place `i` has been taken out: the last cell
/// moves into its place.
pub open spec fn without(cells: Seq<(int, int)>, i: int) -> Seq<(int, int)> {
    cells.update(i, cells.last()).drop_last()
}

/// The cells still to choose from after the first `k` draws.
pub open spec fn remaining(cells: Seq<(int, int)>, draws: Seq<usize>, k: nat) -> Seq<(int, int)>
    decreases k,
{
    if k == 0 {
        cells
    } else {
        without(remaining(cells, draws, (k - 1) as nat), draws[k - 1] as int)
    }
}

/// The cell that draw number `k` picks: the one at place `draws[k]` among
/// those still to choose from.
pub open spec fn pick(cells: Seq<(int, int)>, draws: Seq<usize>, k: int) -> (int, int) {
    remaining(cells, draws, k as nat)[draws[k] as int]
}

/// The cells that the first `count` draws pick.
pub open spec fn picks(cells: Seq<(int, int)>, draws: Seq<usize>, count: nat) -> Seq<(int, int)> {
    Seq::new(count, |k: int| pick(cells, draws, k))
}

/// `draws` can pick `count` out of `total` cells: there is one draw for
/// each mine, and each names a place among the cells that are left.
pub open spec fn valid_draws(total: nat, draws: Seq<usize>, count: nat) -> bool {
    &&& draws.len() == count
    &&& count <= total
    &&& forall|k: int| 0 <= k < count ==> (#[trigger] draws[k]) < total - k
}

impl Grid {
    /// The cells that may take a mine when the first reveal is at `(x, y)`.
    pub open spec fn eligible(self, x: int, y: int) -> Seq<(int, int)> {
        eligible_cells(self.width(), self.height(), (x, y))
    }

    /// The grid with a mine on each cell of `mines`, and the mines no
    /// longer pending.
    pub open spec fn lay_mines(self, mines: Set<(int, int)>) -> Grid {
        Grid {
            rows: Seq::new(
                self.height(),
                |y: int|
                    Seq::new(
                        self.width(),
                        |x: int|
                            if mines.contains((x, y)) {
                                self.cell(x, y).mined()
                            } else {
                                self.cell(x, y)
                            },
                    ),
            ),
            pending: false,
        }
    }

    /// The grid as a reveal at `(x, y)` finds it once the mines are laid:
    /// if they were pending, `draws` has picked `count` cells for them.
    pub open spec fn seeded(self, x: int, y: int, count: nat, draws: Seq<usize>) -> Grid {
        if self.pending {
            self.lay_mines(picks(self.eligible(x, y), draws, count).to_set())
        } else {
            self
        }
    }

    /// Why a reveal at `(x, y)` that is to lay `count` mines is rejected
    /// whatever the draws are, if it is: the cell is not on the board, or
    /// the mines are pending and there are more of them than eligible
    /// cells.
    pub open spec fn refusal(self, x: int, y: int, count: nat) -> Option<BoardError> {
        if !self.in_bounds(x, y) {
            Some(BoardError::OutOfBounds)
        } else if self.pending && count > self.eligible(x, y).len() {
            Some(BoardError::TooManyMines)
        } else {
            None
        }
    }

    /// Why a reveal at `(x, y)` with the given draws is rejected, if it
    /// is.  The draws count only while the mines are pending.
    pub open spec fn open_error(self, x: int, y: int, count: nat, draws: Seq<usize>) -> Option<BoardError> {
        if self.refusal(x, y, count) is Some {
            self.refusal(x, y, count)
        } else if self.pending && !valid_draws(self.eligible(x, y).len(), draws, count) {
            Some(BoardError::InvalidDraws)
        } else {
            None
        }
    }

    /// The grid after a reveal at `(x, y)` that is not rejected.
    pub open spec fn open_cell(self, x: int, y: int, count: nat, draws: Seq<usize>) -> Grid {
        self.seeded(x, y, count, draws).reveal_at(x, y)
    }

    /// The cells that hold a mine.
    pub open spec fn mines(self) -> Set<(int, int)> {
        Set::new(|p: (int, int)| self.mined(p.0, p.1))
    }
}

/// What laying mines does to the cells: those of `mines` get one, and
/// nothing else changes.
pub proof fn lemma_lay_mines(g: Grid, mines: Set<(int, int)>)
    requires
        g.wf(),
    ensures
        g.lay_mines(mines).wf(),
        !g.lay_mines(mines).pending,
        g.lay_mines(mines).height() == g.height(),
        g.lay_mines(mines).width() == g.width(),
        forall|a: int, b: int| #![trigger g.lay_mines(mines).cell(a, b)]
            g.in_bounds(a, b) ==> g.lay_mines(mines).cell(a, b) == if mines.contains((a, b)) {
                g.cell(a, b).mined()
            } else {
                g.cell(a, b)
            },
{
    let h = g.lay_mines(mines);
    assert(h.rows[0].len() == g.width());
    assert forall|a: int, b: int| g.in_bounds(a, b) implies !((#[trigger] h.cell(a, b)).is_open && h.cell(
        a,
        b,
    ).is_flagged) by {
        assert(!(g.cell(a, b).is_open && g.cell(a, b).is_flagged));
    }
}

/// `all_cells` lists every cell of the board once.
pub proof fn lemma_all_cells(width: nat, height: nat)
    requires
        width >= 1,
    ensures
        all_cells(width, height).no_duplicates(),
        forall|p: (int, int)| #[trigger]
            all_cells(width, height).contains(p) <==> (0 <= p.0 < width && 0 <= p.1 < height),
{
    let all = all_cells(width, height);
    let w = width as int;
    let h = height as int;
    assert forall|i: int, j: int| 0 <= i < all.len() && 0 <= j < all.len() && i != j implies all[i] != all[j] by {
        lemma_index_split(i, w, h);
        lemma_index_split(j, w, h);
    }
    assert forall|p: (int, int)| #[trigger] all.contains(p) <==> (0 <= p.0 < width && 0 <= p.1 < height) by {
        if all.contains(p) {
            let i = choose|i: int| 0 <= i < all.len() && all[i] == p;
            lemma_index_split(i, w, h);
        }
        if 0 <= p.0 < width && 0 <= p.1 < height {
            lemma_index_in_range(p.0, p.1, w, h);
            assert(all[p.1 * w + p.0] == p);
        }
    }
}

/// A selection from a list without repeats has no repeats.
pub proof fn lemma_filter_no_duplicates<A>(s: Seq<A>, pred: spec_fn(A) -> bool)
    requires
        s.no_duplicates(),
    ensures
        s.filter(pred).no_duplicates(),
    decreases s.len(),
{
    if s.len() == 0 {
        assert(s.filter(pred).len() <= s.len()) by {
            s.lemma_filter_len(pred);
        }
    } else {
        let front = s.drop_last();
        let last = s.last();
        assert(s =~= front.push(last));
        lemma_filter_no_duplicates(front, pred);
        let kept = front.filter(pred);
        front.lemma_filter_push(last, pred);
        assert(front.push(last).filter(pred) == if pred(last) {
            kept.push(last)
        } else {
            kept
        });
        if pred(last) {
            if kept.contains(last) {
                front.lemma_filter_contains_rev(pred, last);
                let i = choose|i: int| 0 <= i < front.len() && front[i] == last;
                assert(s[i] == s[s.len() - 1]);
            }
            assert forall|i: int, j: int|
                0 <= i < kept.push(last).len() && 0 <= j < kept.push(last).len() && i != j implies kept.push(last)[i]
                != kept.push(last)[j] by {
                if i < kept.len() {
                    assert(kept.contains(kept[i]));
                }
                if j < kept.len() {
                    assert(kept.contains(kept[j]));
                }
            }
        }
    }
}

/// The eligible cells are the cells of the board outside the safe zone,
/// each listed once.
pub proof fn lemma_eligible_cells(width: nat, height: nat, center: (int, int))
    requires
        width >= 1,
    ensures
        eligible_cells(width, height, center).no_duplicates(),
        forall|p: (int, int)| #[trigger]
            eligible_cells(width, height, center).contains(p) <==> (0 <= p.0 < width && 0 <= p.1 < height
                && !in_safe_zone(p, center)),
{
    let all = all_cells(width, height);
    let pred = outside_zone(center);
    let e = eligible_cells(width, height, center);
    lemma_all_cells(width, height);
    lemma_filter_no_duplicates(all, pred);
    assert forall|p: (int, int)| #[trigger] e.contains(p) <==> (0 <= p.0 < width && 0 <= p.1 < height
        && !in_safe_zone(p, center)) by {
        if e.contains(p) {
            all.lemma_filter_contains_rev(pred, p);
            let j = choose|j: int| 0 <= j < e.len() && e[j] == p;
            all.lemma_filter_pred(pred, j);
        }
        if all.contains(p) && !in_safe_zone(p, center) {
            let i = choose|i: int| 0 <= i < all.len() && all[i] == p;
            all.lemma_filter_contains(pred, i);
        }
    }
}

/// What is left to choose from after `k` draws: `k` cells fewer, all of
/// them from the list, and, if the list has no repeats, none twice and
/// none that was picked.
pub proof fn lemma_remaining(cells: Seq<(int, int)>, draws: Seq<usize>, k: nat)
    requires
        k <= draws.len(),
        forall|j: int| 0 <= j < k ==> (#[trigger] draws[j]) < cells.len() - j,
    ensures
        remaining(cells, draws, k).len() == cells.len() - k,
        forall|p: (int, int)| #[trigger] remaining(cells, draws, k).contains(p) ==> cells.contains(p),
        forall|j: int| 0 <= j < k ==> cells.contains(#[trigger] pick(cells, draws, j)),
        cells.no_duplicates() ==> remaining(cells, draws, k).no_duplicates(),
        cells.no_duplicates() ==> forall|j: int|
            0 <= j < k ==> !remaining(cells, draws, k).contains(#[trigger] pick(cells, draws, j)),
    decreases k,
{
    if k > 0 {
        let before = remaining(cells, draws, (k - 1) as nat);
        let now = remaining(cells, draws, k);
        let d = draws[k - 1] as int;
        lemma_remaining(cells, draws, (k - 1) as nat);
        assert(now == without(before, d));
        assert(0 <= d < before.len());
        assert forall|i: int| 0 <= i < now.len() implies before.contains(#[trigger] now[i]) by {
            if i == d {
                assert(now[i] == before[before.len() - 1]);
            } else {
                assert(now[i] == before[i]);
            }
        }
        assert forall|p: (int, int)| #[trigger] now.contains(p) implies cells.contains(p) by {
            let i = choose|i: int| 0 <= i < now.len() && now[i] == p;
            assert(before.contains(now[i]));
        }
        assert(pick(cells, draws, k - 1) == before[d]);
        assert(before.contains(before[d]));
        if cells.no_duplicates() {
            assert forall|i: int, j: int| 0 <= i < now.len() && 0 <= j < now.len() && i != j implies now[i]
                != now[j] by {
                let a = if i == d {
                    before.len() - 1
                } else {
                    i
                };
                let b = if j == d {
                    before.len() - 1
                } else {
                    j
                };
                assert(now[i] == before[a] && now[j] == before[b] && a != b);
            }
            assert forall|j: int| 0 <= j < k implies !now.contains(#[trigger] pick(cells, draws, j)) by {
                if now.contains(pick(cells, draws, j)) {
                    let i = choose|i: int| 0 <= i < now.len() && now[i] == pick(cells, draws, j);
                    assert(before.contains(now[i]));
                    if j == k - 1 {
                        let a = if i == d {
                            before.len() - 1
                        } else {
                            i
                        };
                        assert(now[i] == before[a] && a != d);
                    }
                }
            }
        }
    }
}

/// Valid draws pick `count` different cells, all of them from the list.
pub proof fn lemma_picks(cells: Seq<(int, int)>, draws: Seq<usize>, count: nat)
    requires
        valid_draws(cells.len(), draws, count),
        cells.no_duplicates(),
    ensures
        picks(cells, draws, count).no_duplicates(),
        forall|p: (int, int)| #[trigger] picks(cells, draws, count).contains(p) ==> cells.contains(p),
        picks(cells, draws, count).to_set().finite(),
        picks(cells, draws, count).to_set().len() == count,
{
    let chosen = picks(cells, draws, count);
    lemma_remaining(cells, draws, count);
    assert forall|i: int, j: int| 0 <= i < j < chosen.len() implies chosen[i] != chosen[j] by {
        lemma_remaining(cells, draws, j as nat);
        assert(remaining(cells, draws, j as nat).contains(pick(cells, draws, j)));
    }
    assert forall|p: (int, int)| #[trigger] chosen.contains(p) implies cells.contains(p) by {
        let k = choose|k: int| 0 <= k < chosen.len() && chosen[k] == p;
        assert(cells.contains(pick(cells, draws, k)));
    }
    chosen.unique_seq_to_set();
    vstd::seq_lib::seq_to_set_is_finite(chosen);
}

} // verus!
