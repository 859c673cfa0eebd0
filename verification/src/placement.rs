//! Laying the mines on the first reveal.

use vstd::prelude::*;
use crate::board::Board;
use crate::cell::{BoardError, Cell};
use crate::grid::lemma_same_grid;
use crate::layout::{
    all_cells, lemma_eligible_cells, lemma_lay_mines, lemma_remaining, outside_zone, pick, picks, remaining,
    valid_draws,
};
use crate::rowmajor::lemma_index_in_range;

verus! {

/// The positions that a list of cells names, in its order.
pub open spec fn points(cells: Seq<(usize, usize)>) -> Seq<(int, int)> {
    cells.map_values(|p: (usize, usize)| (p.0 as int, p.1 as int))
}

/// Says whether `draws` can pick `count` out of `total` cells.
pub(crate) fn draws_fit(draws: &[usize], count: usize, total: usize) -> (b: bool)
    ensures
        b == valid_draws(total as nat, draws@, count as nat),
{
    if draws.len() != count || count > total {
        return false;
    }
    let mut k: usize = 0;
    while k < count
        invariant
            k <= count,
            count <= total,
            draws@.len() == count,
            forall|j: int| 0 <= j < k ==> (#[trigger] draws@[j]) < total - j,
        decreases count - k,
    {
        if draws[k] >= total - k {
            return false;
        }
        k += 1;
    }
    true
}

impl Board {
    /// Lists the cells that may take a mine when the first reveal is at
    /// `(x, y)`: all but that cell and its neighbours, row by row.
    pub(crate) fn eligible_cells(&self, x: usize, y: usize) -> (list: Vec<(usize, usize)>)
        requires
            self@.in_bounds(x as int, y as int),
        ensures
            points(list@) == self@.eligible(x as int, y as int),
    {
        let w: usize = self.width();
        let h: usize = self.height();
        let ghost all = all_cells(w as nat, h as nat);
        let ghost pred = outside_zone((x as int, y as int));
        let mut list: Vec<(usize, usize)> = Vec::new();
        let mut cy: usize = 0;
        proof {
            assert(0 <= (w as int) * (h as int)) by (nonlinear_arith)
                requires
                    0 <= w as int,
                    0 <= h as int,
            ;
            all.take(0).lemma_filter_len(pred);
            assert(points(list@) =~= all.take(0).filter(pred));
        }
        while cy < h
            invariant
                cy <= h,
                1 <= w,
                x < w,
                y < h,
                all == all_cells(w as nat, h as nat),
                pred == outside_zone((x as int, y as int)),
                0 <= cy * w <= w * h,
                points(list@) == all.take(cy * w).filter(pred),
            decreases h - cy,
        {
            let mut cx: usize = 0;
            while cx < w
                invariant
                    cx <= w,
                    cy < h,
                    x < w,
                    y < h,
                    all == all_cells(w as nat, h as nat),
                    pred == outside_zone((x as int, y as int)),
                    0 <= cy * w + cx <= w * h,
                    points(list@) == all.take(cy * w + cx).filter(pred),
                decreases w - cx,
            {
                let ghost i = cy * w + cx;
                let ghost before = points(list@);
                proof {
                    lemma_index_in_range(cx as int, cy as int, w as int, h as int);
                    assert(all[i] == (cx as int, cy as int));
                    assert(all.take(i + 1) =~= all.take(i).push(all[i]));
                    all.take(i).lemma_filter_push(all[i], pred);
                }
                let near_x = cx <= x + 1 && x <= cx + 1;
                let near_y = cy <= y + 1 && y <= cy + 1;
                if !(near_x && near_y) {
                    list.push((cx, cy));
                    proof {
                        assert(points(list@) =~= before.push((cx as int, cy as int)));
                    }
                }
                cx += 1;
            }
            proof {
                assert((cy + 1) * w == cy * w + w) by (nonlinear_arith);
            }
            cy += 1;
        }
        proof {
            assert(cy * w == w * h) by (nonlinear_arith)
                requires
                    cy == h,
            ;
            assert(all.take(cy * w) =~= all);
        }
        list
    }

    /// Lays a mine on each of the `count` cells that `draws` picks out of
    /// `eligible`.
    pub(crate) fn lay_picks(&mut self, eligible: Vec<(usize, usize)>, draws: &[usize], count: usize)
        requires
            valid_draws(eligible@.len(), draws@, count as nat),
            forall|i: int|
                0 <= i < eligible@.len() ==> old(self)@.in_bounds(
                    (#[trigger] points(eligible@)[i]).0,
                    points(eligible@)[i].1,
                ),
        ensures
            final(self)@.wf(),
            final(self)@ == old(self)@.lay_mines(picks(points(eligible@), draws@, count as nat).to_set()),
    {
        let ghost g0 = self@;
        let ghost cells = points(eligible@);
        proof {
            use_type_invariant(&*self);
            self.lemma_wf();
        }
        let mut rest = eligible;
        self.begin_play();
        let mut k: usize = 0;
        proof {
            assert(g0.rows[0].len() == self@.rows[0].len());
            assert(picks(cells, draws@, 0) =~= Seq::empty());
        }
        while k < count
            invariant
                k <= count,
                g0.wf(),
                valid_draws(cells.len(), draws@, count as nat),
                points(rest@) == remaining(cells, draws@, k as nat),
                forall|i: int| 0 <= i < cells.len() ==> g0.in_bounds((#[trigger] cells[i]).0, cells[i].1),
                self@.wf(),
                !self@.pending,
                self@.height() == g0.height(),
                self@.width() == g0.width(),
                forall|x: int, y: int| #![trigger self@.cell(x, y)]
                    g0.in_bounds(x, y) ==> self@.cell(x, y) == if picks(cells, draws@, k as nat).contains((x, y)) {
                        g0.cell(x, y).mined()
                    } else {
                        g0.cell(x, y)
                    },
            decreases count - k,
        {
            broadcast use vstd::seq_lib::lemma_seq_contains_after_push;

            proof {
                lemma_remaining(cells, draws@, k as nat);
                lemma_remaining(cells, draws@, (k + 1) as nat);
            }
            let ghost left = points(rest@);
            let d: usize = draws[k];
            let p = rest.swap_remove(d);
            let ghost n = (p.0 as int, p.1 as int);
            proof {
                assert(n == left[d as int]);
                assert(n == pick(cells, draws@, k as int));
                assert(points(rest@) =~= remaining(cells, draws@, (k + 1) as nat));
                assert(cells.contains(n));
                let i = choose|i: int| 0 <= i < cells.len() && cells[i] == n;
                assert(g0.in_bounds(cells[i].0, cells[i].1));
            }
            let here = self.cell(p.0, p.1);
            let ghost before = self@;
            self.set_cell(p.0, p.1, Cell { is_open: here.is_open, is_mine: true, is_flagged: here.is_flagged });
            proof {
                let chosen = picks(cells, draws@, k as nat);
                let chosen2 = picks(cells, draws@, (k + 1) as nat);
                assert(chosen2 =~= chosen.push(n));
                assert(self@.rows[0].len() == before.width());
                assert forall|x: int, y: int| #![trigger self@.cell(x, y)] g0.in_bounds(x, y) implies self@.cell(x, y)
                    == if chosen2.contains((x, y)) {
                    g0.cell(x, y).mined()
                } else {
                    g0.cell(x, y)
                } by {
                    assert(before.cell(x, y) == if chosen.contains((x, y)) {
                        g0.cell(x, y).mined()
                    } else {
                        g0.cell(x, y)
                    });
                }
            }
            k += 1;
        }
        proof {
            let chosen = picks(cells, draws@, count as nat);
            lemma_lay_mines(g0, chosen.to_set());
            assert forall|x: int, y: int| self@.in_bounds(x, y) implies #[trigger] self@.cell(x, y) == g0.lay_mines(
                chosen.to_set(),
            ).cell(x, y) by {
                assert(chosen.to_set().contains((x, y)) == chosen.contains((x, y)));
            }
            lemma_same_grid(self@, g0.lay_mines(chosen.to_set()));
        }
    }

    /// Lays `mines_count` mines where `draws` says, away from the first
    /// reveal at `(first_x, first_y)`.  On a board that has its mines
    /// nothing happens.
    pub(crate) fn place_mines(
        &mut self,
        mines_count: usize,
        first_x: usize,
        first_y: usize,
        draws: &[usize],
    ) -> (r: Result<(), BoardError>)
        requires
            old(self)@.in_bounds(first_x as int, first_y as int),
        ensures
            final(self)@.wf(),
            match r {
                Ok(_) => {
                    &&& old(self)@.open_error(first_x as int, first_y as int, mines_count as nat, draws@) is None
                    &&& final(self)@ == old(self)@.seeded(first_x as int, first_y as int, mines_count as nat, draws@)
                },
                Err(e) => {
                    &&& old(self)@.open_error(first_x as int, first_y as int, mines_count as nat, draws@) == Some(e)
                    &&& final(self)@ == old(self)@
                },
            },
    {
        proof {
            use_type_invariant(&*self);
            self.lemma_wf();
        }
        if !self.is_pending() {
            return Ok(());
        }
        let eligible = self.eligible_cells(first_x, first_y);
        if mines_count > eligible.len() {
            return Err(BoardError::TooManyMines);
        }
        if !draws_fit(draws, mines_count, eligible.len()) {
            return Err(BoardError::InvalidDraws);
        }
        proof {
            lemma_eligible_cells(self@.width(), self@.height(), (first_x as int, first_y as int));
            assert forall|i: int| 0 <= i < eligible@.len() implies self@.in_bounds(
                (#[trigger] points(eligible@)[i]).0,
                points(eligible@)[i].1,
            ) by {
                assert(points(eligible@).contains(points(eligible@)[i]));
            }
        }
        self.lay_picks(eligible, draws, mines_count);
        Ok(())
    }
}

} // verus!
