//! Opening cells: the flood fill, run with a work list.

use vstd::prelude::*;
use crate::board::Board;
use crate::cell::{positions, Cell, ChangedCell};
use crate::grid::{adjacent, lemma_same_grid, Grid};
use crate::rowmajor::lemma_distinct_cells_bounded;

verus! {

/// The neighbours of `c` have been dealt with: if no mine lies around `c`,
/// each neighbour that could be opened is among `seen`.
spec fn settled(g0: Grid, seen: Seq<(int, int)>, c: (int, int)) -> bool {
    g0.mines_around(c.0, c.1) == 0 ==> forall|n: (int, int)|
        #[trigger] adjacent(c, n) && g0.can_open(n.0, n.1) ==> seen.contains(n)
}

/// A flood fill in progress.  It began on the grid `g0` at `start` and
/// has got to the grid `g`; `seen` lists the cells it has opened, `work`
/// those among them whose neighbours are still to be looked at, and
/// `current` is the one whose neighbours are being looked at.
spec fn flooding(
    g0: Grid,
    start: (int, int),
    g: Grid,
    seen: Seq<(int, int)>,
    work: Seq<(int, int)>,
    current: Option<(int, int)>,
) -> bool {
    &&& g0.wf()
    &&& !g0.pending
    &&& g.wf()
    &&& !g.pending
    &&& g.height() == g0.height()
    &&& g.width() == g0.width()
    &&& forall|x: int, y: int| #![trigger g.cell(x, y)]
        g0.in_bounds(x, y) ==> g.cell(x, y) == if seen.contains((x, y)) {
            g0.cell(x, y).opened()
        } else {
            g0.cell(x, y)
        }
    &&& seen.no_duplicates()
    &&& seen.len() >= 1
    &&& seen[0] == start
    &&& forall|i: int|
        0 <= i < seen.len() ==> g0.can_open((#[trigger] seen[i]).0, seen[i].1) && g0.reaches(start, seen[i])
    &&& forall|k: int| 0 <= k < work.len() ==> seen.contains(#[trigger] work[k])
    &&& forall|i: int|
        0 <= i < seen.len() ==> work.contains(#[trigger] seen[i]) || current == Some(seen[i]) || settled(
            g0,
            seen,
            seen[i],
        )
}

/// Opening cells moves no mine, so the counts of mines stay.
proof fn lemma_same_mines_around(g0: Grid, g: Grid, x: int, y: int)
    requires
        g.height() == g0.height(),
        g.width() == g0.width(),
        forall|x: int, y: int| #![trigger g.cell(x, y)]
            g0.in_bounds(x, y) ==> g.cell(x, y).is_mine == g0.cell(x, y).is_mine,
    ensures
        g.mines_around(x, y) == g0.mines_around(x, y),
{
    assert forall|a: int, b: int| g.mine_weight(a, b) == g0.mine_weight(a, b) by {
        if g0.in_bounds(a, b) {
            assert(g.cell(a, b).is_mine == g0.cell(a, b).is_mine);
        }
    }
}

/// The fill after its first cell has been opened.
proof fn lemma_flooding_start(g0: Grid, start: (int, int))
    requires
        g0.wf(),
        !g0.pending,
        g0.can_open(start.0, start.1),
    ensures
        flooding(
            g0,
            start,
            g0.with_cell(start.0, start.1, g0.cell(start.0, start.1).opened()),
            seq![start],
            seq![start],
            None,
        ),
{
    let g = g0.with_cell(start.0, start.1, g0.cell(start.0, start.1).opened());
    let seen = seq![start];
    assert(seen[0] == start);
    assert(g.rows[0].len() == g0.width());
    assert forall|x: int, y: int| #![trigger g.cell(x, y)]
        g0.in_bounds(x, y) implies g.cell(x, y) == if seen.contains((x, y)) {
        g0.cell(x, y).opened()
    } else {
        g0.cell(x, y)
    } by {
        if (x, y) != start {
            assert(!seen.contains((x, y)));
        }
    }
    g0.lemma_reaches_start(start);
    assert(seen.contains(start));
}

/// Taking the last cell off the work list makes it the current one.
proof fn lemma_flooding_pop(g0: Grid, start: (int, int), g: Grid, seen: Seq<(int, int)>, work: Seq<(int, int)>)
    requires
        flooding(g0, start, g, seen, work, None),
        work.len() > 0,
    ensures
        flooding(g0, start, g, seen, work.drop_last(), Some(work.last())),
        seen.contains(work.last()),
{
    let rest = work.drop_last();
    assert forall|i: int| 0 <= i < seen.len() implies rest.contains(#[trigger] seen[i]) || Some(work.last())
        == Some(seen[i]) || settled(g0, seen, seen[i]) by {
        if work.contains(seen[i]) && seen[i] != work.last() {
            let k = choose|k: int| 0 <= k < work.len() && work[k] == seen[i];
            assert(rest[k] == seen[i]);
        }
    }
    assert forall|k: int| 0 <= k < rest.len() implies seen.contains(#[trigger] rest[k]) by {
        assert(rest[k] == work[k]);
    }
}

/// Opening one more cell that the fill has reached, and putting it on
/// the work list.
proof fn lemma_flooding_push(
    g0: Grid,
    start: (int, int),
    g: Grid,
    seen: Seq<(int, int)>,
    work: Seq<(int, int)>,
    c: (int, int),
    n: (int, int),
)
    requires
        flooding(g0, start, g, seen, work, Some(c)),
        g.can_open(n.0, n.1),
        g0.reaches(start, n),
    ensures
        !seen.contains(n),
        g0.can_open(n.0, n.1),
        flooding(
            g0,
            start,
            g.with_cell(n.0, n.1, g.cell(n.0, n.1).opened()),
            seen.push(n),
            work.push(n),
            Some(c),
        ),
{
    broadcast use vstd::seq_lib::lemma_seq_contains_after_push;

    assert(g.cell(n.0, n.1) == if seen.contains(n) {
        g0.cell(n.0, n.1).opened()
    } else {
        g0.cell(n.0, n.1)
    });
    let g2 = g.with_cell(n.0, n.1, g.cell(n.0, n.1).opened());
    let seen2 = seen.push(n);
    let work2 = work.push(n);
    assert(g2.rows[0].len() == g.width());
    assert forall|x: int, y: int| #![trigger g2.cell(x, y)]
        g0.in_bounds(x, y) implies g2.cell(x, y) == if seen2.contains((x, y)) {
        g0.cell(x, y).opened()
    } else {
        g0.cell(x, y)
    } by {
        assert(g.cell(x, y) == if seen.contains((x, y)) {
            g0.cell(x, y).opened()
        } else {
            g0.cell(x, y)
        });
    }
    assert(seen2[0] == seen[0]);
    assert forall|i: int| 0 <= i < seen2.len() implies g0.can_open((#[trigger] seen2[i]).0, seen2[i].1)
        && g0.reaches(start, seen2[i]) by {
        if i < seen.len() {
            assert(seen2[i] == seen[i]);
        }
    }
    assert forall|k: int| 0 <= k < work2.len() implies seen2.contains(#[trigger] work2[k]) by {
        if k < work.len() {
            assert(work2[k] == work[k]);
        }
    }
    assert forall|i: int| 0 <= i < seen2.len() implies work2.contains(#[trigger] seen2[i]) || Some(c) == Some(
        seen2[i],
    ) || settled(g0, seen2, seen2[i]) by {
        if i < seen.len() {
            assert(seen2[i] == seen[i]);
            if settled(g0, seen, seen[i]) {
                assert(settled(g0, seen2, seen[i]));
            }
        }
    }
}

/// Once all neighbours of the current cell have been looked at, the fill
/// has no current cell.
proof fn lemma_flooding_settle(
    g0: Grid,
    start: (int, int),
    g: Grid,
    seen: Seq<(int, int)>,
    work: Seq<(int, int)>,
    c: (int, int),
)
    requires
        flooding(g0, start, g, seen, work, Some(c)),
        settled(g0, seen, c),
    ensures
        flooding(g0, start, g, seen, work, None),
        seen.len() <= g0.width() * g0.height(),
{
    assert forall|i: int| 0 <= i < seen.len() implies 0 <= (#[trigger] seen[i]).0 < g0.width() && 0 <= seen[i].1
        < g0.height() by {
        assert(g0.can_open(seen[i].0, seen[i].1));
    }
    lemma_distinct_cells_bounded(seen, g0.width() as int, g0.height() as int);
}

/// When the work list is empty the fill has opened exactly the cells
/// that it reaches from its start.
proof fn lemma_flooding_done(g0: Grid, start: (int, int), g: Grid, seen: Seq<(int, int)>)
    requires
        flooding(g0, start, g, seen, Seq::empty(), None),
    ensures
        seen.to_set() == g0.flood(start.0, start.1),
        g == g0.open_all(g0.flood(start.0, start.1)),
{
    let cells = seen.to_set();
    assert(seen.contains(seen[0]));
    assert forall|c: (int, int), n: (int, int)|
        cells.contains(c) && g0.mines_around(c.0, c.1) == 0 && #[trigger] adjacent(c, n) && g0.can_open(
            n.0,
            n.1,
        ) implies cells.contains(n) by {
        let i = choose|i: int| 0 <= i < seen.len() && seen[i] == c;
        assert(!Seq::<(int, int)>::empty().contains(seen[i]));
        assert(settled(g0, seen, seen[i]));
    }
    g0.lemma_flood_least(start.0, start.1, cells);
    assert forall|p: (int, int)| cells.contains(p) implies g0.flood(start.0, start.1).contains(p) by {
        let i = choose|i: int| 0 <= i < seen.len() && seen[i] == p;
        assert(g0.reaches(start, seen[i]));
    }
    assert(cells =~= g0.flood(start.0, start.1));
    g0.lemma_open_all(cells);
    assert forall|x: int, y: int| g.in_bounds(x, y) implies #[trigger] g.cell(x, y) == g0.open_all(cells).cell(
        x,
        y,
    ) by {
        assert(seen.to_set().contains((x, y)) == seen.contains((x, y)));
    }
    lemma_same_grid(g, g0.open_all(cells));
}

impl Board {
    /// Looks at the neighbour of `(cx, cy)` at offset `(dx, dy)`: if it is
    /// there and can be opened, opens it and notes it in both lists.
    fn visit(
        &mut self,
        cx: usize,
        cy: usize,
        dx: i8,
        dy: i8,
        changed: &mut Vec<ChangedCell>,
        work: &mut Vec<ChangedCell>,
        Ghost(g0): Ghost<Grid>,
        Ghost(start): Ghost<(int, int)>,
    )
        requires
            flooding(
                g0,
                start,
                old(self)@,
                positions(old(changed)@),
                positions(old(work)@),
                Some((cx as int, cy as int)),
            ),
            positions(old(changed)@).contains((cx as int, cy as int)),
            g0.mines_around(cx as int, cy as int) == 0,
            -1 <= dx <= 1,
            -1 <= dy <= 1,
            dx != 0 || dy != 0,
        ensures
            flooding(
                g0,
                start,
                final(self)@,
                positions(final(changed)@),
                positions(final(work)@),
                Some((cx as int, cy as int)),
            ),
            forall|p: (int, int)|
                positions(old(changed)@).contains(p) ==> #[trigger] positions(final(changed)@).contains(p),
            g0.can_open(cx + dx, cy + dy) ==> positions(final(changed)@).contains((cx + dx, cy + dy)),
            (final(changed)@.len() == old(changed)@.len() && final(work)@.len() == old(work)@.len()) || (
            final(changed)@.len() == old(changed)@.len() + 1 && final(work)@.len() == old(work)@.len() + 1),
    {
        broadcast use vstd::seq_lib::lemma_seq_contains_after_push;

        let ghost seen = positions(changed@);
        let ghost queue = positions(work@);
        let ghost c = (cx as int, cy as int);
        proof {
            let i = choose|i: int| 0 <= i < seen.len() && seen[i] == c;
            assert(g0.can_open(seen[i].0, seen[i].1) && g0.reaches(start, seen[i]));
        }
        match self.neighbour(cx, cy, dx, dy) {
            Some(p) => {
                let ghost n = (p.0 as int, p.1 as int);
                if self.can_open_cell(p.0, p.1) {
                    let here = self.cell(p.0, p.1);
                    let ghost before = self@;
                    proof {
                        assert(before.cell(n.0, n.1) == if seen.contains(n) {
                            g0.cell(n.0, n.1).opened()
                        } else {
                            g0.cell(n.0, n.1)
                        });
                        assert(adjacent(c, n));
                        g0.lemma_reaches_next(start, c, n);
                        lemma_flooding_push(g0, start, before, seen, queue, c, n);
                    }
                    self.set_cell(
                        p.0,
                        p.1,
                        Cell { is_open: true, is_mine: here.is_mine, is_flagged: here.is_flagged },
                    );
                    changed.push(ChangedCell { x: p.0, y: p.1 });
                    work.push(ChangedCell { x: p.0, y: p.1 });
                    proof {
                        assert(positions(changed@) =~= seen.push(n));
                        assert(positions(work@) =~= queue.push(n));
                    }
                } else {
                    proof {
                        assert(self@.cell(n.0, n.1) == if seen.contains(n) {
                            g0.cell(n.0, n.1).opened()
                        } else {
                            g0.cell(n.0, n.1)
                        });
                    }
                }
            },
            None => {},
        }
    }

    /// Opens the cell at `(x, y)` and, from every opened cell without a
    /// mine around it, its neighbours in turn.  Returns the opened cells.
    pub(crate) fn flood_open(&mut self, x: usize, y: usize) -> (changed: Vec<ChangedCell>)
        requires
            old(self)@.can_open(x as int, y as int),
            !old(self)@.pending,
        ensures
            final(self)@.wf(),
            final(self)@ == old(self)@.open_all(old(self)@.flood(x as int, y as int)),
            positions(changed@).no_duplicates(),
            positions(changed@).to_set() == old(self)@.flood(x as int, y as int),
    {
        let ghost g0 = self@;
        let ghost start = (x as int, y as int);
        proof {
            use_type_invariant(&*self);
            self.lemma_wf();
            lemma_flooding_start(g0, start);
        }
        let first = self.cell(x, y);
        self.set_cell(x, y, Cell { is_open: true, is_mine: first.is_mine, is_flagged: first.is_flagged });
        let mut changed: Vec<ChangedCell> = Vec::new();
        changed.push(ChangedCell { x, y });
        let mut work: Vec<ChangedCell> = Vec::new();
        work.push(ChangedCell { x, y });
        proof {
            assert(positions(changed@) =~= seq![start]);
            assert(positions(work@) =~= seq![start]);
            lemma_distinct_cells_bounded(positions(changed@), g0.width() as int, g0.height() as int);
        }
        while work.len() > 0
            invariant
                flooding(g0, start, self@, positions(changed@), positions(work@), None),
                changed@.len() <= g0.width() * g0.height(),
            decreases g0.width() * g0.height() - changed@.len(), work@.len(),
        {
            let ghost seen0 = positions(changed@);
            let ghost queue0 = positions(work@);
            let c = work.pop().unwrap();
            let ghost cur = (c.x as int, c.y as int);
            proof {
                assert(positions(work@) =~= queue0.drop_last());
                assert(cur == queue0.last());
                lemma_flooding_pop(g0, start, self@, seen0, queue0);
                let i = choose|i: int| 0 <= i < seen0.len() && seen0[i] == cur;
                assert(g0.can_open(seen0[i].0, seen0[i].1));
                lemma_same_mines_around(g0, self@, cur.0, cur.1);
            }
            if self.mines_near(c.x, c.y) == 0 {
                self.visit(c.x, c.y, -1, -1, &mut changed, &mut work, Ghost(g0), Ghost(start));
                self.visit(c.x, c.y, 0, -1, &mut changed, &mut work, Ghost(g0), Ghost(start));
                self.visit(c.x, c.y, 1, -1, &mut changed, &mut work, Ghost(g0), Ghost(start));
                self.visit(c.x, c.y, -1, 0, &mut changed, &mut work, Ghost(g0), Ghost(start));
                self.visit(c.x, c.y, 1, 0, &mut changed, &mut work, Ghost(g0), Ghost(start));
                self.visit(c.x, c.y, -1, 1, &mut changed, &mut work, Ghost(g0), Ghost(start));
                self.visit(c.x, c.y, 0, 1, &mut changed, &mut work, Ghost(g0), Ghost(start));
                self.visit(c.x, c.y, 1, 1, &mut changed, &mut work, Ghost(g0), Ghost(start));
                proof {
                    let seen = positions(changed@);
                    assert forall|n: (int, int)|
                        #[trigger] adjacent(cur, n) && g0.can_open(n.0, n.1) implies seen.contains(n) by {
                        let ex = n.0 - cur.0;
                        let ey = n.1 - cur.1;
                        assert(n == (cur.0 + ex, cur.1 + ey));
                    }
                }
            }
            proof {
                lemma_flooding_settle(g0, start, self@, positions(changed@), positions(work@), cur);
            }
        }
        proof {
            assert(positions(work@) =~= Seq::empty());
            lemma_flooding_done(g0, start, self@, positions(changed@));
        }
        changed
    }
}

} // verus!
