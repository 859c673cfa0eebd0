//! What a reveal opens: the cells that a flood fill reaches.

use vstd::prelude::*;
use crate::grid::{adjacent, Grid};

verus! {

impl Grid {
    /// `path` is a way the flood fill can take: every cell on it can be
    /// opened, each one touches the next, and each one but the last has no
    /// mine around it.
    pub open spec fn cascade(self, path: Seq<(int, int)>) -> bool {
        &&& path.len() >= 1
        &&& forall|i: int| 0 <= i < path.len() ==> self.can_open((#[trigger] path[i]).0, path[i].1)
        &&& forall|i: int|
            0 <= i < path.len() - 1 ==> self.mines_around((#[trigger] path[i]).0, path[i].1) == 0 && adjacent(
                path[i],
                path[i + 1],
            )
    }

    /// The flood fill that starts at `from` gets to `to`.
    pub open spec fn reaches(self, from: (int, int), to: (int, int)) -> bool {
        exists|path: Seq<(int, int)>| #[trigger] self.cascade(path) && path[0] == from && path.last() == to
    }

    /// All cells that the flood fill from `(x, y)` gets to.
    pub open spec fn flood(self, x: int, y: int) -> Set<(int, int)> {
        Set::new(|p: (int, int)| self.reaches((x, y), p))
    }

    /// The cells that a reveal at `(x, y)` opens: none if the cell cannot
    /// be opened, the cell alone if it holds a mine, and else all that the
    /// flood fill from it gets to.
    pub open spec fn opened_by(self, x: int, y: int) -> Set<(int, int)> {
        if !self.can_open(x, y) {
            Set::empty()
        } else if self.cell(x, y).is_mine {
            set![(x, y)]
        } else {
            self.flood(x, y)
        }
    }

    /// The grid with the cells of `cells` opened.
    pub open spec fn open_all(self, cells: Set<(int, int)>) -> Grid {
        Grid {
            rows: Seq::new(
                self.height(),
                |y: int|
                    Seq::new(
                        self.width(),
                        |x: int|
                            if cells.contains((x, y)) {
                                self.cell(x, y).opened()
                            } else {
                                self.cell(x, y)
                            },
                    ),
            ),
            pending: false,
        }
    }

    /// The grid after a reveal at `(x, y)`, the mines being laid.
    pub open spec fn reveal_at(self, x: int, y: int) -> Grid {
        self.open_all(self.opened_by(x, y))
    }

    /// `path` leads through cells that can be opened and have no mine
    /// around them, each touching the next.
    pub open spec fn zero_path(self, path: Seq<(int, int)>) -> bool {
        &&& path.len() >= 1
        &&& forall|i: int|
            0 <= i < path.len() ==> self.can_open((#[trigger] path[i]).0, path[i].1) && self.mines_around(
                path[i].0,
                path[i].1,
            ) == 0
        &&& forall|i: int| 0 <= i < path.len() - 1 ==> adjacent(#[trigger] path[i], path[i + 1])
    }

    /// The region of `(x, y)`: the cells that are linked to it through
    /// cells that can be opened and have no mine around them.
    pub open spec fn zero_region(self, x: int, y: int) -> Set<(int, int)> {
        Set::new(
            |z: (int, int)|
                exists|path: Seq<(int, int)>| #[trigger] self.zero_path(path) && path[0] == (x, y) && path.last() == z,
        )
    }

    /// The cells that can be opened and touch a cell of `region`.
    pub open spec fn ring(self, region: Set<(int, int)>) -> Set<(int, int)> {
        Set::new(
            |p: (int, int)|
                self.can_open(p.0, p.1) && exists|z: (int, int)| region.contains(z) && #[trigger] adjacent(z, p),
        )
    }

    /// What opening does to the cells: those of `cells`, which could all
    /// be opened, are open afterwards, and nothing else has changed.
    pub proof fn lemma_open_all(self, cells: Set<(int, int)>)
        requires
            self.wf(),
            forall|p: (int, int)| #[trigger] cells.contains(p) ==> self.can_open(p.0, p.1),
        ensures
            self.open_all(cells).wf(),
            !self.open_all(cells).pending,
            self.open_all(cells).height() == self.height(),
            self.open_all(cells).width() == self.width(),
            forall|a: int, b: int| #![trigger self.open_all(cells).cell(a, b)]
                self.in_bounds(a, b) ==> self.open_all(cells).cell(a, b) == if cells.contains((a, b)) {
                    self.cell(a, b).opened()
                } else {
                    self.cell(a, b)
                },
    {
        let h = self.open_all(cells);
        assert(h.rows[0].len() == self.width());
        assert forall|a: int, b: int| self.in_bounds(a, b) implies !((#[trigger] h.cell(a, b)).is_open && h.cell(
            a,
            b,
        ).is_flagged) by {
            assert(!(self.cell(a, b).is_open && self.cell(a, b).is_flagged));
            if cells.contains((a, b)) {
                assert(self.can_open(a, b));
            }
        }
    }

    /// What a reveal does to the cells: it opens those of `opened_by`,
    /// each of which could be opened, and changes nothing else.
    pub proof fn lemma_reveal_at(self, x: int, y: int)
        requires
            self.wf(),
        ensures
            self.reveal_at(x, y).wf(),
            !self.reveal_at(x, y).pending,
            self.reveal_at(x, y).height() == self.height(),
            self.reveal_at(x, y).width() == self.width(),
            forall|p: (int, int)| #[trigger] self.opened_by(x, y).contains(p) ==> self.can_open(p.0, p.1),
            forall|a: int, b: int| #![trigger self.reveal_at(x, y).cell(a, b)]
                self.in_bounds(a, b) ==> self.reveal_at(x, y).cell(a, b) == if self.opened_by(x, y).contains(
                    (a, b),
                ) {
                    self.cell(a, b).opened()
                } else {
                    self.cell(a, b)
                },
    {
        assert forall|p: (int, int)| #[trigger] self.opened_by(x, y).contains(p) implies self.can_open(p.0, p.1) by {
            if self.can_open(x, y) && !self.cell(x, y).is_mine {
                self.lemma_reached_can_open((x, y), p);
            }
        }
        self.lemma_open_all(self.opened_by(x, y));
    }

    /// The flood fill gets to its own start.
    pub proof fn lemma_reaches_start(self, p: (int, int))
        requires
            self.can_open(p.0, p.1),
        ensures
            self.reaches(p, p),
    {
        let path = seq![p];
        assert(path[0] == p);
        assert(self.cascade(path));
    }

    /// From a reached cell without mines around it the flood fill goes on
    /// to every neighbour that can be opened.
    pub proof fn lemma_reaches_next(self, from: (int, int), c: (int, int), n: (int, int))
        requires
            self.reaches(from, c),
            self.mines_around(c.0, c.1) == 0,
            adjacent(c, n),
            self.can_open(n.0, n.1),
        ensures
            self.reaches(from, n),
    {
        let path = choose|path: Seq<(int, int)>| #[trigger]
            self.cascade(path) && path[0] == from && path.last() == c;
        let longer = path.push(n);
        assert forall|i: int| 0 <= i < longer.len() implies self.can_open((#[trigger] longer[i]).0, longer[i].1) by {
            if i < path.len() {
                assert(longer[i] == path[i]);
            }
        }
        assert forall|i: int| 0 <= i < longer.len() - 1 implies self.mines_around((#[trigger] longer[i]).0, longer[i].1)
            == 0 && adjacent(longer[i], longer[i + 1]) by {
            assert(longer[i] == path[i]);
            if i < path.len() - 1 {
                assert(longer[i + 1] == path[i + 1]);
            }
        }
        assert(self.cascade(longer));
        assert(longer[0] == from && longer.last() == n);
    }

    /// A set of cells is closed under the flood fill's step.
    pub open spec fn flood_closed(self, cells: Set<(int, int)>) -> bool {
        forall|c: (int, int), n: (int, int)|
            cells.contains(c) && self.mines_around(c.0, c.1) == 0 && #[trigger] adjacent(c, n) && self.can_open(
                n.0,
                n.1,
            ) ==> cells.contains(n)
    }

    /// A closed set that holds the first cell of a path holds all of it.
    proof fn lemma_path_inside(self, path: Seq<(int, int)>, cells: Set<(int, int)>, i: int)
        requires
            self.cascade(path),
            self.flood_closed(cells),
            cells.contains(path[0]),
            0 <= i < path.len(),
        ensures
            cells.contains(path[i]),
        decreases i,
    {
        if i > 0 {
            self.lemma_path_inside(path, cells, i - 1);
            assert(adjacent(path[i - 1], path[i]));
        }
    }

    /// The flood fill stays inside every closed set that holds its start.
    pub proof fn lemma_flood_least(self, x: int, y: int, cells: Set<(int, int)>)
        requires
            self.flood_closed(cells),
            cells.contains((x, y)),
        ensures
            self.flood(x, y).subset_of(cells),
    {
        assert forall|p: (int, int)| self.flood(x, y).contains(p) implies cells.contains(p) by {
            let path = choose|path: Seq<(int, int)>| #[trigger]
                self.cascade(path) && path[0] == (x, y) && path.last() == p;
            self.lemma_path_inside(path, cells, path.len() - 1);
        }
    }

    /// The flood fill itself is closed under its step.
    pub proof fn lemma_flood_closed(self, x: int, y: int)
        ensures
            self.flood_closed(self.flood(x, y)),
    {
        assert forall|c: (int, int), n: (int, int)|
            self.flood(x, y).contains(c) && self.mines_around(c.0, c.1) == 0 && #[trigger] adjacent(c, n)
                && self.can_open(n.0, n.1) implies self.flood(x, y).contains(n) by {
            self.lemma_reaches_next((x, y), c, n);
        }
    }

    /// Every cell that the flood fill reaches can be opened.
    pub proof fn lemma_reached_can_open(self, from: (int, int), to: (int, int))
        requires
            self.reaches(from, to),
        ensures
            self.can_open(from.0, from.1),
            self.can_open(to.0, to.1),
    {
        let path = choose|path: Seq<(int, int)>| #[trigger]
            self.cascade(path) && path[0] == from && path.last() == to;
        assert(self.can_open(path[0].0, path[0].1));
        assert(self.can_open(path[path.len() - 1].0, path[path.len() - 1].1));
    }

    /// A cell has no mine around it exactly if none of its neighbours
    /// holds one.
    pub proof fn lemma_no_mines_around(self, x: int, y: int)
        ensures
            self.mines_around(x, y) >= 0,
            self.mines_around(x, y) == 0 <==> forall|n: (int, int)| #[trigger]
                adjacent((x, y), n) ==> !self.mined(n.0, n.1),
    {
        if self.mines_around(x, y) == 0 {
            assert forall|n: (int, int)| #[trigger] adjacent((x, y), n) implies !self.mined(n.0, n.1) by {
                let dx = n.0 - x;
                let dy = n.1 - y;
                assert(self.mine_weight(x + dx, y + dy) == 0);
            }
        } else {
            if self.mine_weight(x - 1, y - 1) != 0 {
                assert(adjacent((x, y), (x - 1, y - 1)));
            } else if self.mine_weight(x, y - 1) != 0 {
                assert(adjacent((x, y), (x, y - 1)));
            } else if self.mine_weight(x + 1, y - 1) != 0 {
                assert(adjacent((x, y), (x + 1, y - 1)));
            } else if self.mine_weight(x - 1, y) != 0 {
                assert(adjacent((x, y), (x - 1, y)));
            } else if self.mine_weight(x + 1, y) != 0 {
                assert(adjacent((x, y), (x + 1, y)));
            } else if self.mine_weight(x - 1, y + 1) != 0 {
                assert(adjacent((x, y), (x - 1, y + 1)));
            } else if self.mine_weight(x, y + 1) != 0 {
                assert(adjacent((x, y), (x, y + 1)));
            } else {
                assert(adjacent((x, y), (x + 1, y + 1)));
            }
        }
    }

    /// The flood fill from a cell without a mine reaches no mine.
    pub proof fn lemma_flood_avoids_mines(self, x: int, y: int, p: (int, int))
        requires
            !self.mined(x, y),
            self.flood(x, y).contains(p),
        ensures
            !self.mined(p.0, p.1),
    {
        let path = choose|path: Seq<(int, int)>| #[trigger]
            self.cascade(path) && path[0] == (x, y) && path.last() == p;
        let k = path.len() - 1;
        if k > 0 {
            let c = path[k - 1];
            assert(adjacent(c, path[k]));
            self.lemma_no_mines_around(c.0, c.1);
        }
    }
}

} // verus!
