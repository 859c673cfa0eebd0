//! What holds of every game: laws that relate the operations of a board,
//! stated over its model and proved.

use vstd::prelude::*;
use crate::grid::{adjacent, lemma_same_grid, Grid};
use crate::layout::{in_safe_zone, lemma_eligible_cells, lemma_lay_mines, lemma_picks, picks};

verus! {

/// The grid after a run of reveals on a board that has its mines, one at
/// each cell of `moves` in turn.
pub open spec fn play(g: Grid, moves: Seq<(int, int)>) -> Grid
    decreases moves.len(),
{
    if moves.len() == 0 {
        g
    } else {
        play(g, moves.drop_last()).reveal_at(moves.last().0, moves.last().1)
    }
}

/// A board that was just created holds blank cells only, and is neither
/// won nor lost.
pub proof fn law_new_board(width: nat, height: nat)
    requires
        width >= 1,
        height >= 1,
    ensures
        Grid::blank(width, height).wf(),
        Grid::blank(width, height).width() == width,
        Grid::blank(width, height).height() == height,
        forall|x: int, y: int|
            Grid::blank(width, height).in_bounds(x, y) ==> #[trigger] Grid::blank(width, height).cell(x, y)
                == crate::cell::Cell::blank(),
        !Grid::blank(width, height).game_clear(),
        !Grid::blank(width, height).game_over(),
{
    let g = Grid::blank(width, height);
    assert(g.rows[0].len() == width);
    assert(g.in_bounds(0, 0));
    assert(!g.cell(0, 0).is_mine && !g.cell(0, 0).is_open);
}

/// The first reveal lays exactly the mines that were asked for, none of
/// them on the revealed cell or next to it.
pub proof fn law_first_reveal_mines(g: Grid, x: int, y: int, count: nat, draws: Seq<usize>)
    requires
        g.wf(),
        g.pending,
        g.open_error(x, y, count, draws) is None,
    ensures
        g.open_cell(x, y, count, draws).mines() == picks(g.eligible(x, y), draws, count).to_set(),
        g.open_cell(x, y, count, draws).mines().finite(),
        g.open_cell(x, y, count, draws).mines().len() == count,
        forall|p: (int, int)| #[trigger]
            g.open_cell(x, y, count, draws).mines().contains(p) ==> !in_safe_zone(p, (x, y)),
{
    let cells = g.eligible(x, y);
    let chosen = picks(cells, draws, count);
    let laid = g.seeded(x, y, count, draws);
    let after = g.open_cell(x, y, count, draws);
    lemma_eligible_cells(g.width(), g.height(), (x, y));
    lemma_picks(cells, draws, count);
    lemma_lay_mines(g, chosen.to_set());
    laid.lemma_reveal_at(x, y);
    assert forall|p: (int, int)| after.mines().contains(p) <==> chosen.to_set().contains(p) by {
        if chosen.contains(p) {
            assert(cells.contains(p));
        }
        if g.in_bounds(p.0, p.1) {
            assert(after.cell(p.0, p.1).is_mine == laid.cell(p.0, p.1).is_mine);
            assert(laid.cell(p.0, p.1).is_mine == (chosen.to_set().contains(p) || g.cell(p.0, p.1).is_mine));
            assert(!g.cell(p.0, p.1).is_mine);
        }
    }
    assert(after.mines() =~= chosen.to_set());
    assert forall|p: (int, int)| #[trigger] after.mines().contains(p) implies !in_safe_zone(p, (x, y)) by {
        assert(chosen.contains(p));
        assert(cells.contains(p));
    }
}

/// The first reveal never loses the game: the revealed cell holds no
/// mine, and no cell that it opens does.
pub proof fn law_first_reveal_is_safe(g: Grid, x: int, y: int, count: nat, draws: Seq<usize>)
    requires
        g.wf(),
        g.pending,
        g.open_error(x, y, count, draws) is None,
    ensures
        g.open_cell(x, y, count, draws).wf(),
        !g.open_cell(x, y, count, draws).pending,
        !g.open_cell(x, y, count, draws).mined(x, y),
        !g.open_cell(x, y, count, draws).game_over(),
        !g.cell(x, y).is_flagged ==> g.open_cell(x, y, count, draws).cell(x, y).is_open,
{
    let cells = g.eligible(x, y);
    let chosen = picks(cells, draws, count);
    let laid = g.seeded(x, y, count, draws);
    let after = g.open_cell(x, y, count, draws);
    law_first_reveal_mines(g, x, y, count, draws);
    lemma_lay_mines(g, chosen.to_set());
    laid.lemma_reveal_at(x, y);
    assert(in_safe_zone((x, y), (x, y)));
    assert(!after.mines().contains((x, y)));
    assert(!laid.cell(x, y).is_mine) by {
        assert(after.cell(x, y).is_mine == laid.cell(x, y).is_mine);
    }
    assert forall|a: int, b: int| after.in_bounds(a, b) implies !((#[trigger] after.cell(a, b)).is_open
        && after.cell(a, b).is_mine) by {
        assert(!g.cell(a, b).is_open);
        assert(laid.cell(a, b).is_open == g.cell(a, b).is_open);
        if laid.opened_by(x, y).contains((a, b)) {
            laid.lemma_flood_avoids_mines(x, y, (a, b));
        }
    }
    if !g.cell(x, y).is_flagged {
        assert(laid.can_open(x, y));
        laid.lemma_reaches_start((x, y));
        assert(laid.opened_by(x, y).contains((x, y)));
    }
}

/// A reveal at a cell without a mine around it opens the region of such
/// cells that it lies in and the cells that touch the region, and no
/// others; a reveal at a cell with a mine around it opens that cell alone.
/// (Cells that are open or flagged already take no part.)
pub proof fn law_flood_shape(g: Grid, x: int, y: int)
    requires
        g.can_open(x, y),
    ensures
        g.mines_around(x, y) == 0 ==> g.flood(x, y) == g.zero_region(x, y).union(g.ring(g.zero_region(x, y))),
        g.mines_around(x, y) != 0 ==> g.flood(x, y) == set![(x, y)],
{
    let start = (x, y);
    g.lemma_reaches_start(start);
    if g.mines_around(x, y) == 0 {
        let region = g.zero_region(x, y);
        let both = region.union(g.ring(region));
        assert forall|z: (int, int)| region.contains(z) implies g.reaches(start, z) && g.mines_around(z.0, z.1)
            == 0 by {
            let path = choose|path: Seq<(int, int)>| #[trigger]
                g.zero_path(path) && path[0] == start && path.last() == z;
            assert(g.cascade(path));
            assert(g.mines_around(path[path.len() - 1].0, path[path.len() - 1].1) == 0);
        }
        assert forall|p: (int, int)| g.flood(x, y).contains(p) <==> both.contains(p) by {
            if g.flood(x, y).contains(p) {
                let path = choose|path: Seq<(int, int)>| #[trigger]
                    g.cascade(path) && path[0] == start && path.last() == p;
                if g.mines_around(p.0, p.1) == 0 {
                    assert forall|i: int| 0 <= i < path.len() implies g.mines_around(
                        (#[trigger] path[i]).0,
                        path[i].1,
                    ) == 0 by {
                        if i == path.len() - 1 {
                            assert(path[i] == p);
                        }
                    }
                    assert(g.zero_path(path));
                    assert(region.contains(p));
                } else {
                    assert(path.len() >= 2);
                    let front = path.drop_last();
                    let z = front.last();
                    assert forall|i: int| 0 <= i < front.len() implies g.can_open((#[trigger] front[i]).0, front[i].1)
                        && g.mines_around(front[i].0, front[i].1) == 0 by {
                        assert(front[i] == path[i]);
                    }
                    assert forall|i: int| 0 <= i < front.len() - 1 implies adjacent(
                        #[trigger] front[i],
                        front[i + 1],
                    ) by {
                        assert(front[i] == path[i]);
                        assert(front[i + 1] == path[i + 1]);
                    }
                    assert(g.zero_path(front) && front[0] == start && front.last() == z);
                    assert(region.contains(z));
                    assert(z == path[path.len() - 2]);
                    assert(adjacent(z, p));
                    g.lemma_reached_can_open(start, p);
                    assert(g.ring(region).contains(p));
                }
            }
            if g.ring(region).contains(p) {
                let z = choose|z: (int, int)| region.contains(z) && #[trigger] adjacent(z, p);
                g.lemma_reaches_next(start, z, p);
            }
        }
        assert(g.flood(x, y) =~= both);
    } else {
        assert forall|p: (int, int)| g.flood(x, y).contains(p) <==> p == start by {
            if g.flood(x, y).contains(p) {
                let path = choose|path: Seq<(int, int)>| #[trigger]
                    g.cascade(path) && path[0] == start && path.last() == p;
                if path.len() >= 2 {
                    assert(g.mines_around(path[0].0, path[0].1) == 0);
                }
            }
        }
        assert(g.flood(x, y) =~= set![start]);
    }
}

/// The cells that a flood fill opens are the least set that holds its
/// start and, with each cell that has no mine around it, the neighbours
/// of that cell that can be opened.
pub proof fn law_flood_least_closed(g: Grid, x: int, y: int, cells: Set<(int, int)>)
    requires
        g.can_open(x, y),
    ensures
        g.flood(x, y).contains((x, y)),
        g.flood_closed(g.flood(x, y)),
        g.flood_closed(cells) && cells.contains((x, y)) ==> g.flood(x, y).subset_of(cells),
{
    g.lemma_reaches_start((x, y));
    g.lemma_flood_closed(x, y);
    if g.flood_closed(cells) && cells.contains((x, y)) {
        g.lemma_flood_least(x, y, cells);
    }
}

/// A reveal reports the cells that it opened: those that were closed
/// before it and are open after it.
pub proof fn law_changed_cells(g: Grid, x: int, y: int, count: nat, draws: Seq<usize>)
    requires
        g.wf(),
        g.open_error(x, y, count, draws) is None,
    ensures
        g.seeded(x, y, count, draws).opened_by(x, y) == g.opened_since(g.open_cell(x, y, count, draws)),
{
    let laid = g.seeded(x, y, count, draws);
    let after = g.open_cell(x, y, count, draws);
    if g.pending {
        lemma_lay_mines(g, picks(g.eligible(x, y), draws, count).to_set());
    }
    laid.lemma_reveal_at(x, y);
    assert forall|p: (int, int)| laid.opened_by(x, y).contains(p) <==> g.opened_since(after).contains(p) by {
        if laid.opened_by(x, y).contains(p) {
            assert(laid.can_open(p.0, p.1));
        }
        if g.in_bounds(p.0, p.1) {
            assert(laid.cell(p.0, p.1).is_open == g.cell(p.0, p.1).is_open);
            assert(after.cell(p.0, p.1) == if laid.opened_by(x, y).contains(p) {
                laid.cell(p.0, p.1).opened()
            } else {
                laid.cell(p.0, p.1)
            });
        }
    }
    assert(laid.opened_by(x, y) =~= g.opened_since(after));
}

/// A second reveal at the same cell opens nothing and leaves the board as
/// the first one left it, whatever mines and draws come with it.
pub proof fn law_reveal_twice(
    g: Grid,
    x: int,
    y: int,
    count: nat,
    draws: Seq<usize>,
    count2: nat,
    draws2: Seq<usize>,
)
    requires
        g.wf(),
        g.open_error(x, y, count, draws) is None,
    ensures
        g.open_cell(x, y, count, draws).open_error(x, y, count2, draws2) is None,
        g.open_cell(x, y, count, draws).seeded(x, y, count2, draws2).opened_by(x, y) == Set::<(int, int)>::empty(),
        g.open_cell(x, y, count, draws).open_cell(x, y, count2, draws2) == g.open_cell(x, y, count, draws),
{
    let laid = g.seeded(x, y, count, draws);
    let h = g.open_cell(x, y, count, draws);
    if g.pending {
        lemma_lay_mines(g, picks(g.eligible(x, y), draws, count).to_set());
    }
    laid.lemma_reveal_at(x, y);
    if laid.can_open(x, y) {
        if !laid.cell(x, y).is_mine {
            laid.lemma_reaches_start((x, y));
        }
        assert(laid.opened_by(x, y).contains((x, y)));
    }
    assert(!h.can_open(x, y));
    lemma_opening_nothing(h);
}

/// Opening no cell leaves a board that has its mines as it is.
proof fn lemma_opening_nothing(g: Grid)
    requires
        g.wf(),
        !g.pending,
    ensures
        g.open_all(Set::empty()) == g,
{
    g.lemma_open_all(Set::empty());
    lemma_same_grid(g.open_all(Set::empty()), g);
}

/// Once the mines are laid, a reveal or a further request for mines lays
/// no more: the mines stay where they are.
pub proof fn law_mines_laid_once(g: Grid, x: int, y: int, count: nat, draws: Seq<usize>)
    requires
        g.wf(),
        !g.pending,
    ensures
        g.seeded(x, y, count, draws) == g,
        g.open_cell(x, y, count, draws) == g.reveal_at(x, y),
        g.open_cell(x, y, count, draws).mines() == g.mines(),
        !g.open_cell(x, y, count, draws).pending,
        g.in_bounds(x, y) ==> g.open_error(x, y, count, draws) is None,
{
    let after = g.open_cell(x, y, count, draws);
    g.lemma_reveal_at(x, y);
    assert forall|p: (int, int)| after.mines().contains(p) <==> g.mines().contains(p) by {
        if g.in_bounds(p.0, p.1) {
            assert(after.cell(p.0, p.1).is_mine == g.cell(p.0, p.1).is_mine);
        }
    }
    assert(after.mines() =~= g.mines());
}

/// Flags and open cells exclude each other: a flag toggle on an open cell
/// changes nothing, a reveal at a flagged cell or at an open one opens
/// nothing, and no operation makes a cell both open and flagged.
pub proof fn law_flag_or_open(g: Grid, x: int, y: int)
    requires
        g.wf(),
        g.in_bounds(x, y),
    ensures
        !(g.cell(x, y).is_open && g.cell(x, y).is_flagged),
        g.cell(x, y).is_open ==> g.toggle_flag(x, y) == g,
        g.cell(x, y).is_flagged || g.cell(x, y).is_open ==> g.opened_by(x, y) == Set::<(int, int)>::empty(),
        !g.pending && (g.cell(x, y).is_flagged || g.cell(x, y).is_open) ==> g.reveal_at(x, y) == g,
        g.toggle_flag(x, y).wf(),
        g.reveal_at(x, y).wf(),
{
    g.lemma_reveal_at(x, y);
    if !g.pending && !g.can_open(x, y) {
        lemma_opening_nothing(g);
    }
    lemma_toggle_flag(g, x, y);
}

/// A flag toggle keeps a grid well formed; it moves no mine and opens no
/// cell.
pub proof fn lemma_toggle_flag(g: Grid, x: int, y: int)
    requires
        g.wf(),
        g.in_bounds(x, y),
    ensures
        g.toggle_flag(x, y).wf(),
        g.toggle_flag(x, y).pending == g.pending,
        g.toggle_flag(x, y).game_over() == g.game_over(),
        g.toggle_flag(x, y).game_clear() == g.game_clear(),
{
    let h = g.toggle_flag(x, y);
    assert(h.rows[0].len() == g.width());
    assert forall|a: int, b: int| g.in_bounds(a, b) implies (#[trigger] h.cell(a, b)).is_open == g.cell(a, b).is_open
        && h.cell(a, b).is_mine == g.cell(a, b).is_mine by {}
    assert forall|a: int, b: int| h.in_bounds(a, b) implies !((#[trigger] h.cell(a, b)).is_open && h.cell(
        a,
        b,
    ).is_flagged) by {
        assert(!(g.cell(a, b).is_open && g.cell(a, b).is_flagged));
    }
    if g.pending {
        assert forall|a: int, b: int| h.in_bounds(a, b) implies !(#[trigger] h.cell(a, b)).is_open && !h.cell(
            a,
            b,
        ).is_mine by {
            assert(!g.cell(a, b).is_open && !g.cell(a, b).is_mine);
        }
    }
    if g.game_over() {
        let (a, b) = choose|a: int, b: int|
            g.in_bounds(a, b) && (#[trigger] g.cell(a, b)).is_open && g.cell(a, b).is_mine;
        assert(h.cell(a, b).is_open && h.cell(a, b).is_mine);
    }
    if h.game_over() {
        let (a, b) = choose|a: int, b: int|
            h.in_bounds(a, b) && (#[trigger] h.cell(a, b)).is_open && h.cell(a, b).is_mine;
        assert(g.cell(a, b).is_open && g.cell(a, b).is_mine);
    }
    if g.game_clear() {
        assert forall|a: int, b: int| h.in_bounds(a, b) implies (#[trigger] h.cell(a, b)).is_mine || h.cell(
            a,
            b,
        ).is_open by {
            assert(g.cell(a, b).is_mine || g.cell(a, b).is_open);
        }
    }
    if h.game_clear() {
        assert forall|a: int, b: int| g.in_bounds(a, b) implies (#[trigger] g.cell(a, b)).is_mine || g.cell(
            a,
            b,
        ).is_open by {
            assert(h.cell(a, b).is_mine || h.cell(a, b).is_open);
        }
    }
}

/// What a run of reveals at cells without mines does: it keeps mines and
/// flags, closes nothing, opens no mine, and opens each of its cells that
/// carries no flag.
pub proof fn lemma_play(g: Grid, moves: Seq<(int, int)>)
    requires
        g.wf(),
        !g.pending,
        forall|i: int| 0 <= i < moves.len() ==> g.in_bounds((#[trigger] moves[i]).0, moves[i].1) && !g.cell(
            moves[i].0,
            moves[i].1,
        ).is_mine,
    ensures
        play(g, moves).wf(),
        !play(g, moves).pending,
        play(g, moves).height() == g.height(),
        play(g, moves).width() == g.width(),
        forall|a: int, b: int| #![trigger play(g, moves).cell(a, b)]
            g.in_bounds(a, b) ==> {
                &&& play(g, moves).cell(a, b).is_mine == g.cell(a, b).is_mine
                &&& play(g, moves).cell(a, b).is_flagged == g.cell(a, b).is_flagged
                &&& g.cell(a, b).is_open ==> play(g, moves).cell(a, b).is_open
                &&& play(g, moves).cell(a, b).is_open && g.cell(a, b).is_mine ==> g.cell(a, b).is_open
            },
        forall|i: int|
            0 <= i < moves.len() && !g.cell((#[trigger] moves[i]).0, moves[i].1).is_flagged ==> play(g, moves).cell(
                moves[i].0,
                moves[i].1,
            ).is_open,
    decreases moves.len(),
{
    if moves.len() > 0 {
        let front = moves.drop_last();
        let m = moves.last();
        let h = play(g, front);
        let after = play(g, moves);
        assert forall|i: int| 0 <= i < front.len() implies g.in_bounds((#[trigger] front[i]).0, front[i].1)
            && !g.cell(front[i].0, front[i].1).is_mine by {
            assert(front[i] == moves[i]);
        }
        lemma_play(g, front);
        assert(m == moves[moves.len() - 1]);
        assert(g.in_bounds(m.0, m.1) && !g.cell(m.0, m.1).is_mine);
        h.lemma_reveal_at(m.0, m.1);
        assert(after == h.reveal_at(m.0, m.1));
        assert(h.cell(m.0, m.1).is_mine == g.cell(m.0, m.1).is_mine);
        assert forall|a: int, b: int| #![trigger after.cell(a, b)] g.in_bounds(a, b) implies {
            &&& after.cell(a, b).is_mine == g.cell(a, b).is_mine
            &&& after.cell(a, b).is_flagged == g.cell(a, b).is_flagged
            &&& g.cell(a, b).is_open ==> after.cell(a, b).is_open
            &&& after.cell(a, b).is_open && g.cell(a, b).is_mine ==> g.cell(a, b).is_open
        } by {
            assert(h.cell(a, b).is_mine == g.cell(a, b).is_mine);
            if h.opened_by(m.0, m.1).contains((a, b)) {
                h.lemma_flood_avoids_mines(m.0, m.1, (a, b));
            }
        }
        assert forall|i: int|
            0 <= i < moves.len() && !g.cell((#[trigger] moves[i]).0, moves[i].1).is_flagged implies after.cell(
                moves[i].0,
                moves[i].1,
            ).is_open by {
            if i < front.len() {
                assert(front[i] == moves[i]);
                assert(h.cell(moves[i].0, moves[i].1).is_open);
            } else {
                assert(h.cell(m.0, m.1).is_flagged == g.cell(m.0, m.1).is_flagged);
                if h.can_open(m.0, m.1) {
                    h.lemma_reaches_start(m);
                    assert(h.opened_by(m.0, m.1).contains(m));
                }
            }
        }
    }
}

/// Opening every cell without a mine, in whatever order, wins the game
/// and does not lose it.  (The run starts on a board that has its mines
/// and is not lost; none of the cells to open carries a flag.)
pub proof fn law_win(g: Grid, moves: Seq<(int, int)>)
    requires
        g.wf(),
        !g.pending,
        !g.game_over(),
        forall|i: int| 0 <= i < moves.len() ==> g.in_bounds((#[trigger] moves[i]).0, moves[i].1) && !g.cell(
            moves[i].0,
            moves[i].1,
        ).is_mine,
        forall|x: int, y: int|
            g.in_bounds(x, y) && !(#[trigger] g.cell(x, y)).is_mine && !g.cell(x, y).is_open ==> !g.cell(
                x,
                y,
            ).is_flagged && moves.contains((x, y)),
    ensures
        play(g, moves).game_clear(),
        !play(g, moves).game_over(),
{
    let after = play(g, moves);
    lemma_play(g, moves);
    assert forall|x: int, y: int| after.in_bounds(x, y) implies (#[trigger] after.cell(x, y)).is_mine || after.cell(
        x,
        y,
    ).is_open by {
        if !g.cell(x, y).is_mine && !g.cell(x, y).is_open {
            let i = choose|i: int| 0 <= i < moves.len() && moves[i] == (x, y);
            assert(!g.cell(moves[i].0, moves[i].1).is_flagged);
            assert(after.cell(moves[i].0, moves[i].1).is_open);
        }
    }
    assert forall|x: int, y: int| after.in_bounds(x, y) implies !((#[trigger] after.cell(x, y)).is_open
        && after.cell(x, y).is_mine) by {
        if g.cell(x, y).is_mine && g.cell(x, y).is_open {
            assert(g.game_over());
        }
    }
}

/// Opening a cell that holds a mine loses the game.
pub proof fn law_loss(g: Grid, x: int, y: int)
    requires
        g.wf(),
        !g.pending,
        g.can_open(x, y),
        g.cell(x, y).is_mine,
    ensures
        g.reveal_at(x, y).game_over(),
        g.opened_by(x, y) == set![(x, y)],
{
    g.lemma_reveal_at(x, y);
    let h = g.reveal_at(x, y);
    assert(g.opened_by(x, y).contains((x, y)));
    assert(h.in_bounds(x, y) && h.cell(x, y).is_open && h.cell(x, y).is_mine);
}

} // verus!
