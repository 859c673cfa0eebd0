//! Arithmetic of a rectangle of cells that is kept row by row.

use vstd::prelude::*;

verus! {

/// A cell of a rectangle `w` wide and `h` high has its place inside the
/// row-major vector of `w * h` cells.
pub proof fn lemma_index_in_range(x: int, y: int, w: int, h: int)
    requires
        0 <= x < w,
        0 <= y < h,
    ensures
        0 <= y * w <= y * w + x < w * h,
        (y * w + x) / w == y,
        (y * w + x) % w == x,
{
    assert(y * w + x < w * h) by (nonlinear_arith)
        requires
            0 <= x < w,
            0 <= y < h,
    {
        assert((y + 1) * w <= h * w);
    }
    assert(0 <= y * w) by (nonlinear_arith)
        requires
            0 <= y,
            0 < w,
    ;
    vstd::arithmetic::div_mod::lemma_fundamental_div_mod_converse(y * w + x, w, y, x);
}

/// Every place of the row-major vector belongs to exactly one cell.
pub proof fn lemma_index_split(i: int, w: int, h: int)
    requires
        0 <= i < w * h,
        0 < w,
    ensures
        0 <= i % w < w,
        0 <= i / w < h,
        (i / w) * w + i % w == i,
{
    vstd::arithmetic::div_mod::lemma_fundamental_div_mod(i, w);
    vstd::arithmetic::div_mod::lemma_mod_bound(i, w);
    assert(0 <= i / w < h) by (nonlinear_arith)
        requires
            0 <= i < w * h,
            0 < w,
            i == w * (i / w) + i % w,
            0 <= i % w < w,
    ;
    assert((i / w) * w == w * (i / w)) by (nonlinear_arith);
}

/// Distinct cells of a rectangle `w` wide and `h` high are at most
/// `w * h` in number.
pub proof fn lemma_distinct_cells_bounded(cells: Seq<(int, int)>, w: int, h: int)
    requires
        0 <= w,
        0 <= h,
        cells.no_duplicates(),
        forall|i: int| 0 <= i < cells.len() ==> 0 <= (#[trigger] cells[i]).0 < w && 0 <= cells[i].1 < h,
    ensures
        cells.len() <= w * h,
{
    assert(0 <= w * h) by (nonlinear_arith)
        requires
            0 <= w,
            0 <= h,
    ;
    let places = Seq::new(cells.len(), |i: int| cells[i].1 * w + cells[i].0);
    assert forall|i: int, j: int| 0 <= i < places.len() && 0 <= j < places.len() && i != j implies places[i]
        != places[j] by {
        lemma_index_in_range(cells[i].0, cells[i].1, w, h);
        lemma_index_in_range(cells[j].0, cells[j].1, w, h);
    }
    assert(places.no_duplicates());
    places.unique_seq_to_set();
    vstd::set_lib::lemma_int_range(0, w * h);
    assert forall|a: int| places.to_set().contains(a) implies vstd::set_lib::set_int_range(0, w * h).contains(a) by {
        let i = choose|i: int| 0 <= i < places.len() && places[i] == a;
        lemma_index_in_range(cells[i].0, cells[i].1, w, h);
    }
    vstd::set_lib::lemma_len_subset(places.to_set(), vstd::set_lib::set_int_range(0, w * h));
}

} // verus!
