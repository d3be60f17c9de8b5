//! The mathematical model of a board: a sequence of cell flags laid out row
//! by row, read through a width `w` and a height `h`.

use vstd::arithmetic::div_mod::{lemma_fundamental_div_mod, lemma_fundamental_div_mod_converse};
use vstd::prelude::*;

verus! {

/// Whether `(x, y)` names a cell of a `w` by `h` grid.
pub open spec fn in_grid(w: int, h: int, x: int, y: int) -> bool {
    0 <= x < w && 0 <= y < h
}

/// The place of cell `(x, y)` in row-major storage.
pub open spec fn cell_index(w: int, x: int, y: int) -> int {
    y * w + x
}

/// Whether the cell at `(x, y)` is alive. Positions off the grid hold no
/// cell, so nothing is alive there.
pub open spec fn cell(cells: Seq<bool>, w: int, h: int, x: int, y: int) -> bool {
    in_grid(w, h, x, y) && cells[cell_index(w, x, y)]
}

/// The grid on which every cell is dead.
pub open spec fn dead_grid(w: int, h: int) -> Seq<bool> {
    Seq::new((w * h) as nat, |i: int| false)
}

/// The grid on which every cell is alive.
pub open spec fn full_grid(w: int, h: int) -> Seq<bool> {
    Seq::new((w * h) as nat, |i: int| true)
}

/// Row `y` of the grid, from left to right.
pub open spec fn row_of(cells: Seq<bool>, w: int, y: int) -> Seq<bool> {
    cells.subrange(y * w, (y + 1) * w)
}

/// A row of the grid holds one flag for each cell of that row.
pub proof fn lemma_row_of(cells: Seq<bool>, w: int, h: int, y: int)
    requires
        cells.len() == w * h,
        0 <= w,
        0 <= y < h,
    ensures
        0 <= y * w <= (y + 1) * w <= w * h,
        row_of(cells, w, y).len() == w,
        forall|x: int| 0 <= x < w ==> #[trigger] row_of(cells, w, y)[x] == cell(cells, w, h, x, y),
{
    assert(0 <= y * w <= (y + 1) * w <= w * h && (y + 1) * w == y * w + w) by (nonlinear_arith)
        requires
            0 <= w,
            0 <= y < h,
    ;
}

/// Every cell of the grid has a place in storage.
pub proof fn lemma_cell_index_in_range(w: int, h: int, x: int, y: int)
    requires
        in_grid(w, h, x, y),
    ensures
        0 <= cell_index(w, x, y) < w * h,
{
    assert(0 <= y * w + x < w * h) by (nonlinear_arith)
        requires
            0 <= x < w,
            0 <= y < h,
    ;
}

/// The column and the row of a cell can be read back from its place in
/// storage.
pub proof fn lemma_cell_index_coordinates(w: int, x: int, y: int)
    requires
        0 <= x < w,
    ensures
        cell_index(w, x, y) % w == x,
        cell_index(w, x, y) / w == y,
{
    lemma_fundamental_div_mod_converse(y * w + x, w, y, x);
}

/// No cell of the dead grid is alive.
pub proof fn lemma_dead_grid_is_dead(w: int, h: int, x: int, y: int)
    ensures
        !cell(dead_grid(w, h), w, h, x, y),
{
    if in_grid(w, h, x, y) {
        lemma_cell_index_in_range(w, h, x, y);
    }
}

/// Every place in storage belongs to exactly one cell of the grid.
pub proof fn lemma_index_coordinates(w: int, h: int, i: int)
    requires
        0 <= i < w * h,
        0 <= w,
        0 <= h,
    ensures
        in_grid(w, h, i % w, i / w),
        cell_index(w, i % w, i / w) == i,
{
    assert(w > 0) by (nonlinear_arith)
        requires
            0 <= i < w * h,
            0 <= w,
    ;
    lemma_fundamental_div_mod(i, w);
    let q = i / w;
    let r = i % w;
    assert(0 <= r < w);
    assert(w * q == q * w) by (nonlinear_arith);
    assert(0 <= q < h) by (nonlinear_arith)
        requires
            i == q * w + r,
            0 <= r < w,
            0 <= i < w * h,
    ;
}

/// Two cells of the grid that share a place in storage are the same cell.
pub proof fn lemma_cell_index_injective(w: int, x1: int, y1: int, x2: int, y2: int)
    requires
        0 <= x1 < w,
        0 <= x2 < w,
        cell_index(w, x1, y1) == cell_index(w, x2, y2),
    ensures
        x1 == x2,
        y1 == y2,
{
    lemma_cell_index_coordinates(w, x1, y1);
    lemma_cell_index_coordinates(w, x2, y2);
}

} // verus!
