//! The rule of the game: who counts as a neighbour, and which cells are alive
//! one generation later.

use crate::board::Board;
use crate::grid::{
    cell, dead_grid, in_grid, lemma_cell_index_coordinates, lemma_cell_index_in_range,
    lemma_dead_grid_is_dead, lemma_index_coordinates,
};
use vstd::prelude::*;

verus! {

/// One for a true flag, nothing for a false one.
pub open spec fn count_of(flag: bool) -> int {
    if flag {
        1
    } else {
        0
    }
}

/// The first column, or row, of the window round position `at`: one before
/// it, or `at` itself on the rim.
pub open spec fn window_low(at: int) -> int {
    if at == 0 {
        0
    } else {
        at - 1
    }
}

/// The last column, or row, of the window round position `at` on an axis of
/// length `size`: one after it, or `at` itself on the rim.
pub open spec fn window_high(at: int, size: int) -> int {
    if at == size - 1 {
        size - 1
    } else {
        at + 1
    }
}

/// Whether `(cx, cy)` lies in the window round `(x, y)`.
pub open spec fn in_window(w: int, h: int, x: int, y: int, cx: int, cy: int) -> bool {
    window_low(x) <= cx <= window_high(x, w) && window_low(y) <= cy <= window_high(y, h)
}

/// How many of the eight positions around `(x, y)` lie on the grid: the
/// neighbours that the cell has.
pub open spec fn candidates(w: int, h: int, x: int, y: int) -> int {
    count_of(in_grid(w, h, x - 1, y - 1)) + count_of(in_grid(w, h, x, y - 1)) + count_of(
        in_grid(w, h, x + 1, y - 1),
    ) + count_of(in_grid(w, h, x - 1, y)) + count_of(in_grid(w, h, x + 1, y)) + count_of(
        in_grid(w, h, x - 1, y + 1),
    ) + count_of(in_grid(w, h, x, y + 1)) + count_of(in_grid(w, h, x + 1, y + 1))
}

/// How many of the cells around `(x, y)` are alive. Nothing wraps round an
/// edge, and the cell itself does not count.
pub open spec fn live_neighbours(cells: Seq<bool>, w: int, h: int, x: int, y: int) -> int {
    count_of(cell(cells, w, h, x - 1, y - 1)) + count_of(cell(cells, w, h, x, y - 1)) + count_of(
        cell(cells, w, h, x + 1, y - 1),
    ) + count_of(cell(cells, w, h, x - 1, y)) + count_of(cell(cells, w, h, x + 1, y)) + count_of(
        cell(cells, w, h, x - 1, y + 1),
    ) + count_of(cell(cells, w, h, x, y + 1)) + count_of(cell(cells, w, h, x + 1, y + 1))
}

/// Whether a cell is alive one generation later, given its state now and the
/// number of its live neighbours.
pub open spec fn survives(alive: bool, neighbours: int) -> bool {
    neighbours == 3 || (alive && neighbours == 2)
}

/// The next generation. Every cell is judged against the grid as it was.
pub open spec fn step(cells: Seq<bool>, w: int, h: int) -> Seq<bool> {
    Seq::new(
        cells.len(),
        |i: int| survives(cells[i], live_neighbours(cells, w, h, i % w, i / w)),
    )
}

/// The grid `n` generations later.
pub open spec fn generations(cells: Seq<bool>, w: int, h: int, n: nat) -> Seq<bool>
    decreases n,
{
    if n == 0 {
        cells
    } else {
        step(generations(cells, w, h, (n - 1) as nat), w, h)
    }
}

/// Whether `(x, y)` is one of the four corners of the grid.
pub open spec fn is_corner(w: int, h: int, x: int, y: int) -> bool {
    in_grid(w, h, x, y) && (x == 0 || x == w - 1) && (y == 0 || y == h - 1)
}

/// Whether `(x, y)` lies on the rim of the grid.
pub open spec fn is_edge(w: int, h: int, x: int, y: int) -> bool {
    in_grid(w, h, x, y) && (x == 0 || x == w - 1 || y == 0 || y == h - 1)
}

/// Whether `(x, y)` lies on the grid and off its rim.
pub open spec fn is_interior(w: int, h: int, x: int, y: int) -> bool {
    0 < x < w - 1 && 0 < y < h - 1
}

/// A generation later the grid has as many cells as before.
pub proof fn lemma_step_keeps_size(cells: Seq<bool>, w: int, h: int)
    ensures
        step(cells, w, h).len() == cells.len(),
{
}

/// A cell with three live neighbours is alive in the next generation whatever
/// it was; a live cell with two live neighbours stays alive; any other cell
/// is dead in the next generation.
pub proof fn lemma_birth_survival_death(cells: Seq<bool>, w: int, h: int, x: int, y: int)
    requires
        cells.len() == w * h,
        in_grid(w, h, x, y),
    ensures
        live_neighbours(cells, w, h, x, y) == 3 ==> cell(step(cells, w, h), w, h, x, y),
        cell(cells, w, h, x, y) && live_neighbours(cells, w, h, x, y) == 2 ==> cell(
            step(cells, w, h),
            w,
            h,
            x,
            y,
        ),
        live_neighbours(cells, w, h, x, y) != 3 && !(cell(cells, w, h, x, y) && live_neighbours(
            cells,
            w,
            h,
            x,
            y,
        ) == 2) ==> !cell(step(cells, w, h), w, h, x, y),
{
    lemma_step_cell(cells, w, h, x, y);
}

/// The state of one cell in the next generation.
pub proof fn lemma_step_cell(cells: Seq<bool>, w: int, h: int, x: int, y: int)
    requires
        cells.len() == w * h,
        in_grid(w, h, x, y),
    ensures
        cell(step(cells, w, h), w, h, x, y) == survives(
            cell(cells, w, h, x, y),
            live_neighbours(cells, w, h, x, y),
        ),
{
    lemma_cell_index_in_range(w, h, x, y);
    lemma_cell_index_coordinates(w, x, y);
}

/// The neighbours of a cell are the cells of its window, the cell itself
/// left out. The window stops at the rim of the grid.
pub proof fn lemma_candidates_fill_the_window(w: int, h: int, x: int, y: int)
    requires
        in_grid(w, h, x, y),
    ensures
        candidates(w, h, x, y) == (window_high(x, w) - window_low(x) + 1) * (window_high(y, h)
            - window_low(y) + 1) - 1,
        forall|cx: int, cy: int| #[trigger]
            in_window(w, h, x, y, cx, cy) <==> in_grid(w, h, cx, cy) && x - 1 <= cx <= x + 1 && y
                - 1 <= cy <= y + 1,
{
    let across = window_high(x, w) - window_low(x) + 1;
    let down = window_high(y, h) - window_low(y) + 1;
    assert(1 <= across <= 3 && 1 <= down <= 3);
    assert(across * down == if across == 1 {
        down
    } else if across == 2 {
        2 * down
    } else {
        3 * down
    }) by (nonlinear_arith)
        requires
            1 <= across <= 3,
    ;
}

/// A cell has no more live neighbours than it has neighbours. A corner has at
/// most three neighbours, any other cell on the rim at most five, and a cell
/// off the rim exactly eight.
pub proof fn lemma_neighbour_candidates(cells: Seq<bool>, w: int, h: int, x: int, y: int)
    ensures
        0 <= live_neighbours(cells, w, h, x, y) <= candidates(w, h, x, y) <= 8,
        is_corner(w, h, x, y) ==> candidates(w, h, x, y) <= 3,
        is_edge(w, h, x, y) ==> candidates(w, h, x, y) <= 5,
        is_interior(w, h, x, y) ==> candidates(w, h, x, y) == 8,
{
}

/// A grid without a live cell stays without one.
pub proof fn lemma_dead_grid_is_fixed(w: int, h: int)
    ensures
        step(dead_grid(w, h), w, h) == dead_grid(w, h),
{
    let dead = dead_grid(w, h);
    assert forall|i: int| 0 <= i < dead.len() implies !#[trigger] step(dead, w, h)[i] by {
        lemma_dead_grid_has_no_neighbours(w, h, i % w, i / w);
    }
    assert(step(dead, w, h) =~= dead);
}

/// On the dead grid no cell has a live neighbour.
pub proof fn lemma_dead_grid_has_no_neighbours(w: int, h: int, x: int, y: int)
    ensures
        live_neighbours(dead_grid(w, h), w, h, x, y) == 0,
{
    assert forall|cx: int, cy: int| !#[trigger] cell(dead_grid(w, h), w, h, cx, cy) by {
        lemma_dead_grid_is_dead(w, h, cx, cy);
    }
}

/// A live cell without a live neighbour is dead in the next generation.
pub proof fn lemma_isolated_cell_dies(cells: Seq<bool>, w: int, h: int, x: int, y: int)
    requires
        cells.len() == w * h,
        in_grid(w, h, x, y),
        cell(cells, w, h, x, y),
        live_neighbours(cells, w, h, x, y) == 0,
    ensures
        !cell(step(cells, w, h), w, h, x, y),
{
    lemma_step_cell(cells, w, h, x, y);
}

/// What position `(cx, cy)` adds to the count of live cells around `(x, y)`.
spec fn tally(cells: Seq<bool>, w: int, h: int, x: int, y: int, cx: int, cy: int) -> int {
    count_of(!(cx == x && cy == y) && cell(cells, w, h, cx, cy))
}

/// What the positions of row `cy` in the columns before `end` add to the
/// count of live cells around `(x, y)`.
spec fn row_tally(
    cells: Seq<bool>,
    w: int,
    h: int,
    x: int,
    y: int,
    cy: int,
    end: int,
) -> int {
    (if x - 1 < end {
        tally(cells, w, h, x, y, x - 1, cy)
    } else {
        0
    }) + (if x < end {
        tally(cells, w, h, x, y, x, cy)
    } else {
        0
    }) + (if x + 1 < end {
        tally(cells, w, h, x, y, x + 1, cy)
    } else {
        0
    })
}

/// What the rows before `end` add to the count of live cells around `(x, y)`.
spec fn rows_tally(cells: Seq<bool>, w: int, h: int, x: int, y: int, end: int) -> int {
    (if y - 1 < end {
        row_tally(cells, w, h, x, y, y - 1, x + 2)
    } else {
        0
    }) + (if y < end {
        row_tally(cells, w, h, x, y, y, x + 2)
    } else {
        0
    }) + (if y + 1 < end {
        row_tally(cells, w, h, x, y, y + 1, x + 2)
    } else {
        0
    })
}

/// The three rows around a cell hold all of its neighbours.
proof fn lemma_rows_tally_is_neighbour_count(cells: Seq<bool>, w: int, h: int, x: int, y: int)
    ensures
        rows_tally(cells, w, h, x, y, y + 2) == live_neighbours(cells, w, h, x, y),
{
}

impl<const W: usize, const H: usize> Board<W, H> {
    /// How many of the cells around `(x, y)` are alive.
    pub open spec fn neighbour_count(&self, x: int, y: int) -> int {
        live_neighbours(self@, W as int, H as int, x, y)
    }

    /// The next generation of the board, which itself stays as it is.
    pub fn next(&self) -> (board: Self)
        requires
            self.wf(),
        ensures
            board.wf(),
            board@ == step(self@, W as int, H as int),
            forall|x: int, y: int|
                in_grid(W as int, H as int, x, y) ==> #[trigger] board.alive(x, y) == survives(
                    self.alive(x, y),
                    self.neighbour_count(x, y),
                ),
    {
        let board = Self::generate(
            |x: usize, y: usize| -> (alive: bool)
                requires
                    in_grid(W as int, H as int, x as int, y as int),
                ensures
                    alive == survives(
                        self.alive(x as int, y as int),
                        self.neighbour_count(x as int, y as int),
                    )
                {
                    let val = self.get(x, y);
                    let neighbours = self.neighbours(x, y);
                    match (val, neighbours) {
                        (true, 2) => true,
                        (_, 3) => true,
                        (_, _) => false,
                    }
                },
        );
        proof {
            let (w, h) = (W as int, H as int);
            assert forall|i: int| 0 <= i < board@.len() implies board@[i] == step(self@, w, h)[i] by {
                lemma_index_coordinates(w, h, i);
                let x = (i % w) as usize;
                let y = (i / w) as usize;
                assert(board.alive(x as int, y as int) == board@[i]);
            }
            assert(board@ =~= step(self@, w, h));
            assert forall|x: int, y: int| in_grid(w, h, x, y) implies #[trigger] board.alive(x, y)
                == survives(self.alive(x, y), self.neighbour_count(x, y)) by {
                lemma_step_cell(self@, w, h, x, y);
            }
        }
        board
    }

    /// Counts the live cells around `(x, y)`.
    pub fn neighbours(&self, x: usize, y: usize) -> (count: usize)
        requires
            self.wf(),
            x < W,
            y < H,
        ensures
            count == self.neighbour_count(x as int, y as int),
            count <= candidates(W as int, H as int, x as int, y as int),
    {
        let x_low = if x == 0 { 0 } else { x - 1 };
        let x_high = if x == W - 1 { W - 1 } else { x + 1 };
        let y_low = if y == 0 { 0 } else { y - 1 };
        let y_high = if y == H - 1 { H - 1 } else { y + 1 };

        let ghost (w, h) = (W as int, H as int);
        let mut neighbours: usize = 0;
        let mut cy = y_low;
        while cy <= y_high
            invariant
                self.wf(),
                w == W,
                h == H,
                x < W,
                y < H,
                x_low == window_low(x as int),
                x_high == window_high(x as int, w),
                y_high == window_high(y as int, h),
                y - 1 <= cy <= y_high + 1,
                neighbours == rows_tally(self@, w, h, x as int, y as int, cy as int),
            decreases y_high + 1 - cy,
        {
            let mut cx = x_low;
            while cx <= x_high
                invariant
                    self.wf(),
                    w == W,
                    h == H,
                    x < W,
                    y < H,
                    x_high == window_high(x as int, w),
                    y - 1 <= cy <= y + 1,
                    cy < H,
                    x - 1 <= cx <= x_high + 1,
                    neighbours == rows_tally(self@, w, h, x as int, y as int, cy as int)
                        + row_tally(self@, w, h, x as int, y as int, cy as int, cx as int),
                decreases x_high + 1 - cx,
            {
                if !(cx == x && cy == y) {
                    if self.get(cx, cy) {
                        neighbours += 1;
                    }
                }
                cx += 1;
            }
            cy += 1;
        }
        proof {
            lemma_rows_tally_is_neighbour_count(self@, w, h, x as int, y as int);
            lemma_neighbour_candidates(self@, w, h, x as int, y as int);
        }
        neighbours
    }
}

} // verus!
