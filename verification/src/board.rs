//! The board: a grid of fixed size that owns its cells.

use crate::grid::{
    cell, cell_index, dead_grid, in_grid, lemma_cell_index_coordinates, lemma_cell_index_in_range,
    lemma_cell_index_injective, lemma_index_coordinates, lemma_row_of, row_of,
};
use vstd::prelude::*;
use vstd::slice::slice_subrange;

verus! {

/// A `W` by `H` grid of cells, stored row by row.
pub struct Board<const W: usize, const H: usize> {
    fields: Vec<bool>,
}

impl<const W: usize, const H: usize> View for Board<W, H> {
    type V = Seq<bool>;

    /// The cells row by row: cell `(x, y)` stands at `y * W + x`.
    closed spec fn view(&self) -> Seq<bool> {
        self.fields@
    }
}

impl<const W: usize, const H: usize> core::ops::Index<usize> for Board<W, H> {
    type Output = [bool];

    /// Row `index` of the board, from left to right.
    fn index(&self, index: usize) -> (row: &[bool])
        ensures
            row@ == row_of(self@, W as int, index as int),
    {
        self.row(index)
    }
}

impl<const W: usize, const H: usize> vstd::std_specs::core::IndexSpecImpl<usize> for Board<W, H> {
    /// A row can be asked of a well-formed board, by a number below `H`.
    open spec fn index_req(&self, index: &usize) -> bool {
        self.wf() && *index < H
    }
}

impl<const W: usize, const H: usize> Board<W, H> {
    /// A board holds exactly one flag per cell, and the cells can be counted
    /// in a `usize`.
    pub open spec fn wf(&self) -> bool {
        self@.len() == W * H <= usize::MAX
    }

    /// Whether the cell at `(x, y)` is alive.
    pub open spec fn alive(&self, x: int, y: int) -> bool {
        cell(self@, W as int, H as int, x, y)
    }

    /// Takes the cells of a board, given row by row.
    pub fn new(fields: Vec<bool>) -> (board: Self)
        requires
            fields@.len() == W * H,
        ensures
            board.wf(),
            board@ == fields@,
    {
        assert(fields@.len() == fields.len());
        Self { fields }
    }

    /// The board on which every cell is dead.
    pub fn clear() -> (board: Self)
        requires
            W * H <= usize::MAX,
        ensures
            board.wf(),
            board@ == dead_grid(W as int, H as int),
    {
        let board = Self::new(vec![false; H * W]);
        assert(board@ =~= dead_grid(W as int, H as int));
        board
    }

    /// Asks `method` about every cell, row by row, and makes the board of its
    /// answers.
    pub fn generate(method: impl Fn(usize, usize) -> bool + Sync + Send) -> (board: Self)
        requires
            W * H <= usize::MAX,
            forall|x: usize, y: usize| x < W && y < H ==> call_requires(method, (x, y)),
        ensures
            board.wf(),
            forall|x: usize, y: usize|
                x < W && y < H ==> call_ensures(
                    method,
                    (x, y),
                    #[trigger] board.alive(x as int, y as int),
                ),
    {
        let size = H * W;
        let mut fields: Vec<bool> = Vec::new();
        let mut n: usize = 0;
        while n < size
            invariant
                size == W * H,
                n <= size,
                fields@.len() == n,
                forall|x: usize, y: usize| x < W && y < H ==> call_requires(method, (x, y)),
                forall|i: int|
                    0 <= i < n ==> call_ensures(
                        method,
                        ((i % (W as int)) as usize, (i / (W as int)) as usize),
                        #[trigger] fields@[i],
                    ),
            decreases size - n,
        {
            proof {
                lemma_index_coordinates(W as int, H as int, n as int);
            }
            let x = n % W;
            let y = n / W;
            fields.push(method(x, y));
            n += 1;
        }
        let board = Self::new(fields);
        assert forall|x: usize, y: usize| x < W && y < H implies call_ensures(
            method,
            (x, y),
            #[trigger] board.alive(x as int, y as int),
        ) by {
            lemma_cell_index_in_range(W as int, H as int, x as int, y as int);
            lemma_cell_index_coordinates(W as int, x as int, y as int);
        }
        board
    }

    /// Row `y` of the board, from left to right.
    pub fn row(&self, y: usize) -> (row: &[bool])
        requires
            self.wf(),
            y < H,
        ensures
            row@ == row_of(self@, W as int, y as int),
    {
        proof {
            lemma_row_of(self@, W as int, H as int, y as int);
        }
        slice_subrange(self.fields.as_slice(), y * W, (y + 1) * W)
    }

    /// Row `y` of the board, to write to. The other rows stay as they are.
    /// Nothing here says that a slice keeps its length, so the board is
    /// known to be well formed again once the row is known to have kept
    /// its own.
    pub fn row_mut(&mut self, y: usize) -> (row: &mut [bool])
        requires
            old(self).wf(),
            y < H,
        ensures
            row@ == row_of(old(self)@, W as int, y as int),
            final(self)@ == old(self)@.subrange(0, y * W) + final(row)@ + old(self)@.subrange(
                (y + 1) * W,
                W * H,
            ),
            final(row)@.len() == W ==> final(self).wf(),
    {
        proof {
            lemma_row_of(self@, W as int, H as int, y as int);
        }
        let slice = self.fields.as_mut_slice();
        let (_, rest) = slice.split_at_mut(y * W);
        let (row, _) = rest.split_at_mut(W);
        row
    }

    /// The rows of the board from top to bottom.
    pub fn rows(&self) -> (rows: Vec<&[bool]>)
        requires
            self.wf(),
        ensures
            rows@.len() == H,
            forall|y: int| 0 <= y < H ==> (#[trigger] rows@[y])@ == row_of(self@, W as int, y),
    {
        let mut rows: Vec<&[bool]> = Vec::new();
        let mut y: usize = 0;
        while y < H
            invariant
                self.wf(),
                y <= H,
                rows@.len() == y,
                forall|r: int| 0 <= r < y ==> (#[trigger] rows@[r])@ == row_of(self@, W as int, r),
            decreases H - y,
        {
            rows.push(self.row(y));
            y += 1;
        }
        rows
    }

    /// Where cell `(x, y)` stands in storage.
    fn offset(&self, x: usize, y: usize) -> (i: usize)
        requires
            self.wf(),
            x < W,
            y < H,
        ensures
            i == cell_index(W as int, x as int, y as int),
            i < self@.len(),
    {
        proof {
            lemma_cell_index_in_range(W as int, H as int, x as int, y as int);
            assert(0 <= y * W <= y * W + x) by (nonlinear_arith)
                requires
                    0 <= x,
                    0 <= y,
                    0 <= W,
            ;
        }
        y * W + x
    }

    /// Reads one cell.
    pub fn get(&self, x: usize, y: usize) -> (alive: bool)
        requires
            self.wf(),
            x < W,
            y < H,
        ensures
            alive == self.alive(x as int, y as int),
    {
        let i = self.offset(x, y);
        self.fields[i]
    }

    /// Writes one cell and leaves every other cell as it was.
    pub fn set(&mut self, x: usize, y: usize, alive: bool)
        requires
            old(self).wf(),
            x < W,
            y < H,
        ensures
            final(self).wf(),
            final(self)@ == old(self)@.update(cell_index(W as int, x as int, y as int), alive),
            forall|cx: int, cy: int|
                #[trigger] final(self).alive(cx, cy) == if cx == x && cy == y {
                    alive
                } else {
                    old(self).alive(cx, cy)
                },
    {
        let i = self.offset(x, y);
        self.fields.set(i, alive);
        proof {
            assert forall|cx: int, cy: int| #[trigger]
                self.alive(cx, cy) == if cx == x && cy == y {
                    alive
                } else {
                    old(self).alive(cx, cy)
                } by {
                if in_grid(W as int, H as int, cx, cy) {
                    lemma_cell_index_in_range(W as int, H as int, cx, cy);
                    if cell_index(W as int, cx, cy) == i {
                        lemma_cell_index_injective(W as int, cx, cy, x as int, y as int);
                    }
                }
            }
        }
    }
}

} // verus!
