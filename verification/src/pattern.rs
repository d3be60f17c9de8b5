//! Patterns drawn in text: a `#` is ink, and any other character leaves the
//! cell below it as it is.

use crate::board::Board;
use crate::grid::{
    cell, cell_index, dead_grid, in_grid, lemma_cell_index_coordinates, lemma_cell_index_in_range,
    lemma_dead_grid_is_dead, lemma_index_coordinates,
};
use vstd::prelude::*;

verus! {

/// The rows of a drawing, each as its characters.
pub open spec fn art_of(rows: Seq<&str>) -> Seq<Seq<char>> {
    Seq::new(rows.len(), |r: int| rows[r]@)
}

/// Whether the drawing has ink at column `dx` of row `dy`.
pub open spec fn inked(art: Seq<Seq<char>>, dx: int, dy: int) -> bool {
    0 <= dy < art.len() && 0 <= dx < art[dy].len() && art[dy][dx] == '#'
}

/// Whether every character of the drawing lands on the grid when its first
/// one is laid on `(x_offset, y_offset)`.
pub open spec fn fits(w: int, h: int, x_offset: int, y_offset: int, art: Seq<Seq<char>>) -> bool {
    forall|dx: int, dy: int|
        #![trigger art[dy][dx]]
        0 <= dy < art.len() && 0 <= dx < art[dy].len() ==> in_grid(
            w,
            h,
            x_offset + dx,
            y_offset + dy,
        )
}

/// The grid after the drawing is laid on it with its first character on
/// `(x_offset, y_offset)`: cells under ink are alive, the others are as they
/// were.
pub open spec fn stamp(
    cells: Seq<bool>,
    w: int,
    x_offset: int,
    y_offset: int,
    art: Seq<Seq<char>>,
) -> Seq<bool> {
    Seq::new(cells.len(), |i: int| cells[i] || inked(art, i % w - x_offset, i / w - y_offset))
}

/// The state of one cell after a drawing is laid on the grid.
pub proof fn lemma_stamp_cell(
    cells: Seq<bool>,
    w: int,
    h: int,
    x_offset: int,
    y_offset: int,
    art: Seq<Seq<char>>,
    x: int,
    y: int,
)
    requires
        cells.len() == w * h,
        in_grid(w, h, x, y),
    ensures
        cell(stamp(cells, w, x_offset, y_offset, art), w, h, x, y) == (cell(cells, w, h, x, y)
            || inked(art, x - x_offset, y - y_offset)),
{
    lemma_cell_index_in_range(w, h, x, y);
    lemma_cell_index_coordinates(w, x, y);
}

/// The glider: five cells that travel one step down and to the right every
/// four generations.
pub open spec fn glider_art() -> Seq<Seq<char>> {
    seq!["  #"@, "# #"@, " ##"@]
}

/// Whether the glider has a live cell at column `dx` of row `dy` of its
/// drawing.
pub open spec fn glider_cell(dx: int, dy: int) -> bool {
    ||| (dy == 0 && dx == 2)
    ||| (dy == 1 && (dx == 0 || dx == 2))
    ||| (dy == 2 && (dx == 1 || dx == 2))
}

/// The drawing of the glider has ink on its five cells and nowhere else.
pub proof fn lemma_glider_art()
    ensures
        forall|dx: int, dy: int| inked(glider_art(), dx, dy) <==> glider_cell(dx, dy),
        forall|w: int, h: int, x_offset: int, y_offset: int|
            0 <= x_offset && 0 <= y_offset && x_offset + 3 <= w && y_offset + 3 <= h ==> #[trigger] fits(
                w,
                h,
                x_offset,
                y_offset,
                glider_art(),
            ),
{
    reveal_strlit("  #");
    reveal_strlit("# #");
    reveal_strlit(" ##");
}

/// The glider gun: a pattern that sends out a new glider every thirty
/// generations.
pub open spec fn glider_gun_art() -> Seq<Seq<char>> {
    seq![
        "                        #           "@,
        "                      # #           "@,
        "            ##      ##            ##"@,
        "           #   #    ##            ##"@,
        "##        #     #   ##              "@,
        "##        #   # ##    # #           "@,
        "          #     #       #           "@,
        "           #   #                    "@,
        "            ##                      "@,
    ]
}

/// Whether the glider gun has a live cell at column `dx` of row `dy` of its
/// drawing.
pub open spec fn glider_gun_cell(dx: int, dy: int) -> bool {
    ||| (dy == 0 && dx == 24)
    ||| (dy == 1 && (dx == 22 || dx == 24))
    ||| (dy == 2 && (dx == 12 || dx == 13 || dx == 20 || dx == 21 || dx == 34 || dx == 35))
    ||| (dy == 3 && (dx == 11 || dx == 15 || dx == 20 || dx == 21 || dx == 34 || dx == 35))
    ||| (dy == 4 && (dx == 0 || dx == 1 || dx == 10 || dx == 16 || dx == 20 || dx == 21))
    ||| (dy == 5 && (dx == 0 || dx == 1 || dx == 10 || dx == 14 || dx == 16 || dx == 17
        || dx == 22 || dx == 24))
    ||| (dy == 6 && (dx == 10 || dx == 16 || dx == 24))
    ||| (dy == 7 && (dx == 11 || dx == 15))
    ||| (dy == 8 && (dx == 12 || dx == 13))
}

/// The drawing of the glider gun has ink on its thirty-six cells and nowhere
/// else.
pub proof fn lemma_glider_gun_art()
    ensures
        forall|dx: int, dy: int| inked(glider_gun_art(), dx, dy) <==> glider_gun_cell(dx, dy),
        forall|w: int, h: int, x_offset: int, y_offset: int|
            0 <= x_offset && 0 <= y_offset && x_offset + 36 <= w && y_offset + 9 <= h
                ==> #[trigger] fits(w, h, x_offset, y_offset, glider_gun_art()),
{
    reveal_strlit("                        #           ");
    reveal_strlit("                      # #           ");
    reveal_strlit("            ##      ##            ##");
    reveal_strlit("           #   #    ##            ##");
    reveal_strlit("##        #     #   ##              ");
    reveal_strlit("##        #   # ##    # #           ");
    reveal_strlit("          #     #       #           ");
    reveal_strlit("           #   #                    ");
    reveal_strlit("            ##                      ");
}

/// Whether the drawing has ink at column `dx` of row `dy`, and that place
/// comes before column `column` of row `row` in reading order.
spec fn inked_before(art: Seq<Seq<char>>, dx: int, dy: int, row: int, column: int) -> bool {
    inked(art, dx, dy) && (dy < row || (dy == row && dx < column))
}

impl<const W: usize, const H: usize> Board<W, H> {
    /// Lays a drawing on the board, its first character on
    /// `(x_offset, y_offset)`.
    pub fn draw(&mut self, x_offset: usize, y_offset: usize, grid: &[&str])
        requires
            old(self).wf(),
            fits(W as int, H as int, x_offset as int, y_offset as int, art_of(grid@)),
        ensures
            final(self).wf(),
            final(self)@ == stamp(
                old(self)@,
                W as int,
                x_offset as int,
                y_offset as int,
                art_of(grid@),
            ),
            forall|x: int, y: int|
                in_grid(W as int, H as int, x, y) ==> #[trigger] final(self).alive(x, y) == (old(
                    self,
                ).alive(x, y) || inked(art_of(grid@), x - x_offset, y - y_offset)),
    {
        let ghost art = art_of(grid@);
        let ghost (w, h) = (W as int, H as int);
        let ghost (xo, yo) = (x_offset as int, y_offset as int);
        let mut y: usize = 0;
        while y < grid.len()
            invariant
                self.wf(),
                old(self).wf(),
                w == W,
                h == H,
                xo == x_offset,
                yo == y_offset,
                art == art_of(grid@),
                fits(w, h, xo, yo, art),
                y <= grid@.len(),
                forall|i: int|
                    0 <= i < self@.len() ==> #[trigger] self@[i] == (old(self)@[i] || inked_before(
                        art,
                        i % w - xo,
                        i / w - yo,
                        y as int,
                        0,
                    )),
            decreases grid@.len() - y,
        {
            let row = grid[y];
            let mut x: usize = 0;
            for val in chars: row.chars()
                invariant
                    self.wf(),
                    old(self).wf(),
                    w == W,
                    h == H,
                    xo == x_offset,
                    yo == y_offset,
                    art == art_of(grid@),
                    fits(w, h, xo, yo, art),
                    y < grid@.len(),
                    row@ == art[y as int],
                    chars.seq() == row@,
                    x == chars.index(),
                    forall|i: int|
                        0 <= i < self@.len() ==> #[trigger] self@[i] == (old(self)@[i]
                            || inked_before(art, i % w - xo, i / w - yo, y as int, x as int)),
            {
                assert(0 <= x < art[y as int].len());
                assert(art[y as int][x as int] == val);
                assert(in_grid(w, h, xo + x, yo + y));
                if val == '#' {
                    let ghost before = self@;
                    self.set(x_offset + x, y_offset + y, true);
                    proof {
                        let at = cell_index(w, xo + x, yo + y);
                        lemma_cell_index_coordinates(w, xo + x, yo + y);
                        lemma_cell_index_in_range(w, h, xo + x, yo + y);
                        assert forall|i: int| 0 <= i < self@.len() implies #[trigger] self@[i] == (
                        old(self)@[i] || inked_before(
                            art,
                            i % w - xo,
                            i / w - yo,
                            y as int,
                            x + 1,
                        )) by {
                            lemma_index_coordinates(w, h, i);
                            assert(before[i] == (old(self)@[i] || inked_before(
                                art,
                                i % w - xo,
                                i / w - yo,
                                y as int,
                                x as int,
                            )));
                        }
                    }
                }
                x += 1;
            }
            y += 1;
        }
        assert(self@ =~= stamp(old(self)@, w, xo, yo, art));
        assert forall|x: int, y: int| in_grid(w, h, x, y) implies #[trigger] self.alive(x, y) == (old(
            self,
        ).alive(x, y) || inked(art, x - xo, y - yo)) by {
            lemma_stamp_cell(old(self)@, w, h, xo, yo, art, x, y);
        }
    }

    /// A dead board with one glider, the corner of its drawing on `(10, 10)`.
    pub fn glider() -> (board: Self)
        requires
            W * H <= usize::MAX,
            W >= 13,
            H >= 13,
        ensures
            board.wf(),
            board@ == stamp(dead_grid(W as int, H as int), W as int, 10, 10, glider_art()),
            forall|x: int, y: int|
                #[trigger] board.alive(x, y) <==> in_grid(W as int, H as int, x, y) && glider_cell(
                    x - 10,
                    y - 10,
                ),
    {
        let mut new = Self::clear();
        let grid = ["  #", "# #", " ##"];
        proof {
            lemma_glider_art();
            assert(art_of(grid@) =~= glider_art());
        }
        new.draw(10, 10, &grid);
        proof {
            assert forall|x: int, y: int| #[trigger]
                new.alive(x, y) <==> in_grid(W as int, H as int, x, y) && glider_cell(
                    x - 10,
                    y - 10,
                ) by {
                lemma_dead_grid_is_dead(W as int, H as int, x, y);
            }
        }
        new
    }

    /// A dead board with one glider gun, the corner of its drawing on
    /// `(10, 10)`.
    pub fn glider_gun() -> (board: Self)
        requires
            W * H <= usize::MAX,
            W >= 46,
            H >= 19,
        ensures
            board.wf(),
            board@ == stamp(dead_grid(W as int, H as int), W as int, 10, 10, glider_gun_art()),
            forall|x: int, y: int|
                #[trigger] board.alive(x, y) <==> in_grid(W as int, H as int, x, y)
                    && glider_gun_cell(x - 10, y - 10),
    {
        let mut new = Self::clear();
        let grid = [
            "                        #           ",
            "                      # #           ",
            "            ##      ##            ##",
            "           #   #    ##            ##",
            "##        #     #   ##              ",
            "##        #   # ##    # #           ",
            "          #     #       #           ",
            "           #   #                    ",
            "            ##                      ",
        ];
        proof {
            lemma_glider_gun_art();
            assert(art_of(grid@) =~= glider_gun_art());
        }
        new.draw(10, 10, &grid);
        proof {
            assert forall|x: int, y: int| #[trigger]
                new.alive(x, y) <==> in_grid(W as int, H as int, x, y) && glider_gun_cell(
                    x - 10,
                    y - 10,
                ) by {
                lemma_dead_grid_is_dead(W as int, H as int, x, y);
            }
        }
        new
    }
}

} // verus!
