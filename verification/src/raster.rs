//! Straight lines on the grid: which cells a line between two cells covers.

use crate::board::Board;
use crate::grid::{
    cell, in_grid, lemma_cell_index_coordinates, lemma_cell_index_in_range,
    lemma_index_coordinates,
};
use vstd::arithmetic::div_mod::{
    lemma_div_is_ordered, lemma_fundamental_div_mod, lemma_fundamental_div_mod_converse,
};
use vstd::prelude::*;

verus! {

/// How far apart `a` and `b` are.
pub open spec fn span(a: int, b: int) -> int {
    if a <= b {
        b - a
    } else {
        a - b
    }
}

/// The number of steps from one end of a line to the other: the longer of
/// its two spans.
pub open spec fn line_steps(x1: int, y1: int, x2: int, y2: int) -> int {
    if span(x1, x2) >= span(y1, y2) {
        span(x1, x2)
    } else {
        span(y1, y2)
    }
}

/// The whole number nearest to `a / b`, for `a` not below zero and `b` above
/// it. A fraction of one half goes up.
pub open spec fn nearest(a: int, b: int) -> int {
    (2 * a + b) / (2 * b)
}

/// The coordinate reached after `i` of `steps` equal steps from `from` to
/// `to`, rounded to the nearest cell; a half rounds away from `from`.
pub open spec fn along(from: int, to: int, steps: int, i: int) -> int {
    if steps == 0 {
        from
    } else if from <= to {
        from + nearest(i * (to - from), steps)
    } else {
        from - nearest(i * (from - to), steps)
    }
}

/// The cell that the line from `(x1, y1)` to `(x2, y2)` reaches at step `i`.
pub open spec fn line_point(x1: int, y1: int, x2: int, y2: int, i: int) -> (int, int) {
    let steps = line_steps(x1, y1, x2, y2);
    (along(x1, x2, steps, i), along(y1, y2, steps, i))
}

/// Whether the line reaches `(x, y)` at one of its first `n` steps.
pub open spec fn covered(x1: int, y1: int, x2: int, y2: int, n: int, x: int, y: int) -> bool {
    exists|i: int| 0 <= i < n && #[trigger] line_point(x1, y1, x2, y2, i) == (x, y)
}

/// Whether the line from `(x1, y1)` to `(x2, y2)` covers the cell `(x, y)`.
pub open spec fn on_line(x1: int, y1: int, x2: int, y2: int, x: int, y: int) -> bool {
    covered(x1, y1, x2, y2, line_steps(x1, y1, x2, y2) + 1, x, y)
}

/// The grid after every cell on the line is set to `val`.
pub open spec fn paint_line(
    cells: Seq<bool>,
    w: int,
    x1: int,
    y1: int,
    x2: int,
    y2: int,
    val: bool,
) -> Seq<bool> {
    Seq::new(
        cells.len(),
        |i: int|
            if on_line(x1, y1, x2, y2, i % w, i / w) {
                val
            } else {
                cells[i]
            },
    )
}

/// The state of one cell after a line is painted on the grid.
pub proof fn lemma_paint_line_cell(
    cells: Seq<bool>,
    w: int,
    h: int,
    x1: int,
    y1: int,
    x2: int,
    y2: int,
    val: bool,
    x: int,
    y: int,
)
    requires
        cells.len() == w * h,
        in_grid(w, h, x, y),
    ensures
        cell(paint_line(cells, w, x1, y1, x2, y2, val), w, h, x, y) == if on_line(
            x1,
            y1,
            x2,
            y2,
            x,
            y,
        ) {
            val
        } else {
            cell(cells, w, h, x, y)
        },
{
    lemma_cell_index_in_range(w, h, x, y);
    lemma_cell_index_coordinates(w, x, y);
}

/// `nearest(a, b)` is no further than one half from `a / b`.
pub proof fn lemma_nearest_is_nearest(a: int, b: int)
    requires
        0 <= a,
        0 < b,
    ensures
        2 * b * nearest(a, b) - b <= 2 * a < 2 * b * nearest(a, b) + b,
{
    let n = nearest(a, b);
    let r = (2 * a + b) % (2 * b);
    lemma_fundamental_div_mod(2 * a + b, 2 * b);
    assert(0 <= r < 2 * b);
    assert(2 * a + b == (2 * b) * n + r);
    assert((2 * b) * n == 2 * b * n) by (nonlinear_arith);
}

/// The quotient and the remainder of `a / b` give `nearest(a, b)`: one more
/// than the quotient when twice the remainder reaches `b`.
pub proof fn lemma_nearest_from_remainder(a: int, b: int)
    requires
        0 <= a,
        0 < b,
    ensures
        nearest(a, b) == a / b + if a % b >= b - a % b {
            1int
        } else {
            0int
        },
{
    let q = a / b;
    let r = a % b;
    lemma_fundamental_div_mod(a, b);
    assert(a == b * q + r);
    assert(0 <= r < b);
    if r >= b - r {
        assert(2 * a + b == (q + 1) * (2 * b) + (2 * r - b)) by (nonlinear_arith)
            requires
                a == b * q + r,
        ;
        lemma_fundamental_div_mod_converse(2 * a + b, 2 * b, q + 1, 2 * r - b);
    } else {
        assert(2 * a + b == q * (2 * b) + (2 * r + b)) by (nonlinear_arith)
            requires
                a == b * q + r,
        ;
        lemma_fundamental_div_mod_converse(2 * a + b, 2 * b, q, 2 * r + b);
    }
}

/// A larger fraction has no smaller nearest whole number.
pub proof fn lemma_nearest_is_monotonic(a: int, c: int, b: int)
    requires
        a <= c,
        0 < b,
    ensures
        nearest(a, b) <= nearest(c, b),
{
    lemma_div_is_ordered(2 * a + b, 2 * c + b, 2 * b);
}

/// A whole number is its own nearest whole number.
pub proof fn lemma_nearest_of_multiple(n: int, b: int)
    requires
        0 < b,
    ensures
        nearest(n * b, b) == n,
{
    assert(2 * (n * b) + b == n * (2 * b) + b) by (nonlinear_arith);
    lemma_fundamental_div_mod_converse(2 * (n * b) + b, 2 * b, n, b);
}

/// A line never leaves the stretch between its two ends: `i` steps out of
/// `steps` cover a part of the span `d` that is no longer than `d`.
pub proof fn lemma_nearest_within_span(i: int, d: int, steps: int)
    requires
        0 <= i <= steps,
        0 <= d <= steps,
        0 < steps,
    ensures
        0 <= nearest(i * d, steps) <= d,
{
    assert(0 <= i * d <= steps * d) by (nonlinear_arith)
        requires
            0 <= i <= steps,
            0 <= d,
    ;
    assert(steps * d == d * steps) by (nonlinear_arith);
    lemma_nearest_of_multiple(0, steps);
    lemma_nearest_of_multiple(d, steps);
    assert(0 * steps == 0);
    lemma_nearest_is_monotonic(0, i * d, steps);
    lemma_nearest_is_monotonic(i * d, d * steps, steps);
}

/// Every cell of a line lies between the two ends of the line.
pub proof fn lemma_along_between(from: int, to: int, steps: int, i: int)
    requires
        0 <= i <= steps,
        span(from, to) <= steps,
    ensures
        from <= to ==> from <= along(from, to, steps, i) <= to,
        to <= from ==> to <= along(from, to, steps, i) <= from,
{
    if steps > 0 {
        lemma_nearest_within_span(i, span(from, to), steps);
    }
}

/// A line starts on its first end and stops on its second.
pub proof fn lemma_line_ends(x1: int, y1: int, x2: int, y2: int)
    ensures
        line_point(x1, y1, x2, y2, 0) == (x1, y1),
        line_point(x1, y1, x2, y2, line_steps(x1, y1, x2, y2)) == (x2, y2),
        on_line(x1, y1, x2, y2, x1, y1),
        on_line(x1, y1, x2, y2, x2, y2),
{
    let steps = line_steps(x1, y1, x2, y2);
    if steps > 0 {
        lemma_nearest_of_multiple(0, steps);
        assert(0 * span(x1, x2) == 0 * steps && 0 * span(y1, y2) == 0 * steps);
        lemma_nearest_of_multiple(span(x1, x2), steps);
        lemma_nearest_of_multiple(span(y1, y2), steps);
        assert(steps * span(x1, x2) == span(x1, x2) * steps) by (nonlinear_arith);
        assert(steps * span(y1, y2) == span(y1, y2) * steps) by (nonlinear_arith);
    }
    assert(line_point(x1, y1, x2, y2, 0) == (x1, y1));
    assert(line_point(x1, y1, x2, y2, steps) == (x2, y2));
}

/// One more step covers the cell reached at that step, and nothing else
/// besides what was covered before.
pub proof fn lemma_covered_step(x1: int, y1: int, x2: int, y2: int, n: int, x: int, y: int)
    requires
        0 <= n,
    ensures
        covered(x1, y1, x2, y2, n + 1, x, y) <==> covered(x1, y1, x2, y2, n, x, y) || line_point(
            x1,
            y1,
            x2,
            y2,
            n,
        ) == (x, y),
        !covered(x1, y1, x2, y2, 0, x, y),
{
    if covered(x1, y1, x2, y2, n + 1, x, y) {
        let i = choose|i: int| 0 <= i < n + 1 && #[trigger] line_point(x1, y1, x2, y2, i) == (x, y);
        if i < n {
            assert(covered(x1, y1, x2, y2, n, x, y));
        }
    }
    if covered(x1, y1, x2, y2, n, x, y) {
        let i = choose|i: int| 0 <= i < n && #[trigger] line_point(x1, y1, x2, y2, i) == (x, y);
        assert(0 <= i < n + 1 && line_point(x1, y1, x2, y2, i) == (x, y));
    }
    if line_point(x1, y1, x2, y2, n) == (x, y) {
        assert(0 <= n < n + 1 && line_point(x1, y1, x2, y2, n) == (x, y));
    }
}

/// A line from a cell to itself covers that cell and no other.
pub proof fn lemma_line_of_one_cell(x: int, y: int, cx: int, cy: int)
    ensures
        on_line(x, y, x, y, cx, cy) <==> (cx, cy) == (x, y),
{
    lemma_covered_step(x, y, x, y, 0, cx, cy);
}

/// A line along a row covers the cells of that row from one end to the
/// other, and no other cell.
pub proof fn lemma_horizontal_line(x1: int, x2: int, y: int, cx: int, cy: int)
    ensures
        on_line(x1, y, x2, y, cx, cy) <==> cy == y && (x1 <= cx <= x2 || x2 <= cx <= x1),
{
    let steps = span(x1, x2);
    assert(line_steps(x1, y, x2, y) == steps);
    assert forall|i: int| 0 <= i <= steps implies #[trigger] line_point(x1, y, x2, y, i) == (
        if x1 <= x2 {
            x1 + i
        } else {
            x1 - i
        },
        y,
    ) by {
        if steps > 0 {
            lemma_nearest_of_multiple(i, steps);
            lemma_nearest_of_multiple(0, steps);
            assert(i * 0 == 0 * steps) by (nonlinear_arith);
        }
    }
    if cy == y && (x1 <= cx <= x2 || x2 <= cx <= x1) {
        let i = span(x1, cx);
        assert(0 <= i < steps + 1 && line_point(x1, y, x2, y, i) == (cx, cy));
    }
}

/// A line along a column covers the cells of that column from one end to
/// the other, and no other cell.
pub proof fn lemma_vertical_line(x: int, y1: int, y2: int, cx: int, cy: int)
    ensures
        on_line(x, y1, x, y2, cx, cy) <==> cx == x && (y1 <= cy <= y2 || y2 <= cy <= y1),
{
    let steps = span(y1, y2);
    assert(line_steps(x, y1, x, y2) == steps);
    assert forall|i: int| 0 <= i <= steps implies #[trigger] line_point(x, y1, x, y2, i) == (
        x,
        if y1 <= y2 {
            y1 + i
        } else {
            y1 - i
        },
    ) by {
        if steps > 0 {
            lemma_nearest_of_multiple(i, steps);
            lemma_nearest_of_multiple(0, steps);
            assert(i * 0 == 0 * steps) by (nonlinear_arith);
        }
    }
    if cx == x && (y1 <= cy <= y2 || y2 <= cy <= y1) {
        let i = span(y1, cy);
        assert(0 <= i < steps + 1 && line_point(x, y1, x, y2, i) == (cx, cy));
    }
}

/// One step more moves a coordinate by one cell at most, and never back.
pub proof fn lemma_along_step(from: int, to: int, steps: int, i: int)
    requires
        0 <= i < steps,
        span(from, to) <= steps,
    ensures
        from <= to ==> along(from, to, steps, i) <= along(from, to, steps, i + 1) <= along(
            from,
            to,
            steps,
            i,
        ) + 1,
        to <= from ==> along(from, to, steps, i) - 1 <= along(from, to, steps, i + 1) <= along(
            from,
            to,
            steps,
            i,
        ),
        span(from, to) == steps ==> along(from, to, steps, i + 1) != along(from, to, steps, i),
{
    let d = span(from, to);
    let a = i * d;
    assert((i + 1) * d == a + d) by (nonlinear_arith)
        requires
            a == i * d,
    ;
    lemma_nearest_is_monotonic(a, a + d, steps);
    lemma_nearest_is_monotonic(a + d, a + steps, steps);
    assert(nearest(a + steps, steps) == nearest(a, steps) + 1) by {
        let n = nearest(a, steps);
        let r = (2 * a + steps) % (2 * steps);
        lemma_fundamental_div_mod(2 * a + steps, 2 * steps);
        assert(2 * (a + steps) + steps == (n + 1) * (2 * steps) + r) by (nonlinear_arith)
            requires
                2 * a + steps == (2 * steps) * n + r,
        ;
        lemma_fundamental_div_mod_converse(2 * (a + steps) + steps, 2 * steps, n + 1, r);
    }
    if d == steps {
        lemma_nearest_of_multiple(i, steps);
        lemma_nearest_of_multiple(i + 1, steps);
    }
}

/// A line has no gaps: each of its cells touches the one before it, by a
/// side or by a corner, and is another cell than that one.
pub proof fn lemma_line_has_no_gaps(x1: int, y1: int, x2: int, y2: int, i: int)
    requires
        0 <= i < line_steps(x1, y1, x2, y2),
    ensures
        span(line_point(x1, y1, x2, y2, i).0, line_point(x1, y1, x2, y2, i + 1).0) <= 1,
        span(line_point(x1, y1, x2, y2, i).1, line_point(x1, y1, x2, y2, i + 1).1) <= 1,
        line_point(x1, y1, x2, y2, i) != line_point(x1, y1, x2, y2, i + 1),
{
    let steps = line_steps(x1, y1, x2, y2);
    lemma_along_step(x1, x2, steps, i);
    lemma_along_step(y1, y2, steps, i);
}

/// Computes the coordinate reached after `i` of `steps` steps from `from` to
/// `to`.
pub fn coordinate_along(from: usize, to: usize, steps: usize, i: usize) -> (at: usize)
    requires
        i <= steps,
        span(from as int, to as int) <= steps,
    ensures
        at == along(from as int, to as int, steps as int, i as int),
        from <= to ==> from <= at <= to,
        to <= from ==> to <= at <= from,
{
    if steps == 0 {
        return from;
    }
    let d: usize = if from <= to {
        to - from
    } else {
        from - to
    };
    proof {
        assert(0 <= i * d <= 0xffff_ffff_ffff_ffff * 0xffff_ffff_ffff_ffff) by (nonlinear_arith)
            requires
                0 <= i <= 0xffff_ffff_ffff_ffff,
                0 <= d <= 0xffff_ffff_ffff_ffff,
        ;
        lemma_nearest_from_remainder(i * d, steps as int);
        lemma_nearest_within_span(i as int, d as int, steps as int);
        lemma_along_between(from as int, to as int, steps as int, i as int);
    }
    let a: u128 = (i as u128) * (d as u128);
    let s: u128 = steps as u128;
    let q: u128 = a / s;
    let r: u128 = a % s;
    let n: u128 = if r >= s - r {
        q + 1
    } else {
        q
    };
    let n: usize = n as usize;
    if from <= to {
        from + n
    } else {
        from - n
    }
}

impl<const W: usize, const H: usize> Board<W, H> {
    /// Sets every cell on the straight line from `(x1, y1)` to `(x2, y2)` to
    /// `val`, and leaves every other cell as it was.
    pub fn line(&mut self, x1: usize, y1: usize, x2: usize, y2: usize, val: bool)
        requires
            old(self).wf(),
            x1 < W,
            x2 < W,
            y1 < H,
            y2 < H,
        ensures
            final(self).wf(),
            final(self)@ == paint_line(
                old(self)@,
                W as int,
                x1 as int,
                y1 as int,
                x2 as int,
                y2 as int,
                val,
            ),
            forall|x: int, y: int|
                in_grid(W as int, H as int, x, y) ==> #[trigger] final(self).alive(x, y) == if on_line(
                    x1 as int,
                    y1 as int,
                    x2 as int,
                    y2 as int,
                    x,
                    y,
                ) {
                    val
                } else {
                    old(self).alive(x, y)
                },
    {
        let xd = if x1 <= x2 { x2 - x1 } else { x1 - x2 };
        let yd = if y1 <= y2 { y2 - y1 } else { y1 - y2 };
        let md = if xd >= yd { xd } else { yd };

        let ghost (w, h) = (W as int, H as int);
        let ghost (ax, ay, bx, by) = (x1 as int, y1 as int, x2 as int, y2 as int);
        let mut i: usize = 0;
        while i <= md
            invariant
                self.wf(),
                old(self).wf(),
                w == W,
                h == H,
                ax == x1 && ay == y1 && bx == x2 && by == y2,
                x1 < W && x2 < W && y1 < H && y2 < H,
                md == line_steps(ax, ay, bx, by),
                i <= md + 1,
                forall|k: int|
                    0 <= k < self@.len() ==> #[trigger] self@[k] == if covered(
                        ax,
                        ay,
                        bx,
                        by,
                        i as int,
                        k % w,
                        k / w,
                    ) {
                        val
                    } else {
                        old(self)@[k]
                    },
            decreases md + 1 - i,
        {
            let x = coordinate_along(x1, x2, md, i);
            let y = coordinate_along(y1, y2, md, i);
            let ghost before = self@;
            self.set(x, y, val);
            proof {
                lemma_cell_index_in_range(w, h, x as int, y as int);
                lemma_cell_index_coordinates(w, x as int, y as int);
                assert forall|k: int| 0 <= k < self@.len() implies #[trigger] self@[k] == if covered(
                    ax,
                    ay,
                    bx,
                    by,
                    i + 1,
                    k % w,
                    k / w,
                ) {
                    val
                } else {
                    old(self)@[k]
                } by {
                    lemma_index_coordinates(w, h, k);
                    lemma_covered_step(ax, ay, bx, by, i as int, k % w, k / w);
                    assert(before[k] == if covered(ax, ay, bx, by, i as int, k % w, k / w) {
                        val
                    } else {
                        old(self)@[k]
                    });
                }
            }
            i += 1;
        }
        assert(self@ =~= paint_line(old(self)@, w, ax, ay, bx, by, val));
        assert forall|x: int, y: int| in_grid(w, h, x, y) implies #[trigger] self.alive(x, y) == if on_line(
            ax,
            ay,
            bx,
            by,
            x,
            y,
        ) {
            val
        } else {
            old(self).alive(x, y)
        } by {
            lemma_paint_line_cell(old(self)@, w, h, ax, ay, bx, by, val, x, y);
        }
    }
}

} // verus!
