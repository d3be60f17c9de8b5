//! The glider on its way: the four shapes that it takes in turn, and where
//! it stands after four generations.

use crate::grid::{
    cell, dead_grid, in_grid, lemma_cell_index_coordinates, lemma_cell_index_in_range,
    lemma_index_coordinates,
};
use crate::pattern::{glider_art, glider_cell, lemma_glider_art, stamp};
use crate::rules::{generations, step};
use vstd::prelude::*;

verus! {

/// Whether the glider, `phase` generations after it was drawn, has a live
/// cell at column `dx` of row `dy`, counted from the corner of the drawing.
/// After four generations it has its first shape again, one cell further
/// down and to the right.
pub open spec fn glider_phase_cell(phase: int, dx: int, dy: int) -> bool {
    if phase == 0 {
        glider_cell(dx, dy)
    } else if phase == 1 {
        ||| (dy == 0 && dx == 1)
        ||| (dy == 1 && (dx == 2 || dx == 3))
        ||| (dy == 2 && (dx == 1 || dx == 2))
    } else if phase == 2 {
        ||| (dy == 0 && dx == 2)
        ||| (dy == 1 && dx == 3)
        ||| (dy == 2 && (dx == 1 || dx == 2 || dx == 3))
    } else if phase == 3 {
        ||| (dy == 1 && (dx == 1 || dx == 3))
        ||| (dy == 2 && (dx == 2 || dx == 3))
        ||| (dy == 3 && dx == 2)
    } else {
        glider_cell(dx - 1, dy - 1)
    }
}

/// The grid that holds nothing but a glider, `phase` generations after it
/// was drawn with the corner of its drawing on `(x_offset, y_offset)`.
pub open spec fn glider_phase(w: int, h: int, x_offset: int, y_offset: int, phase: int) -> Seq<
    bool,
> {
    Seq::new(
        (w * h) as nat,
        |i: int| glider_phase_cell(phase, i % w - x_offset, i / w - y_offset),
    )
}

/// The grid that holds nothing but a glider, the corner of its drawing on
/// `(x_offset, y_offset)`.
pub open spec fn glider_at(w: int, h: int, x_offset: int, y_offset: int) -> Seq<bool> {
    stamp(dead_grid(w, h), w, x_offset, y_offset, glider_art())
}

/// The state of one cell of a grid that holds nothing but a glider.
pub proof fn lemma_glider_phase_cell(
    w: int,
    h: int,
    x_offset: int,
    y_offset: int,
    phase: int,
    x: int,
    y: int,
)
    ensures
        cell(glider_phase(w, h, x_offset, y_offset, phase), w, h, x, y) == (in_grid(w, h, x, y)
            && glider_phase_cell(phase, x - x_offset, y - y_offset)),
{
    if in_grid(w, h, x, y) {
        lemma_cell_index_in_range(w, h, x, y);
        lemma_cell_index_coordinates(w, x, y);
    }
}

/// One generation takes the glider from each of its shapes to the next, as
/// long as the glider keeps clear of the rim on its way.
pub proof fn lemma_glider_phase_step(w: int, h: int, x_offset: int, y_offset: int, phase: int)
    requires
        0 <= x_offset,
        0 <= y_offset,
        x_offset + 4 <= w,
        y_offset + 4 <= h,
        0 <= phase < 4,
    ensures
        step(glider_phase(w, h, x_offset, y_offset, phase), w, h) == glider_phase(
            w,
            h,
            x_offset,
            y_offset,
            phase + 1,
        ),
{
    let now = glider_phase(w, h, x_offset, y_offset, phase);
    let then = glider_phase(w, h, x_offset, y_offset, phase + 1);
    assert forall|i: int| 0 <= i < now.len() implies #[trigger] step(now, w, h)[i] == then[i] by {
        lemma_index_coordinates(w, h, i);
        let x = i % w;
        let y = i / w;
        lemma_glider_phase_cell(w, h, x_offset, y_offset, phase, x - 1, y - 1);
        lemma_glider_phase_cell(w, h, x_offset, y_offset, phase, x, y - 1);
        lemma_glider_phase_cell(w, h, x_offset, y_offset, phase, x + 1, y - 1);
        lemma_glider_phase_cell(w, h, x_offset, y_offset, phase, x - 1, y);
        lemma_glider_phase_cell(w, h, x_offset, y_offset, phase, x, y);
        lemma_glider_phase_cell(w, h, x_offset, y_offset, phase, x + 1, y);
        lemma_glider_phase_cell(w, h, x_offset, y_offset, phase, x - 1, y + 1);
        lemma_glider_phase_cell(w, h, x_offset, y_offset, phase, x, y + 1);
        lemma_glider_phase_cell(w, h, x_offset, y_offset, phase, x + 1, y + 1);
    }
    assert(step(now, w, h) =~= then);
}

/// Four generations take a glider one cell down and one cell to the right,
/// in the shape that it had, as long as it keeps clear of the rim on its
/// way.
pub proof fn lemma_glider_travels(w: int, h: int, x_offset: int, y_offset: int)
    requires
        0 <= x_offset,
        0 <= y_offset,
        x_offset + 4 <= w,
        y_offset + 4 <= h,
    ensures
        generations(glider_at(w, h, x_offset, y_offset), w, h, 4) == glider_at(
            w,
            h,
            x_offset + 1,
            y_offset + 1,
        ),
{
    lemma_glider_art();
    let start = glider_at(w, h, x_offset, y_offset);
    assert(start =~= glider_phase(w, h, x_offset, y_offset, 0));
    assert(glider_at(w, h, x_offset + 1, y_offset + 1) =~= glider_phase(
        w,
        h,
        x_offset,
        y_offset,
        4,
    ));
    lemma_glider_phase_step(w, h, x_offset, y_offset, 0);
    lemma_glider_phase_step(w, h, x_offset, y_offset, 1);
    lemma_glider_phase_step(w, h, x_offset, y_offset, 2);
    lemma_glider_phase_step(w, h, x_offset, y_offset, 3);
    reveal_with_fuel(generations, 5);
}

} // verus!
