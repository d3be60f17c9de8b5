//! Boards filled by chance. The coins come from the `rand` crate and are
//! taken on trust.

use crate::board::Board;
use crate::grid::{dead_grid, full_grid, lemma_index_coordinates};
use vstd::prelude::*;

verus! {

/// Flips a fair coin: `rand::random`, which draws from the random number
/// generator of the calling thread. That generator seeds itself from the
/// operating system and panics where it gets no seed. Nothing is claimed of
/// the outcome.
#[verifier::external_body]
fn coin_flip() -> bool {
    rand::random()
}

/// Flips a weighted coin: `rand::Rng::gen_ratio` on the random number
/// generator of the calling thread, which gives `true` with a chance of
/// `numerator` in `denominator`. It panics on a zero denominator and on a
/// numerator above the denominator, so those are ruled out. Claimed of the
/// outcome is only what does not hang on chance: a chance of one in one always
/// gives `true`, a chance of none always `false`.
#[verifier::external_body]
fn weighted_flip(numerator: u32, denominator: u32) -> (outcome: bool)
    requires
        0 < denominator,
        numerator <= denominator,
    ensures
        numerator == denominator ==> outcome,
        numerator == 0 ==> !outcome,
{
    rand::Rng::gen_ratio(&mut rand::thread_rng(), numerator, denominator)
}

impl<const W: usize, const H: usize> Board<W, H> {
    /// A board on which every cell is alive or dead by the flip of a fair
    /// coin.
    pub fn random() -> (board: Self)
        requires
            W * H <= usize::MAX,
        ensures
            board.wf(),
    {
        Self::generate(|_x: usize, _y: usize| -> (alive: bool) { coin_flip() })
    }

    /// A board on which every cell is alive with a chance of `numerator` in
    /// `denominator`, each cell on its own.
    pub fn random_ratio(numerator: u32, denominator: u32) -> (board: Self)
        requires
            W * H <= usize::MAX,
            0 < denominator,
            numerator <= denominator,
        ensures
            board.wf(),
            numerator == denominator ==> board@ == full_grid(W as int, H as int),
            numerator == 0 ==> board@ == dead_grid(W as int, H as int),
    {
        let board = Self::generate(
            |_x: usize, _y: usize| -> (alive: bool)
                ensures
                    numerator == denominator ==> alive,
                    numerator == 0 ==> !alive
                { weighted_flip(numerator, denominator) },
        );
        proof {
            let (w, h) = (W as int, H as int);
            assert forall|i: int| 0 <= i < board@.len() implies (numerator == denominator
                ==> board@[i]) && (numerator == 0 ==> !board@[i]) by {
                lemma_index_coordinates(w, h, i);
                let x = (i % w) as usize;
                let y = (i / w) as usize;
                assert(board.alive(x as int, y as int) == board@[i]);
            }
            if numerator == denominator {
                assert(board@ =~= full_grid(w, h));
            }
            if numerator == 0 {
                assert(board@ =~= dead_grid(w, h));
            }
        }
        board
    }
}

} // verus!
