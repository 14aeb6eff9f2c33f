//! Precomputed replies for the opening: the engine's move after each first
//! move of O, and after each second move of O that follows the engine's reply.

use vstd::prelude::*;
use crate::board::Slot;
use crate::counting::{alpha_beta, no_move};
use crate::game::Game;
use crate::moves::{Move, legal, legal_moves};

verus! {

/// Positions paired with the engine's reply in them.
pub struct OpeningBook(pub Vec<(Game, Move)>);

impl OpeningBook {
    /// Every entry pairs a sound position with a legal reply in it, or with
    /// the "none chosen" move where the search found none.
    pub open spec fn sound(&self) -> bool {
        forall|k: int|
            0 <= k < self.0@.len() ==> (#[trigger] self.0@[k]).0.wf() && (self.0@[k].1 == no_move()
                || legal(self.0@[k].0, self.0@[k].1))
    }

    /// For each first move of O in a new game: that position and the
    /// engine's reply; then, after the reply, for each move of O: that
    /// position and the engine's reply.
    pub fn generate() -> (r: OpeningBook)
        ensures
            r.sound(),
    {
        let mut inner: Vec<(Game, Move)> = Vec::new();
        let game = Game::new();
        let firsts = legal_moves(&game);
        let mut i: usize = 0;
        while i < firsts.len()
            invariant
                game.wf(),
                forall|k: int| 0 <= k < firsts@.len() ==> legal(game, #[trigger] firsts@[k]),
                forall|k: int|
                    0 <= k < inner@.len() ==> (#[trigger] inner@[k]).0.wf() && (inner@[k].1
                        == no_move() || legal(inner@[k].0, inner@[k].1)),
            decreases firsts@.len() - i,
        {
            let mv = firsts[i];
            assert(legal(game, firsts@[i as int]));
            i = i + 1;
            let sub1 = match game.sim_move(mv, Slot::O) {
                Ok(g) => g,
                Err(_) => {
                    continue;
                },
            };
            let (_scr, refutation) = alpha_beta(&sub1);
            inner.push((sub1, refutation));
            if refutation.0 == 0xFF {
                continue;
            }
            let sub2 = match sub1.sim_move(refutation, Slot::X) {
                Ok(g) => g,
                Err(_) => {
                    continue;
                },
            };
            let seconds = legal_moves(&sub2);
            let mut j: usize = 0;
            while j < seconds.len()
                invariant
                    sub2.wf(),
                    forall|k: int| 0 <= k < seconds@.len() ==> legal(sub2, #[trigger] seconds@[k]),
                    forall|k: int|
                        0 <= k < inner@.len() ==> (#[trigger] inner@[k]).0.wf() && (inner@[k].1
                            == no_move() || legal(inner@[k].0, inner@[k].1)),
                decreases seconds@.len() - j,
            {
                let lg = seconds[j];
                assert(legal(sub2, seconds@[j as int]));
                j = j + 1;
                match sub2.sim_move(lg, Slot::O) {
                    Ok(sub3) => {
                        let (_scr, reply) = alpha_beta(&sub3);
                        inner.push((sub3, reply));
                    },
                    Err(_) => {},
                }
            }
        }
        OpeningBook(inner)
    }
}

} // verus!
