//! Zobrist hashing of positions: one random key per (board, cell, side), one
//! per value of the active board, and one for the side to move; a position's
//! hash is the exclusive or of the keys of what it holds.

use vstd::prelude::*;
use crate::board::Slot;
use crate::game::Game;
use crate::random::{next_random, seeded_rng};

verus! {

proof fn lemma_xor_zero(x: u64)
    by (bit_vector)
    ensures
        x ^ 0u64 == x,
{
}

/// The key table. It is built once, from a seed, and then only read.
pub struct Zobrist {
    cell_keys: Vec<u64>,
    active_keys: Vec<u64>,
    turn_key: u64,
}

impl Zobrist {
    pub closed spec fn wf(&self) -> bool {
        self.cell_keys@.len() == 162 && self.active_keys@.len() == 10
    }

    /// The key of `s` in cell `c` of board `b`; empty and disabled cells have none.
    closed spec fn cell_key(&self, b: int, c: int, s: Slot) -> u64 {
        if s == Slot::X {
            self.cell_keys@[b * 18 + c * 2]
        } else if s == Slot::O {
            self.cell_keys@[b * 18 + c * 2 + 1]
        } else {
            0
        }
    }

    closed spec fn hash_cells(&self, b: int, cells: Seq<Slot>, n: int) -> u64
        decreases n,
    {
        if n <= 0 {
            0
        } else {
            self.hash_cells(b, cells, n - 1) ^ self.cell_key(b, n - 1, cells[n - 1])
        }
    }

    closed spec fn hash_boards(&self, g: Game, n: int) -> u64
        decreases n,
    {
        if n <= 0 {
            0
        } else {
            self.hash_boards(g, n - 1) ^ self.hash_cells(n - 1, g.boards@[n - 1].cells(), 9)
        }
    }

    /// The hash of `g` with `side` to move.
    pub closed spec fn hash_of(&self, g: Game, side: Slot) -> u64 {
        self.hash_boards(g, 9) ^ self.active_keys@[g.active as int] ^ if side == Slot::X {
            self.turn_key
        } else {
            0
        }
    }

    /// The key table drawn from a generator seeded with `seed`.
    pub fn new(seed: u64) -> (r: Zobrist)
        ensures
            r.wf(),
    {
        let mut rng = seeded_rng(seed);
        let mut cell_keys: Vec<u64> = Vec::new();
        while cell_keys.len() < 162
            invariant
                cell_keys@.len() <= 162,
            decreases 162 - cell_keys@.len(),
        {
            cell_keys.push(next_random(&mut rng));
        }
        let mut active_keys: Vec<u64> = Vec::new();
        while active_keys.len() < 10
            invariant
                active_keys@.len() <= 10,
            decreases 10 - active_keys@.len(),
        {
            active_keys.push(next_random(&mut rng));
        }
        let turn_key = next_random(&mut rng);
        Zobrist { cell_keys, active_keys, turn_key }
    }

    /// The hash of `game` with `side` to move.
    pub fn hash(&self, game: &Game, side: Slot) -> (r: u64)
        requires
            self.wf(),
            game.wf(),
        ensures
            r == self.hash_of(*game, side),
    {
        let mut h: u64 = 0;
        let mut b: usize = 0;
        while b < 9
            invariant
                b <= 9,
                self.wf(),
                game.wf(),
                h == self.hash_boards(*game, b as int),
            decreases 9 - b,
        {
            let brd = game.boards[b];
            let mut hc: u64 = 0;
            let mut c: usize = 0;
            while c < 9
                invariant
                    b < 9,
                    c <= 9,
                    self.wf(),
                    brd.wf(),
                    brd == game.boards@[b as int],
                    hc == self.hash_cells(b as int, brd.cells(), c as int),
                decreases 9 - c,
            {
                proof {
                    crate::bitboard::lemma_cell_iff(brd.0, c as u32);
                    assert(brd.cells()[c as int] == brd.cell(c as int));
                    lemma_xor_zero(hc);
                }
                if brd.0 & (1u32 << c as u32) != 0 {
                    hc = hc ^ self.cell_keys[b * 18 + c * 2];
                } else if brd.0 & (1u32 << (9 + c as u32)) != 0 {
                    hc = hc ^ self.cell_keys[b * 18 + c * 2 + 1];
                }
                c = c + 1;
            }
            h = h ^ hc;
            b = b + 1;
        }
        h = h ^ self.active_keys[game.active as usize];
        if side == Slot::X {
            h = h ^ self.turn_key;
        }
        proof {
            lemma_xor_zero(h);
        }
        h
    }

    proof fn lemma_hash_cells_eq(&self, b: int, c1: Seq<Slot>, c2: Seq<Slot>, n: int)
        requires
            n <= c1.len(),
            n <= c2.len(),
            forall|i: int| 0 <= i < n ==> c1[i] == c2[i],
        ensures
            self.hash_cells(b, c1, n) == self.hash_cells(b, c2, n),
        decreases n,
    {
        if n > 0 {
            self.lemma_hash_cells_eq(b, c1, c2, n - 1);
        }
    }

    proof fn lemma_hash_boards_eq(&self, g1: Game, g2: Game, n: int)
        requires
            n <= 9,
            forall|i: int| 0 <= i < 9 ==> (#[trigger] g1.boards@[i]).cells() == g2.boards@[i].cells(),
        ensures
            self.hash_boards(g1, n) == self.hash_boards(g2, n),
        decreases n,
    {
        if n > 0 {
            self.lemma_hash_boards_eq(g1, g2, n - 1);
            assert(g1.boards@[n - 1].cells() == g2.boards@[n - 1].cells());
        }
    }

    /// The hash depends on the cells of the boards, the active board and the
    /// side to move alone: two positions that agree on these hash alike.
    pub proof fn lemma_hash_determined(&self, g1: Game, g2: Game, side: Slot)
        requires
            forall|i: int| 0 <= i < 9 ==> (#[trigger] g1.boards@[i]).cells() == g2.boards@[i].cells(),
            g1.active == g2.active,
        ensures
            self.hash_of(g1, side) == self.hash_of(g2, side),
    {
        self.lemma_hash_boards_eq(g1, g2, 9);
    }
}

} // verus!
