//! Moves, their legality, and the list of legal moves.

use vstd::prelude::*;
use vstd::string::StringSliceAdditionalSpecFns;
use crate::board::{Slot, State};
use crate::game::Game;

verus! {

/// A move packed into one byte: the upper four bits name the board, the lower
/// four the cell in it.
#[derive(Debug, Clone, Copy, PartialEq, Eq, Hash, Structural)]
pub struct Move(pub u8);

pub const ERR_FINISHED: &'static str = "That game has been finished";

pub const ERR_OCCUPIED: &'static str = "square is not empty";

pub const ERR_INACTIVE: &'static str = "must play in the active board";

pub(crate) proof fn lemma_pack(g: u8, i: u8)
    by (bit_vector)
    ensures
        ((i & 15u8) | ((g & 15u8) << 4u8)) >> 4u8 == g & 15u8,
        ((i & 15u8) | ((g & 15u8) << 4u8)) & 15u8 == i & 15u8,
        ((i & 15u8) | ((g & 15u8) << 4u8)) == (g & 15u8) * 16 + (i & 15u8),
        g < 16 ==> g & 15u8 == g,
        i < 16 ==> i & 15u8 == i,
{
}

proof fn lemma_unpack(x: u8)
    by (bit_vector)
    ensures
        x == (x >> 4u8) * 16 + (x & 15u8),
        x & 15u8 < 16,
{
}

impl Move {
    /// The board the move is played in.
    pub open spec fn board_of(self) -> u8 {
        self.0 >> 4u8
    }

    /// The cell the move takes.
    pub open spec fn cell_of(self) -> u8 {
        self.0 & 15u8
    }

    /// Both halves name one of the nine boards and cells.
    pub open spec fn valid(self) -> bool {
        self.board_of() < 9 && self.cell_of() < 9
    }

    /// The move into cell `index` of board `game`; each is kept to four bits.
    pub fn new(game: u8, index: u8) -> (r: Move)
        ensures
            r.board_of() == game & 15u8,
            r.cell_of() == index & 15u8,
            r.0 == (game & 15u8) * 16 + (index & 15u8),
            game < 16 ==> r.board_of() == game,
            index < 16 ==> r.cell_of() == index,
    {
        proof {
            lemma_pack(game, index);
        }
        let idx_b = index & 0b00001111;
        let gam_b = (game & 0b00001111) << 4;
        Move(idx_b | gam_b)
    }

    pub fn game(&self) -> (r: u8)
        ensures
            r == self.board_of(),
    {
        self.0 >> 4
    }

    pub fn set_game(&mut self, idx: u8)
        requires
            idx <= 9,
        ensures
            final(self).board_of() == idx,
            final(self).cell_of() == old(self).cell_of(),
    {
        let v = self.0;
        let i = v & 0b00001111;
        proof {
            lemma_pack(idx, i);
            assert(i & 15u8 == i) by (bit_vector)
                requires
                    i == v & 15u8,
            ;
        }
        self.0 = i | ((idx & 0b00001111) << 4);
    }

    pub fn index(&self) -> (r: u8)
        ensures
            r == self.cell_of(),
    {
        self.0 & 0b00001111
    }

    pub fn set_idx(&mut self, idx: u8)
        requires
            idx <= 9,
        ensures
            final(self).cell_of() == idx,
            final(self).board_of() == old(self).board_of(),
    {
        let v = self.0;
        let g = v >> 4;
        proof {
            lemma_pack(g, idx);
            assert(g < 16) by (bit_vector)
                requires
                    g == v >> 4u8,
            ;
        }
        self.0 = (idx & 0b00001111) | (g << 4);
    }
}

/// Why `mv` may not be played in `game`, checked in this order: its board is
/// decided, its cell is taken, or another board is active.
pub open spec fn check_move(game: Game, mv: Move) -> Result<(), &'static str> {
    let b = game.boards@[mv.board_of() as int];
    if b.status() != State::Undecided {
        Err(ERR_FINISHED)
    } else if b.cell(mv.cell_of() as int) != Slot::Empty {
        Err(ERR_OCCUPIED)
    } else if game.active != mv.board_of() && game.active != 9 {
        Err(ERR_INACTIVE)
    } else {
        Ok(())
    }
}

pub open spec fn legal(game: Game, mv: Move) -> bool {
    mv.valid() && check_move(game, mv) is Ok
}

pub fn is_legal(game: &Game, mv: Move) -> (r: Result<(), &'static str>)
    requires
        game.wf(),
        mv.valid(),
    ensures
        r == check_move(*game, mv),
{
    let brd = game.boards[mv.game() as usize];
    if brd.state() != State::Undecided {
        return Err(ERR_FINISHED);
    }
    let ci = mv.index() as u32;
    let bits = brd.0;
    let idx: u32 = 1u32 << (18 + ci);
    proof {
        crate::bitboard::lemma_cell_iff(brd.0, mv.cell_of() as u32);
    }
    if bits & idx != idx {
        assert(bits & idx != idx ==> bits & idx == 0) by (bit_vector)
            requires
                idx == 1u32 << (18 + ci),
                ci < 9,
        ;
        return Err(ERR_OCCUPIED);
    }
    assert(bits & idx == idx ==> bits & idx != 0) by (bit_vector)
        requires
            idx == 1u32 << (18 + ci),
            ci < 9,
    ;
    if game.active != mv.game() && game.active != 9 {
        return Err(ERR_INACTIVE);
    }
    Ok(())
}

/// Whether `mv` may be played in `game`.
pub fn fast_legal(game: &Game, mv: Move) -> (r: bool)
    requires
        game.wf(),
        mv.valid(),
    ensures
        r == (check_move(*game, mv) is Ok),
{
    let brd = game.boards[mv.game() as usize];
    let in_finished = brd.0 >> 27 != 0;
    let cell = 18 + mv.index() as u32;
    proof {
        crate::bitboard::lemma_cell_iff(brd.0, mv.cell_of() as u32);
    }
    let in_occupied = brd.0 & (1u32 << cell) == 0;
    let not_active = game.active != mv.game() && game.active != 9;
    !(not_active || in_occupied || in_finished)
}

/// Every legal move of `game`, ordered by board and then by cell.
pub fn legal_moves(game: &Game) -> (r: Vec<Move>)
    requires
        game.wf(),
    ensures
        forall|k: int| 0 <= k < r@.len() ==> legal(*game, #[trigger] r@[k]),
        forall|m: Move| legal(*game, m) ==> r@.contains(m),
        forall|k: int, l: int| 0 <= k < l < r@.len() ==> r@[k].0 < r@[l].0,
{
    let mut mvs: Vec<Move> = Vec::with_capacity(80);
    let mut bdx: u8 = 0;
    while bdx < 9
        invariant
            bdx <= 9,
            game.wf(),
            forall|k: int| 0 <= k < mvs@.len() ==> legal(*game, #[trigger] mvs@[k]),
            forall|k: int| 0 <= k < mvs@.len() ==> (#[trigger] mvs@[k]).0 < bdx as int * 16,
            forall|k: int, l: int| 0 <= k < l < mvs@.len() ==> mvs@[k].0 < mvs@[l].0,
            forall|m: Move| legal(*game, m) && m.board_of() < bdx ==> mvs@.contains(m),
        decreases 9 - bdx,
    {
        let mut idx: u8 = 0;
        while idx < 9
            invariant
                bdx < 9,
                idx <= 9,
                game.wf(),
                forall|k: int| 0 <= k < mvs@.len() ==> legal(*game, #[trigger] mvs@[k]),
                forall|k: int|
                    0 <= k < mvs@.len() ==> (#[trigger] mvs@[k]).0 < bdx as int * 16 + idx,
                forall|k: int, l: int| 0 <= k < l < mvs@.len() ==> mvs@[k].0 < mvs@[l].0,
                forall|m: Move|
                    legal(*game, m) && (m.board_of() < bdx || (m.board_of() == bdx
                        && m.cell_of() < idx)) ==> mvs@.contains(m),
            decreases 9 - idx,
        {
            let m = Move::new(bdx, idx);
            let ghost before = mvs@;
            if fast_legal(game, m) {
                mvs.push(m);
                proof {
                    assert(mvs@[before.len() as int] == m);
                    assert forall|x: Move|
                        legal(*game, x) && (x.board_of() < bdx || (x.board_of() == bdx
                            && x.cell_of() < idx + 1)) implies mvs@.contains(x) by {
                        if x.board_of() == bdx && x.cell_of() == idx {
                            lemma_unpack(x.0);
                            assert(x == m);
                        } else {
                            assert(before.contains(x));
                            let k = choose|k: int| 0 <= k < before.len() && before[k] == x;
                            assert(mvs@[k] == x);
                        }
                    }
                }
            } else {
                proof {
                    assert forall|x: Move|
                        legal(*game, x) && (x.board_of() < bdx || (x.board_of() == bdx
                            && x.cell_of() < idx + 1)) implies mvs@.contains(x) by {
                        if x.board_of() == bdx && x.cell_of() == idx {
                            lemma_unpack(x.0);
                            assert(x == m);
                        }
                    }
                }
            }
            idx = idx + 1;
        }
        bdx = bdx + 1;
    }
    mvs
}

pub const ERR_LENGTH: &'static str = "Move string must be 1 or 2 chars";

pub const ERR_SHORTHAND: &'static str = "Can only use shorthand notation when a specific board is active";

pub const ERR_BOARD: &'static str = "game must be within a to i";

pub const ERR_INDEX: &'static str = "index must be between 1 and 9";

/// What the text `b` names when board `active` is active: a letter `a`-`i`
/// for the board and a digit `1`-`9` for the cell, or the digit alone when a
/// board is active. The result is the (board, cell) pair counted from zero.
pub open spec fn parsed(b: Seq<u8>, active: u8) -> Result<(u8, u8), &'static str> {
    if b.len() > 2 || b.len() == 0 {
        Err(ERR_LENGTH)
    } else if active == 9 && b.len() == 1 {
        Err(ERR_SHORTHAND)
    } else if b.len() == 2 && !(0x61 <= b[0] <= 0x69) {
        Err(ERR_BOARD)
    } else if !(0x31 <= b[b.len() - 1] <= 0x39) {
        Err(ERR_INDEX)
    } else if b.len() == 1 {
        Ok((active, (b[0] - 0x31) as u8))
    } else {
        Ok(((b[0] - 0x61) as u8, (b[1] - 0x31) as u8))
    }
}

/// Reads a move typed by a player (see `parsed`).
pub fn parse_move(input: &str, active: u8) -> (r: Result<Move, &'static str>)
    requires
        active <= 9,
    ensures
        match (r, parsed(input.spec_bytes(), active)) {
            (Ok(m), Ok((g, c))) => m.board_of() == g && m.cell_of() == c,
            (Err(e), Err(e2)) => e == e2,
            _ => false,
        },
{
    let bs = input.as_bytes();
    let n = bs.len();
    assert(bs@ == input.spec_bytes());
    if n > 2 || n == 0 {
        return Err(ERR_LENGTH);
    }
    if active == 9 && n == 1 {
        return Err(ERR_SHORTHAND);
    }
    // Letters `a` to `i` name the boards, digits `1` to `9` the cells.
    if n == 2 && !(0x61u8 <= bs[0] && bs[0] <= 0x69u8) {
        return Err(ERR_BOARD);
    }
    let d = bs[n - 1];
    if !(0x31u8 <= d && d <= 0x39u8) {
        return Err(ERR_INDEX);
    }
    // The board stays out of range until a letter names one.
    let mut mov = Move::new(active, 9);
    if n == 2 {
        mov.set_game(bs[0] - 0x61);
    }
    mov.set_idx(d - 0x31);
    Ok(mov)
}

} // verus!
