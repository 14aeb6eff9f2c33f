//! The whole game: nine boards, the active board and the overall outcome.

use vstd::prelude::*;
use crate::bitboard::{BitBoard, can_win, lemma_same_board, line_full, line_open, outcome, wins};
use crate::board::{Slot, State};
use crate::counting::possible_to_win;
use crate::moves::{Move, check_move, is_legal, legal, legal_moves, lemma_pack};
use crate::random::{choose_move, entropy_rng, seeded_rng};
use rand::rngs::SmallRng;

verus! {

/// The cell of the meta-board that stands for a board with outcome `st`.
pub open spec fn meta_slot(st: State) -> Slot {
    match st {
        State::Won => Slot::X,
        State::Lost => Slot::O,
        State::Tied => Slot::Disabled,
        State::Undecided => Slot::Empty,
    }
}

/// Nine boards, the board the next move must be played in (`9`: any
/// undecided board), and the outcome of the whole game.
#[derive(Debug, Clone, Copy, PartialEq, Eq, Hash)]
pub struct Game {
    pub boards: [BitBoard; 9],
    pub active: u8,
    pub status: State,
}

impl Game {
    pub open spec fn wf(self) -> bool {
        &&& forall|i: int| 0 <= i < 9 ==> (#[trigger] self.boards@[i]).wf()
        &&& self.active <= 9
    }

    /// The meta-board: one cell per board, read from that board's outcome.
    pub open spec fn meta_cells(self) -> Seq<Slot> {
        Seq::new(9, |i: int| meta_slot(self.boards@[i].status()))
    }

    /// `next` is `self` after `side` plays `mv`: the cell is taken, that
    /// board's outcome and the game's are computed afresh, and the next move
    /// goes to the board named by the cell, or anywhere if that board is decided.
    pub open spec fn moved(self, mv: Move, side: Slot, next: Game) -> bool {
        let g = mv.board_of() as int;
        let i = mv.cell_of() as int;
        &&& next.wf()
        &&& forall|j: int| 0 <= j < 9 && j != g ==> next.boards@[j] == self.boards@[j]
        &&& next.boards@[g].cells() == self.boards@[g].cells().update(i, side)
        &&& next.boards@[g].status() == outcome(next.boards@[g].cells())
        &&& next.status == outcome(next.meta_cells())
        &&& next.active == if next.boards@[i].status() != State::Undecided {
            9
        } else {
            i as u8
        }
    }

    /// The position can arise in play: each board's outcome is the one its
    /// cells give, the game's is the one the meta-board gives, no board holds
    /// a disabled cell, and the active board, if one is named, is undecided.
    pub open spec fn consistent(self) -> bool {
        &&& self.wf()
        &&& forall|i: int|
            0 <= i < 9 ==> (#[trigger] self.boards@[i]).status() == outcome(self.boards@[i].cells())
        &&& forall|i: int, c: int|
            0 <= i < 9 && 0 <= c < 9 ==> (#[trigger] self.boards@[i].cell(c)) != Slot::Disabled
        &&& self.status == outcome(self.meta_cells())
        &&& (self.active == 9 || self.boards@[self.active as int].status() == State::Undecided)
    }

    /// `self` is `g` seen from the other side.
    pub open spec fn is_mirror_of(self, g: Game) -> bool {
        &&& forall|i: int|
            0 <= i < 9 ==> (#[trigger] self.boards@[i]).cells() == g.boards@[i].cells().map_values(
                |s: Slot| s.opposite(),
            )
        &&& forall|i: int|
            0 <= i < 9 ==> (#[trigger] self.boards@[i]).status() == g.boards@[i].status().opposite()
        &&& self.active == g.active
        &&& self.status == g.status.opposite()
    }

    /// All boards empty, any board playable, nothing decided.
    pub fn new() -> (r: Game)
        ensures
            r.wf(),
            forall|i: int|
                0 <= i < 9 ==> (#[trigger] r.boards@[i]).cells() == Seq::new(
                    9,
                    |j: int| Slot::Empty,
                ) && r.boards@[i].status() == State::Undecided,
            r.active == 9,
            r.status == State::Undecided,
            r.consistent(),
    {
        let b = BitBoard::new();
        let r = Game { boards: [b;9], active: 9, status: State::Undecided };
        proof {
            lemma_open_board_undecided(b.cells());
            assert(r.meta_cells() =~= Seq::new(9, |j: int| Slot::Empty));
            lemma_open_board_undecided(r.meta_cells());
            assert forall|i: int, c: int| 0 <= i < 9 && 0 <= c < 9 implies (#[trigger] r.boards@[i].cell(c))
                != Slot::Disabled by {
                assert(r.boards@[i] == b);
                assert(b.cells()[c] == b.cell(c));
            }
        }
        r
    }

    /// A fixture: board 0 tied, board 1 won along its top row, board 2 lost
    /// along its top row; all else as in a new game.
    pub fn _test() -> (r: Game)
        ensures
            r.wf(),
            r.boards@[0].status() == State::Tied,
            r.boards@[1].status() == State::Won,
            r.boards@[2].status() == State::Lost,
            r.active == 9,
            r.status == State::Undecided,
    {
        let e = Slot::Empty;
        let x = Slot::X;
        let o = Slot::O;
        let mut g = Game::new();
        let mut b0 = BitBoard::new_with([x, o, x, x, o, o, o, x, x]);
        b0.set_state(State::Tied);
        g.boards[0] = b0;
        let mut b1 = BitBoard::new_with([x, x, x, e, e, e, e, e, e]);
        b1.set_state(State::Won);
        g.boards[1] = b1;
        let mut b2 = BitBoard::new_with([o, o, o, e, e, e, e, e, e]);
        b2.set_state(State::Lost);
        g.boards[2] = b2;
        g
    }

    pub fn state(&self) -> (r: State)
        ensures
            r == self.status,
    {
        self.status
    }

    pub fn set_state(&mut self, st: State)
        ensures
            *final(self) == (Game { status: st, ..*old(self) }),
    {
        self.status = st;
    }

    /// The game seen from the other side.
    pub fn flip(&self) -> (r: Game)
        requires
            self.wf(),
        ensures
            r.wf(),
            r.is_mirror_of(*self),
    {
        let mut new = *self;
        let mut i: usize = 0;
        while i < 9
            invariant
                i <= 9,
                self.wf(),
                new.active == self.active,
                new.status == self.status,
                forall|j: int| i <= j < 9 ==> new.boards@[j] == self.boards@[j],
                forall|j: int| 0 <= j < 9 ==> (#[trigger] new.boards@[j]).wf(),
                forall|j: int|
                    0 <= j < i ==> (#[trigger] new.boards@[j]).cells()
                        == self.boards@[j].cells().map_values(|s: Slot| s.opposite())
                        && new.boards@[j].status() == self.boards@[j].status().opposite(),
            decreases 9 - i,
        {
            let mut b = new.boards[i];
            b.flip();
            new.boards[i] = b;
            i = i + 1;
        }
        new.status = new.status.flip();
        new
    }

    /// The meta-board as a board of its own: a won board is a cell of X, a
    /// lost one a cell of O, a tied one a disabled cell, an undecided one empty.
    pub fn shrink(&self) -> (r: BitBoard)
        requires
            self.wf(),
        ensures
            r.wf(),
            r.cells() == self.meta_cells(),
            r.status() == State::Undecided,
    {
        let mut arr = [Slot::Empty;9];
        let mut i: usize = 0;
        while i < 9
            invariant
                i <= 9,
                self.wf(),
                forall|j: int| 0 <= j < i ==> arr@[j] == meta_slot(self.boards@[j].status()),
            decreases 9 - i,
        {
            arr[i] = match self.boards[i].state() {
                State::Won => Slot::X,
                State::Lost => Slot::O,
                State::Tied => Slot::Disabled,
                State::Undecided => Slot::Empty,
            };
            i = i + 1;
        }
        assert(arr@ =~= self.meta_cells());
        BitBoard::new_with(arr)
    }

    /// Up to `times` moves, each picked at random among the legal ones,
    /// played alternately by X and O from a fresh game; stops early when no
    /// move is left.
    fn random_walk(times: u8, rng: &mut SmallRng) -> (r: Game)
        ensures
            r.consistent(),
    {
        let mut g = Game::new();
        let mut side = Slot::X;
        let mut n: u8 = 0;
        while n < times
            invariant
                g.consistent(),
                side.is_side(),
            decreases times - n,
        {
            let lgms = legal_moves(&g);
            if lgms.len() == 0 {
                break;
            }
            let mv = choose_move(&lgms, rng);
            proof {
                let k = choose|k: int| 0 <= k < lgms@.len() && lgms@[k] == mv;
                assert(legal(g, lgms@[k]));
            }
            let _ = g.make_move(mv, side);
            side = side.flip();
            n = n + 1;
        }
        g
    }

    /// A game after up to `times` random legal moves, drawn from a generator
    /// with a fixed seed, so the same `times` always gives the same game.
    pub fn random(times: u8) -> (r: Game)
        ensures
            r.consistent(),
    {
        let mut rng = seeded_rng(42);
        Game::random_walk(times, &mut rng)
    }

    /// A game after up to `times` random legal moves, drawn from a generator
    /// seeded from entropy.
    pub fn random_seedless(times: u8) -> (r: Game)
        ensures
            r.consistent(),
    {
        let mut rng = entropy_rng();
        Game::random_walk(times, &mut rng)
    }

    /// `self` after `side` plays `mv`, or why the move is refused.
    pub fn sim_move(&self, mv: Move, side: Slot) -> (r: Result<Game, &'static str>)
        requires
            self.wf(),
            mv.valid(),
            side.is_side(),
        ensures
            match r {
                Ok(next) => check_move(*self, mv) is Ok && self.moved(mv, side, next) && (
                self.consistent() ==> next.consistent()),
                Err(e) => check_move(*self, mv) == Err::<(), &'static str>(e),
            },
    {
        let mut new = *self;
        match new.make_move(mv, side) {
            Ok(()) => Ok(new),
            Err(e) => Err(e),
        }
    }

    /// Plays `mv` for `side` if it is legal; otherwise leaves the game as it
    /// is and says why.
    pub fn make_move(&mut self, mv: Move, side: Slot) -> (r: Result<(), &'static str>)
        requires
            old(self).wf(),
            mv.valid(),
            side.is_side(),
        ensures
            r == check_move(*old(self), mv),
            r is Err ==> *final(self) == *old(self),
            r is Ok ==> old(self).moved(mv, side, *final(self)),
            r is Ok && old(self).consistent() ==> final(self).consistent(),
    {
        match is_legal(self, mv) {
            Ok(()) => {},
            Err(e) => {
                return Err(e);
            },
        }
        let g = mv.game() as usize;
        let idx = mv.index();
        let mut brd = self.boards[g];
        brd.place(idx as u32, side);
        if brd.won_by_x() {
            brd.set_state(State::Won);
        } else if brd.won_by_o() {
            brd.set_state(State::Lost);
        } else if !possible_to_win(brd) {
            brd.set_state(State::Tied);
        }
        self.boards[g] = brd;
        let shrunken = self.shrink();
        if shrunken.won_by_x() {
            self.status = State::Won;
        } else if shrunken.won_by_o() {
            self.status = State::Lost;
        } else if !possible_to_win(shrunken) {
            self.status = State::Tied;
        } else {
            self.status = State::Undecided;
        }
        if self.boards[idx as usize].state() != State::Undecided {
            self.active = 9;
        } else {
            self.active = idx;
        }
        proof {
            if old(self).consistent() {
                lemma_moved_consistent(*old(self), mv, side, *self);
            }
        }
        Ok(())
    }
}

/// A board with no cell but empty ones is undecided.
proof fn lemma_open_board_undecided(cells: Seq<Slot>)
    requires
        cells == Seq::new(9, |j: int| Slot::Empty),
    ensures
        outcome(cells) == State::Undecided,
{
    assert(line_open(cells, 0, Slot::X));
    assert forall|k: int| 0 <= k < 8 implies !#[trigger] line_full(cells, k, Slot::X) && !line_full(
        cells,
        k,
        Slot::O,
    ) by {}
}

/// An undecided board has an empty cell.
pub proof fn lemma_undecided_has_empty(cells: Seq<Slot>)
    requires
        cells.len() == 9,
        outcome(cells) == State::Undecided,
    ensures
        exists|c: int| 0 <= c < 9 && cells[c] == Slot::Empty,
{
    let side = if can_win(cells, Slot::X) {
        Slot::X
    } else {
        Slot::O
    };
    let k = choose|k: int| 0 <= k < 8 && #[trigger] line_open(cells, k, side);
    assert(!line_full(cells, k, side));
    let (a, b, c) = crate::bitboard::line(k);
    if cells[a] == Slot::Empty {
        assert(0 <= a < 9);
    } else if cells[b] == Slot::Empty {
        assert(0 <= b < 9);
    } else {
        assert(cells[c] == Slot::Empty);
    }
}

/// A move keeps a consistent position consistent.
pub proof fn lemma_moved_consistent(g: Game, mv: Move, side: Slot, next: Game)
    requires
        g.consistent(),
        side.is_side(),
        mv.valid(),
        g.moved(mv, side, next),
    ensures
        next.consistent(),
{
    let b = mv.board_of() as int;
    assert forall|i: int, c: int| 0 <= i < 9 && 0 <= c < 9 implies (#[trigger] next.boards@[i].cell(c))
        != Slot::Disabled by {
        if i == b {
            assert(next.boards@[b].cells()[c] == next.boards@[b].cell(c));
            assert(g.boards@[b].cells()[c] == g.boards@[b].cell(c));
        } else {
            assert(next.boards@[i] == g.boards@[i]);
        }
    }
}

/// A consistent game that is not over has a legal move.
pub proof fn lemma_undecided_has_move(g: Game)
    requires
        g.consistent(),
        g.status == State::Undecided,
    ensures
        exists|m: Move| legal(g, m),
{
    let meta = g.meta_cells();
    lemma_undecided_has_empty(meta);
    let j = choose|j: int| 0 <= j < 9 && meta[j] == Slot::Empty;
    let bi: int = if g.active == 9 {
        j
    } else {
        g.active as int
    };
    assert(g.boards@[bi].status() == State::Undecided);
    lemma_undecided_has_empty(g.boards@[bi].cells());
    let c = choose|c: int| 0 <= c < 9 && g.boards@[bi].cells()[c] == Slot::Empty;
    let bu = bi as u8;
    let cu = c as u8;
    lemma_pack(bu, cu);
    let m = Move((cu & 15u8) | ((bu & 15u8) << 4u8));
    assert(legal(g, m));
}

/// The position after a move is determined by the position and the move.
pub proof fn lemma_moved_unique(g: Game, mv: Move, side: Slot, n1: Game, n2: Game)
    requires
        g.wf(),
        mv.valid(),
        g.moved(mv, side, n1),
        g.moved(mv, side, n2),
    ensures
        n1 == n2,
{
    let b = mv.board_of() as int;
    assert forall|j: int| 0 <= j < 9 implies n1.boards@[j] == n2.boards@[j] by {
        if j == b {
            assert(n1.boards@[j].wf() && n2.boards@[j].wf());
            lemma_same_board(n1.boards@[j], n2.boards@[j]);
        }
    }
    assert(n1.boards =~= n2.boards);
    assert(n1.meta_cells() =~= n2.meta_cells());
}

/// Whether two games are the same value, field by field.
pub(crate) fn same_game(a: &Game, b: &Game) -> (r: bool)
    ensures
        r == (*a == *b),
{
    let mut i: usize = 0;
    while i < 9
        invariant
            i <= 9,
            forall|j: int| 0 <= j < i ==> a.boards@[j] == b.boards@[j],
        decreases 9 - i,
    {
        if a.boards[i].0 != b.boards[i].0 {
            return false;
        }
        i = i + 1;
    }
    assert(a.boards =~= b.boards);
    a.active == b.active && a.status == b.status
}

/// Mirroring a game twice gives the game back.
pub proof fn lemma_mirror_twice(g: Game, h: Game, k: Game)
    requires
        g.wf(),
        h.wf(),
        k.wf(),
        h.is_mirror_of(g),
        k.is_mirror_of(h),
    ensures
        k == g,
{
    assert forall|i: int| 0 <= i < 9 implies k.boards@[i] == g.boards@[i] by {
        assert(k.boards@[i].wf() && g.boards@[i].wf());
        assert(k.boards@[i].cells() =~= g.boards@[i].cells());
        lemma_same_board(k.boards@[i], g.boards@[i]);
    }
    assert(k.boards =~= g.boards);
}

impl Default for Game {
    fn default() -> (r: Game)
        ensures
            r.wf(),
            r.active == 9,
            r.status == State::Undecided,
    {
        Game::new()
    }
}

} // verus!
