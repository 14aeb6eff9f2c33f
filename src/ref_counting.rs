//! An earlier, simpler evaluation, kept as a yardstick for the current one.

use vstd::prelude::*;
use crate::bitboard::{BitBoard, can_win, corner_count, one_aways, wins};
use crate::board::{Slot, State};
use crate::counting::decided_bonus;
use crate::game::Game;
use crate::counting::child;
use crate::moves::{Move, legal, legal_moves};

verus! {

/// Score of one board for X under the earlier weights: corners of X count
/// one each, X's lines one move from completion five each (for X to move,
/// against X when O moves), O's such lines minus five each; a win for X or
/// O overrides this, O's taking precedence.
pub open spec fn ref_board_score(cells: Seq<Slot>, turn: Slot) -> int {
    if wins(cells, Slot::O) {
        -10_000
    } else if wins(cells, Slot::X) {
        10_000
    } else {
        corner_count(cells, Slot::X) + (if turn == Slot::X {
            5 * one_aways(cells, Slot::X)
        } else {
            0
        }) - (if turn == Slot::O {
            5 * one_aways(cells, Slot::X)
        } else {
            0
        }) - 5 * one_aways(cells, Slot::O)
    }
}

/// The sum of the decided bonuses of the first `n` boards.
pub open spec fn bonus_sum(g: Game, n: int) -> int
    decreases n,
{
    if n <= 0 {
        0
    } else {
        bonus_sum(g, n - 1) + decided_bonus(g.boards@[n - 1].status())
    }
}

/// Score of a game for X under the earlier evaluation, given the move that
/// led to it: the meta-board's score times 100; the board of the last move
/// scored for X, and, when that move sent play to its own board, the active
/// board scored for O; the active board scored for O when the last move was
/// played elsewhere; the decided bonuses; and 3 off when any board may be
/// chosen.
pub open spec fn ref_game_score(g: Game, last_move: Option<Move>) -> int {
    let meta = ref_board_score(g.meta_cells(), Slot::O) * 100;
    let after_last = match last_move {
        Some(m) => ref_board_score(g.boards@[m.board_of() as int].cells(), Slot::X) + if m.cell_of()
            == g.active {
            ref_board_score(g.boards@[g.active as int].cells(), Slot::O)
        } else {
            0
        },
        None => 0,
    };
    let active_term = if g.active != 9 && (last_move is None || last_move.unwrap().board_of()
        != g.active) {
        ref_board_score(g.boards@[g.active as int].cells(), Slot::O)
    } else {
        0
    };
    meta + after_last + active_term + bonus_sum(g, 9) - if g.active == 9 {
        3int
    } else {
        0
    }
}

fn score(board: BitBoard, turn: Slot) -> (r: i32)
    requires
        board.wf(),
    ensures
        r == ref_board_score(board.cells(), turn),
        -10_000 <= r <= 10_000,
{
    let mut score: i32 = 0;
    score = score + board.corners(Slot::X);
    if turn == Slot::X {
        score = score + 5 * board.one_aways_x();
    }
    if turn == Slot::O {
        score = score - 5 * board.one_aways_x();
    }
    score = score - 5 * board.one_aways_o();
    if board.won_by_x() {
        score = 10_000;
    }
    if board.won_by_o() {
        score = -10_000;
    }
    score
}

/// Score of `game` for X under the earlier evaluation (see `ref_game_score`).
pub fn ref_score_game(game: &Game, last_move: Option<Move>) -> (r: i32)
    requires
        game.wf(),
        last_move is Some ==> last_move.unwrap().valid(),
    ensures
        r == ref_game_score(*game, last_move),
{
    let mut scr: i32 = score(game.shrink(), Slot::O) * 100;
    match last_move {
        Some(m) => {
            scr = scr + score(game.boards[m.game() as usize], Slot::X);
            if m.index() == game.active {
                scr = scr + score(game.boards[game.active as usize], Slot::O);
            }
        },
        None => {},
    }
    let elsewhere = match last_move {
        Some(m) => m.game() != game.active,
        None => true,
    };
    if game.active != 9 && elsewhere {
        scr = scr + score(game.boards[game.active as usize], Slot::O);
    }
    let mut i: usize = 0;
    while i < 9
        invariant
            i <= 9,
            game.wf(),
            scr == ref_board_score(game.meta_cells(), Slot::O) * 100 + (match last_move {
                Some(m) => ref_board_score(game.boards@[m.board_of() as int].cells(), Slot::X)
                    + if m.cell_of() == game.active {
                    ref_board_score(game.boards@[game.active as int].cells(), Slot::O)
                } else {
                    0
                },
                None => 0,
            }) + (if game.active != 9 && (last_move is None || last_move.unwrap().board_of()
                != game.active) {
                ref_board_score(game.boards@[game.active as int].cells(), Slot::O)
            } else {
                0
            }) + bonus_sum(*game, i as int),
            -1_040_000 - 100 * i <= scr <= 1_040_000 + 100 * i,
        decreases 9 - i,
    {
        let st = game.boards[i].state();
        if st == State::Won {
            scr = scr + 100;
        } else if st == State::Lost {
            scr = scr - 100;
        }
        i = i + 1;
    }
    if game.active == 9 {
        scr = scr - 3;
    }
    scr
}

/// The earlier evaluation's score of playing `m` for X in `g`.
pub open spec fn reply_score(g: Game, m: Move) -> int {
    ref_game_score(child(g, m, true), Some(m))
}

/// The move X plays under the earlier evaluation: a legal move whose
/// resulting position scores highest. Among moves that tie with the best
/// found so far, the later one is taken where `coins` holds `false` for it.
/// `None` when no move is legal.
pub fn ref_reply(game: &Game, coins: &Vec<bool>) -> (r: Option<Move>)
    requires
        game.wf(),
    ensures
        r is None <==> !(exists|m: Move| legal(*game, m)),
        r is Some ==> legal(*game, r.unwrap()),
        r is Some ==> forall|m: Move| legal(*game, m) ==> reply_score(*game, m) <= reply_score(
            *game,
            r.unwrap(),
        ),
{
    let lgs = legal_moves(game);
    let mut best: Option<(Move, i32)> = None;
    let mut k: usize = 0;
    while k < lgs.len()
        invariant
            game.wf(),
            k <= lgs@.len(),
            forall|j: int| 0 <= j < lgs@.len() ==> legal(*game, #[trigger] lgs@[j]),
            best is None <==> k == 0,
            best is Some ==> legal(*game, best.unwrap().0) && best.unwrap().1 == reply_score(
                *game,
                best.unwrap().0,
            ),
            best is Some ==> forall|j: int|
                0 <= j < k ==> reply_score(*game, #[trigger] lgs@[j]) <= best.unwrap().1,
        decreases lgs@.len() - k,
    {
        let mv = lgs[k];
        assert(legal(*game, lgs@[k as int]));
        match game.sim_move(mv, Slot::X) {
            Ok(sim) => {
                proof {
                    crate::counting::lemma_child_is(*game, mv, true, sim);
                }
                let s = ref_score_game(&sim, Some(mv));
                best = match best {
                    None => Some((mv, s)),
                    Some((bm, bs)) => {
                        if s > bs {
                            Some((mv, s))
                        } else if s == bs && k < coins.len() && !coins[k] {
                            Some((mv, s))
                        } else {
                            Some((bm, bs))
                        }
                    },
                };
            },
            Err(_) => {},
        }
        k = k + 1;
    }
    proof {
        assert forall|m: Move| legal(*game, m) implies lgs@.contains(m) by {}
        if best is Some {
            assert forall|m: Move| legal(*game, m) implies reply_score(*game, m) <= reply_score(
                *game,
                best.unwrap().0,
            ) by {
                assert(lgs@.contains(m));
                let j = choose|j: int| 0 <= j < lgs@.len() && lgs@[j] == m;
                assert(reply_score(*game, lgs@[j]) <= best.unwrap().1);
            }
        } else {
            assert forall|m: Move| !legal(*game, m) by {
                if legal(*game, m) {
                    assert(lgs@.contains(m));
                }
            }
        }
    }
    match best {
        Some((m, _)) => Some(m),
        None => None,
    }
}

/// Whether either side can still fill some line of `board`.
pub fn possible_to_win(board: BitBoard) -> (r: bool)
    requires
        board.wf(),
    ensures
        r == (can_win(board.cells(), Slot::X) || can_win(board.cells(), Slot::O)),
{
    crate::counting::possible_to_win(board)
}

} // verus!
