//! Static evaluation and the alpha-beta search.

use vstd::prelude::*;
use crate::bitboard::{
    BitBoard,
    can_win,
    corner_count,
    holds_mask,
    line_of,
    line_open,
    one_aways,
    open_cells,
    wins,
};
use crate::board::{Slot, State};
use crate::game::Game;
use crate::moves::{Move, legal, legal_moves};

verus! {

/// Whether either side can still fill some line of `board`.
pub fn possible_to_win(board: BitBoard) -> (r: bool)
    requires
        board.wf(),
    ensures
        r == (can_win(board.cells(), Slot::X) || can_win(board.cells(), Slot::O)),
{
    let xe = open_cells(board, Slot::X);
    let oe = open_cells(board, Slot::O);
    let mut k: u32 = 0;
    while k < 8
        invariant
            k <= 8,
            board.wf(),
            forall|i: u32|
                i < 9 ==> (crate::bitboard::bit(xe, i) <==> (#[trigger] board.cell(i as int)
                    == Slot::X || board.cell(i as int) == Slot::Empty)),
            forall|i: u32|
                i < 9 ==> (crate::bitboard::bit(oe, i) <==> (#[trigger] board.cell(i as int)
                    == Slot::O || board.cell(i as int) == Slot::Empty)),
            forall|j: int| 0 <= j < k ==> !#[trigger] line_open(board.cells(), j, Slot::X),
            forall|j: int| 0 <= j < k ==> !#[trigger] line_open(board.cells(), j, Slot::O),
        decreases 8 - k,
    {
        let (a, b, c) = line_of(k);
        assert(board.cell(a as int) == board.cells()[a as int]);
        assert(board.cell(b as int) == board.cells()[b as int]);
        assert(board.cell(c as int) == board.cells()[c as int]);
        if holds_mask(xe, a, b, c) {
            assert(line_open(board.cells(), k as int, Slot::X));
            return true;
        }
        if holds_mask(oe, a, b, c) {
            assert(line_open(board.cells(), k as int, Slot::O));
            return true;
        }
        assert(!line_open(board.cells(), k as int, Slot::X));
        assert(!line_open(board.cells(), k as int, Slot::O));
        k = k + 1;
    }
    false
}

/// Integer division that rounds toward zero, as `/` does on Rust integers.
pub open spec fn tdiv(a: int, d: int) -> int {
    if a >= 0 {
        a / d
    } else {
        -((-a) / d)
    }
}

/// Score of one board for X: a win or loss dominates; otherwise owned corners
/// count one each, and the lines one move from completion count for the side
/// to move (`turn`) six each and for its opponent three each, in the mover's
/// favour.
pub open spec fn board_score(cells: Seq<Slot>, turn: Slot) -> int {
    if wins(cells, Slot::X) {
        10_000
    } else if wins(cells, Slot::O) {
        -10_000
    } else {
        corner_count(cells, Slot::X) - corner_count(cells, Slot::O) + if turn == Slot::X {
            6 * one_aways(cells, Slot::X) + 3 * one_aways(cells, Slot::O)
        } else if turn == Slot::O {
            -6 * one_aways(cells, Slot::O) - 3 * one_aways(cells, Slot::X)
        } else {
            0
        }
    }
}

/// What a decided board adds by itself: 100 if won, -100 if lost.
pub open spec fn decided_bonus(st: State) -> int {
    if st == State::Won {
        100
    } else if st == State::Lost {
        -100
    } else {
        0
    }
}

/// The per-board terms of the first `n` boards: a quarter of each board's own
/// score, plus its decided bonus.
pub open spec fn boards_term(g: Game, turn: Slot, n: int) -> int
    decreases n,
{
    if n <= 0 {
        0
    } else {
        boards_term(g, turn, n - 1) + tdiv(board_score(g.boards@[n - 1].cells(), turn), 4)
            + decided_bonus(g.boards@[n - 1].status())
    }
}

/// Score of the whole game for X: the meta-board's score times 100 plus the
/// per-board terms; when any board may be chosen, a third is taken off if X
/// is to move and added if O is.
pub open spec fn game_score(g: Game, turn: Slot) -> int {
    let base = board_score(g.meta_cells(), turn) * 100 + boards_term(g, turn, 9);
    if g.active == 9 && turn == Slot::X {
        base - tdiv(base, 3)
    } else if g.active == 9 && turn == Slot::O {
        base + tdiv(base, 3)
    } else {
        base
    }
}

/// Score of one board for X (see `board_score`).
pub fn score(board: BitBoard, turn: Slot) -> (r: i32)
    requires
        board.wf(),
    ensures
        r == board_score(board.cells(), turn),
        -10_000 <= r <= 10_000,
{
    if board.won_by_x() {
        return 10_000;
    } else if board.won_by_o() {
        return -10_000;
    }
    let mut score: i32 = 0;
    score = score + board.corners(Slot::X);
    score = score - board.corners(Slot::O);
    if turn == Slot::X {
        score = score + 6 * board.one_aways_x();
        score = score + 3 * board.one_aways_o();
    } else if turn == Slot::O {
        score = score - 6 * board.one_aways_o();
        score = score - 3 * board.one_aways_x();
    }
    score
}

/// Score of the whole game for X (see `game_score`).
pub fn score_game(game: &Game, turn: Slot) -> (r: i32)
    requires
        game.wf(),
    ensures
        r == game_score(*game, turn),
        -1_400_000 <= r <= 1_400_000,
{
    let meta = game.shrink();
    let mut scr: i32 = score(meta, turn) * 100;
    let mut i: usize = 0;
    while i < 9
        invariant
            i <= 9,
            game.wf(),
            scr == board_score(game.meta_cells(), turn) * 100 + boards_term(*game, turn, i as int),
            -1_000_000 - 2600 * i <= scr <= 1_000_000 + 2600 * i,
        decreases 9 - i,
    {
        let b = game.boards[i];
        let s = score(b, turn);
        scr = scr + s / 4;
        let st = b.state();
        if st == State::Won {
            scr = scr + 100;
        } else if st == State::Lost {
            scr = scr - 100;
        }
        i = i + 1;
    }
    if game.active == 9 && turn == Slot::X {
        scr = scr - scr / 3;
    } else if game.active == 9 && turn == Slot::O {
        scr = scr + scr / 3;
    }
    scr
}

/// How many cells of the first `n` boards hold a side.
pub open spec fn moves_made_in(g: Game, n: int) -> int
    decreases n,
{
    if n <= 0 {
        0
    } else {
        moves_made_in(g, n - 1) + taken_cells(g.boards@[n - 1].cells(), 9)
    }
}

/// How many of the first `n` cells hold a side.
pub open spec fn taken_cells(cells: Seq<Slot>, n: int) -> int
    decreases n,
{
    if n <= 0 {
        0
    } else {
        taken_cells(cells, n - 1) + if cells[n - 1].is_side() {
            1int
        } else {
            0int
        }
    }
}

/// The search depth: deeper once fourteen moves have been made, when fewer
/// moves remain to choose from.
pub open spec fn search_depth(g: Game) -> u8 {
    if moves_made_in(g, 9) >= 14 {
        13
    } else {
        11
    }
}

/// The move that stands for "none chosen".
pub open spec fn no_move() -> Move {
    Move(0xFF)
}

/// The side whose view the search takes of a leaf: the leaf is scored with
/// the other side to move.
pub open spec fn leaf_turn(is_max: bool) -> Slot {
    if is_max {
        Slot::O
    } else {
        Slot::X
    }
}

/// The side that moves at a node where X maximises when `is_max`.
pub open spec fn mover(is_max: bool) -> Slot {
    if is_max {
        Slot::X
    } else {
        Slot::O
    }
}

/// The game after the side to move plays `mv` (unique, see
/// `lemma_moved_unique`).
pub open spec fn child(g: Game, mv: Move, is_max: bool) -> Game {
    choose|n: Game| g.moved(mv, mover(is_max), n)
}

/// Plies charged beyond the first for a move that leaves the opponent a
/// free choice of board.
pub open spec fn extra_depth(c: Game, is_max: bool) -> int {
    if c.active == 9 {
        if is_max {
            1
        } else {
            2
        }
    } else {
        0
    }
}

/// Every legal move of `g`, ordered by its packed value.
pub open spec fn legal_list(g: Game) -> Seq<Move> {
    Seq::new(256, |k: int| Move(k as u8)).filter(|m: Move| legal(g, m))
}

/// The value of the search tree below `g` at ply `depth`, searched to ply
/// `maxd`, with X maximising when `is_max`: a leaf (the depth is reached or
/// the game is over) is scored with `game_score`; an inner node takes the
/// best value of its moves for the side to move, `i32::MIN` or `i32::MAX`
/// when it has none.
pub open spec fn minimax(g: Game, is_max: bool, maxd: int, depth: int) -> int
    decreases maxd + 3 - depth, 1int, 0int,
{
    if depth >= maxd || g.status != State::Undecided {
        game_score(g, leaf_turn(is_max))
    } else {
        fold_moves(g, is_max, maxd, depth, legal_list(g), legal_list(g).len() as int)
    }
}

/// The value of playing `m` at an inner node.
pub open spec fn move_value(g: Game, m: Move, is_max: bool, maxd: int, depth: int) -> int
    decreases maxd + 3 - depth, 0int, 0int,
{
    if depth >= maxd {
        0
    } else {
        let c = child(g, m, is_max);
        minimax(c, !is_max, maxd, depth + 1 + extra_depth(c, is_max))
    }
}

/// The best value for the side to move among the first `k` of `moves`.
pub open spec fn fold_moves(
    g: Game,
    is_max: bool,
    maxd: int,
    depth: int,
    moves: Seq<Move>,
    k: int,
) -> int
    decreases maxd + 3 - depth, 0int, k,
{
    if k <= 0 || depth >= maxd {
        if is_max {
            i32::MIN as int
        } else {
            i32::MAX as int
        }
    } else {
        let prev = fold_moves(g, is_max, maxd, depth, moves, k - 1);
        let v = move_value(g, moves[k - 1], is_max, maxd, depth);
        if is_max {
            if v > prev {
                v
            } else {
                prev
            }
        } else {
            if v < prev {
                v
            } else {
                prev
            }
        }
    }
}

/// The best value over a prefix bounds each of its moves, and is either the
/// starting value or the value of one of them.
proof fn lemma_fold_bounds(g: Game, is_max: bool, maxd: int, depth: int, moves: Seq<Move>, k: int)
    requires
        depth < maxd,
        0 <= k <= moves.len(),
    ensures
        forall|j: int|
            0 <= j < k ==> (if is_max {
                #[trigger] move_value(g, moves[j], is_max, maxd, depth) <= fold_moves(
                    g,
                    is_max,
                    maxd,
                    depth,
                    moves,
                    k,
                )
            } else {
                move_value(g, moves[j], is_max, maxd, depth) >= fold_moves(
                    g,
                    is_max,
                    maxd,
                    depth,
                    moves,
                    k,
                )
            }),
        is_max ==> fold_moves(g, is_max, maxd, depth, moves, k) >= i32::MIN,
        !is_max ==> fold_moves(g, is_max, maxd, depth, moves, k) <= i32::MAX,
        fold_moves(g, is_max, maxd, depth, moves, k) == (if is_max {
            i32::MIN as int
        } else {
            i32::MAX as int
        }) || exists|j: int|
            0 <= j < k && fold_moves(g, is_max, maxd, depth, moves, k) == #[trigger] move_value(
                g,
                moves[j],
                is_max,
                maxd,
                depth,
            ),
    decreases k,
{
    if k > 0 {
        lemma_fold_bounds(g, is_max, maxd, depth, moves, k - 1);
        let f = fold_moves(g, is_max, maxd, depth, moves, k);
        let prev = fold_moves(g, is_max, maxd, depth, moves, k - 1);
        let v = move_value(g, moves[k - 1], is_max, maxd, depth);
        if f == v {
            assert(0 <= k - 1 < k && f == move_value(g, moves[k - 1], is_max, maxd, depth));
        } else if f != (if is_max {
            i32::MIN as int
        } else {
            i32::MAX as int
        }) {
            assert(f == prev);
            let j = choose|j: int|
                0 <= j < k - 1 && prev == #[trigger] move_value(g, moves[j], is_max, maxd, depth);
            assert(0 <= j < k && f == move_value(g, moves[j], is_max, maxd, depth));
        }
    }
}

/// The best value depends on the set of moves alone, not on their order.
proof fn lemma_fold_same_set(
    g: Game,
    is_max: bool,
    maxd: int,
    depth: int,
    s1: Seq<Move>,
    s2: Seq<Move>,
)
    requires
        depth < maxd,
        forall|m: Move| s1.contains(m) <==> s2.contains(m),
    ensures
        fold_moves(g, is_max, maxd, depth, s1, s1.len() as int) == fold_moves(
            g,
            is_max,
            maxd,
            depth,
            s2,
            s2.len() as int,
        ),
{
    lemma_fold_le(g, is_max, maxd, depth, s1, s2);
    lemma_fold_le(g, is_max, maxd, depth, s2, s1);
}

proof fn lemma_fold_le(g: Game, is_max: bool, maxd: int, depth: int, s1: Seq<Move>, s2: Seq<Move>)
    requires
        depth < maxd,
        forall|m: Move| s1.contains(m) ==> s2.contains(m),
    ensures
        is_max ==> fold_moves(g, is_max, maxd, depth, s1, s1.len() as int) <= fold_moves(
            g,
            is_max,
            maxd,
            depth,
            s2,
            s2.len() as int,
        ),
        !is_max ==> fold_moves(g, is_max, maxd, depth, s1, s1.len() as int) >= fold_moves(
            g,
            is_max,
            maxd,
            depth,
            s2,
            s2.len() as int,
        ),
{
    lemma_fold_bounds(g, is_max, maxd, depth, s1, s1.len() as int);
    lemma_fold_bounds(g, is_max, maxd, depth, s2, s2.len() as int);
    let f1 = fold_moves(g, is_max, maxd, depth, s1, s1.len() as int);
    if f1 != (if is_max {
        i32::MIN as int
    } else {
        i32::MAX as int
    }) {
        let j = choose|j: int|
            0 <= j < s1.len() && f1 == #[trigger] move_value(g, s1[j], is_max, maxd, depth);
        assert(s1.contains(s1[j]));
        assert(s2.contains(s1[j]));
        let i = choose|i: int| 0 <= i < s2.len() && s2[i] == s1[j];
        assert(move_value(g, s2[i], is_max, maxd, depth) == f1);
    }
}

/// `legal_list` holds exactly the legal moves.
proof fn lemma_legal_list(g: Game)
    ensures
        forall|m: Move| #[trigger] legal_list(g).contains(m) <==> legal(g, m),
{
    let all = Seq::new(256, |k: int| Move(k as u8));
    let pred = |m: Move| legal(g, m);
    assert forall|m: Move| #[trigger] legal_list(g).contains(m) <==> legal(g, m) by {
        if legal(g, m) {
            assert(all[m.0 as int] == m);
            all.lemma_filter_contains(pred, m.0 as int);
        }
        if legal_list(g).contains(m) {
            let i = choose|i: int| 0 <= i < all.filter(pred).len() && all.filter(pred)[i] == m;
            all.lemma_filter_pred(pred, i);
        }
    }
}

/// The played position is the `child` of the move.
pub(crate) proof fn lemma_child_is(g: Game, mv: Move, is_max: bool, sim: Game)
    requires
        g.wf(),
        mv.valid(),
        g.moved(mv, mover(is_max), sim),
    ensures
        child(g, mv, is_max) == sim,
{
    let c = child(g, mv, is_max);
    assert(g.moved(mv, mover(is_max), c));
    crate::game::lemma_moved_unique(g, mv, mover(is_max), c, sim);
}

fn taken_count(b: BitBoard) -> (r: u32)
    requires
        b.wf(),
    ensures
        r == taken_cells(b.cells(), 9),
        r <= 9,
{
    let mut n: u32 = 0;
    let mut i: u32 = 0;
    while i < 9
        invariant
            i <= 9,
            b.wf(),
            n == taken_cells(b.cells(), i as int),
            n <= i,
        decreases 9 - i,
    {
        proof {
            crate::bitboard::lemma_cell_iff(b.0, i);
        }
        if b.0 & (1u32 << i) != 0 || b.0 & (1u32 << (9 + i)) != 0 {
            n = n + 1;
        }
        i = i + 1;
    }
    n
}

fn moves_made(game: &Game) -> (r: u32)
    requires
        game.wf(),
    ensures
        r == moves_made_in(*game, 9),
{
    let mut n: u32 = 0;
    let mut i: usize = 0;
    while i < 9
        invariant
            i <= 9,
            game.wf(),
            n == moves_made_in(*game, i as int),
            n <= 9 * i,
        decreases 9 - i,
    {
        n = n + taken_count(game.boards[i]);
        i = i + 1;
    }
    n
}

/// The pairs of `v`, sorted by their first component from largest to
/// smallest; pairs with equal keys keep their order.
fn sort_by_key_desc(v: Vec<(i32, Move)>) -> (r: Vec<(i32, Move)>)
    ensures
        r@.len() == v@.len(),
        forall|x: (i32, Move)| r@.contains(x) <==> v@.contains(x),
        forall|k: int, l: int| 0 <= k < l < r@.len() ==> r@[k].0 >= r@[l].0,
{
    let mut r: Vec<(i32, Move)> = Vec::new();
    let mut i: usize = 0;
    while i < v.len()
        invariant
            i <= v@.len(),
            r@.len() == i,
            forall|x: (i32, Move)| r@.contains(x) <==> v@.subrange(0, i as int).contains(x),
            forall|k: int, l: int| 0 <= k < l < r@.len() ==> r@[k].0 >= r@[l].0,
        decreases v@.len() - i,
    {
        let e = v[i];
        let mut p: usize = 0;
        while p < r.len() && r[p].0 >= e.0
            invariant
                p <= r@.len(),
                forall|k: int| 0 <= k < p ==> r@[k].0 >= e.0,
            decreases r@.len() - p,
        {
            p = p + 1;
        }
        let ghost before = r@;
        r.insert(p, e);
        proof {
            assert(r@ == before.insert(p as int, e));
            let s0 = v@.subrange(0, i as int);
            let s1 = v@.subrange(0, i + 1);
            assert(s1 == s0.push(e));
            assert forall|x: (i32, Move)| r@.contains(x) <==> s1.contains(x) by {
                if r@.contains(x) {
                    let k = choose|k: int| 0 <= k < r@.len() && r@[k] == x;
                    if k < p {
                        assert(before[k] == x);
                    } else if k > p {
                        assert(before[k - 1] == x);
                    }
                    if x != e {
                        assert(before.contains(x));
                        assert(s0.contains(x));
                        let j = choose|j: int| 0 <= j < s0.len() && s0[j] == x;
                        assert(s1[j] == x);
                    } else {
                        assert(s1[i as int] == x);
                    }
                }
                if s1.contains(x) {
                    let j = choose|j: int| 0 <= j < s1.len() && s1[j] == x;
                    if j < i {
                        assert(s0[j] == x);
                        assert(before.contains(x));
                        let k = choose|k: int| 0 <= k < before.len() && before[k] == x;
                        if k < p {
                            assert(r@[k] == x);
                        } else {
                            assert(r@[k + 1] == x);
                        }
                    } else {
                        assert(r@[p as int] == x);
                    }
                }
            }
            assert forall|k: int, l: int| 0 <= k < l < r@.len() implies r@[k].0 >= r@[l].0 by {
                if l < p {
                } else if l == p {
                } else if k < p {
                    assert(r@[l] == before[l - 1]);
                    if p < before.len() {
                        assert(before[p as int].0 < e.0);
                    }
                } else if k == p {
                    assert(before[p as int].0 < e.0);
                    assert(r@[l] == before[l - 1]);
                    if l - 1 > p {
                        assert(before[p as int].0 >= before[l - 1].0);
                    }
                } else {
                    assert(r@[k] == before[k - 1]);
                    assert(r@[l] == before[l - 1]);
                }
            }
        }
        i = i + 1;
    }
    assert(v@.subrange(0, v@.len() as int) == v@);
    r
}

/// The legal moves of `game` in the order the search tries them: each is
/// scored after `side` plays it, best for the mover first (highest for X,
/// lowest for O).
fn ordered_moves(game: &Game, moves: &Vec<Move>, side: Slot) -> (r: Vec<Move>)
    requires
        game.wf(),
        side.is_side(),
        forall|k: int| 0 <= k < moves@.len() ==> legal(*game, #[trigger] moves@[k]),
    ensures
        r@.len() == moves@.len(),
        forall|k: int| 0 <= k < r@.len() ==> legal(*game, #[trigger] r@[k]),
        forall|m: Move| r@.contains(m) <==> moves@.contains(m),
{
    let mut keyed: Vec<(i32, Move)> = Vec::new();
    let mut i: usize = 0;
    while i < moves.len()
        invariant
            i <= moves@.len(),
            game.wf(),
            side.is_side(),
            forall|k: int| 0 <= k < moves@.len() ==> legal(*game, #[trigger] moves@[k]),
            keyed@.len() == i,
            forall|k: int| 0 <= k < i ==> (#[trigger] keyed@[k]).1 == moves@[k],
        decreases moves@.len() - i,
    {
        let mv = moves[i];
        assert(legal(*game, moves@[i as int]));
        let key = match game.sim_move(mv, side) {
            Ok(next) => {
                let s = score_game(&next, side);
                if side == Slot::X {
                    s
                } else {
                    -s
                }
            },
            Err(_) => 0,
        };
        keyed.push((key, mv));
        i = i + 1;
    }
    let sorted = sort_by_key_desc(keyed);
    let mut r: Vec<Move> = Vec::new();
    let mut j: usize = 0;
    while j < sorted.len()
        invariant
            j <= sorted@.len(),
            sorted@.len() == moves@.len(),
            keyed@.len() == moves@.len(),
            forall|x: (i32, Move)| sorted@.contains(x) <==> keyed@.contains(x),
            forall|k: int| 0 <= k < keyed@.len() ==> (#[trigger] keyed@[k]).1 == moves@[k],
            forall|k: int| 0 <= k < moves@.len() ==> legal(*game, #[trigger] moves@[k]),
            r@.len() == j,
            forall|k: int| 0 <= k < j ==> legal(*game, #[trigger] r@[k]),
            forall|k: int| 0 <= k < j ==> (#[trigger] r@[k]) == sorted@[k].1,
        decreases sorted@.len() - j,
    {
        let e = sorted[j];
        proof {
            assert(sorted@[j as int] == e);
            assert(sorted@.contains(e));
            assert(keyed@.contains(e));
            let k = choose|k: int| 0 <= k < keyed@.len() && keyed@[k] == e;
            assert(legal(*game, moves@[k]));
        }
        r.push(e.1);
        j = j + 1;
    }
    proof {
        assert forall|m: Move| r@.contains(m) <==> moves@.contains(m) by {
            if r@.contains(m) {
                let k = choose|k: int| 0 <= k < r@.len() && r@[k] == m;
                assert(sorted@.contains(sorted@[k]));
                assert(keyed@.contains(sorted@[k]));
                let i = choose|i: int| 0 <= i < keyed@.len() && keyed@[i] == sorted@[k];
                assert(moves@[i] == m);
            }
            if moves@.contains(m) {
                let i = choose|i: int| 0 <= i < moves@.len() && moves@[i] == m;
                assert(keyed@[i].1 == m);
                assert(keyed@.contains(keyed@[i]));
                assert(sorted@.contains(keyed@[i]));
                let k = choose|k: int| 0 <= k < sorted@.len() && sorted@[k] == keyed@[i];
                assert(r@[k] == m);
            }
        }
    }
    r
}

/// Alpha-beta search below `game` at ply `depth`, with X maximising when
/// `is_max`, inside the window `alp` < value < `bet`. Inside the window the
/// result is the minimax value; at or below `alp` it bounds that value from
/// above, at or above `bet` from below. Only the root (depth 0) records its
/// best move in `choice`.
fn search(
    game: &Game,
    is_max: bool,
    max_depth: u8,
    choice: &mut Move,
    depth: u8,
    alp: i32,
    bet: i32,
) -> (r: i32)
    requires
        game.wf(),
        max_depth <= 13,
        depth <= max_depth + 2,
        alp < bet,
    ensures
        game.status != State::Undecided || depth >= max_depth ==> r == game_score(
            *game,
            leaf_turn(is_max),
        ) && *final(choice) == *old(choice),
        *final(choice) == *old(choice) || (depth == 0 && legal(*game, *final(choice))),
        r <= alp ==> minimax(*game, is_max, max_depth as int, depth as int) <= r,
        r >= bet ==> minimax(*game, is_max, max_depth as int, depth as int) >= r,
        alp < r < bet ==> minimax(*game, is_max, max_depth as int, depth as int) == r,
        game.consistent() ==> r != i32::MIN && r != i32::MAX,
        game.consistent() && game.status == State::Undecided && depth == 0 && depth < max_depth
            && is_max ==> legal(*game, *final(choice)),
        depth == 0 && depth < max_depth && is_max && alp == i32::MIN && bet == i32::MAX
            && i32::MIN < r < i32::MAX && game.status == State::Undecided ==> move_value(
            *game,
            *final(choice),
            true,
            max_depth as int,
            0,
        ) == r,
    decreases max_depth + 3 - depth,
{
    if depth >= max_depth || game.state() != State::Undecided {
        return score_game(game, if is_max { Slot::O } else { Slot::X });
    }
    let ghost maxd = max_depth as int;
    let ghost d = depth as int;
    let side = if is_max {
        Slot::X
    } else {
        Slot::O
    };
    let lgs = legal_moves(game);
    let order = if depth <= 8 {
        ordered_moves(game, &lgs, side)
    } else {
        lgs
    };
    proof {
        lemma_legal_list(*game);
        assert forall|m: Move| order@.contains(m) <==> legal_list(*game).contains(m) by {
            if order@.contains(m) {
                assert(lgs@.contains(m));
                let k = choose|k: int| 0 <= k < lgs@.len() && lgs@[k] == m;
                assert(legal(*game, lgs@[k]));
            }
        }
        lemma_fold_same_set(*game, is_max, maxd, d, order@, legal_list(*game));
        if game.consistent() {
            crate::game::lemma_undecided_has_move(*game);
            let m = choose|m: Move| legal(*game, m);
            assert(lgs@.contains(m));
        }
    }
    let ghost first_choice = *choice;
    let ghost alp0 = alp as int;
    let ghost bet0 = bet as int;
    let mut alp = alp;
    let mut bet = bet;
    let mut value: i32 = if is_max {
        i32::MIN
    } else {
        i32::MAX
    };
    let ghost mut seen = false;
    let mut k: usize = 0;
    while k < order.len()
        invariant_except_break
            k <= order@.len(),
            is_max ==> alp == (if value > alp0 {
                value as int
            } else {
                alp0
            }) && bet == bet0,
            !is_max ==> bet == (if value < bet0 {
                value as int
            } else {
                bet0
            }) && alp == alp0,
            is_max ==> value < bet0,
            is_max && value <= alp0 ==> fold_moves(*game, is_max, maxd, d, order@, k as int)
                <= value,
            is_max && alp0 < value ==> fold_moves(*game, is_max, maxd, d, order@, k as int)
                == value,
            !is_max ==> value > alp0,
            !is_max && value >= bet0 ==> fold_moves(*game, is_max, maxd, d, order@, k as int)
                >= value,
            !is_max && value < bet0 ==> fold_moves(*game, is_max, maxd, d, order@, k as int)
                == value,
        invariant
            game.wf(),
            max_depth <= 13,
            depth < max_depth,
            maxd == max_depth as int,
            d == depth as int,
            alp0 < bet0,
            game.status == State::Undecided,
            side.is_side(),
            side == mover(is_max),
            forall|j: int| 0 <= j < order@.len() ==> legal(*game, #[trigger] order@[j]),
            *choice == first_choice || (depth == 0 && legal(*game, *choice)),
            k > 0 ==> seen,
            is_max && !seen ==> value == i32::MIN,
            game.consistent() && is_max && seen ==> value != i32::MIN,
            game.consistent() && !is_max ==> value != i32::MIN,
            game.consistent() && !is_max && seen ==> value != i32::MAX,
            game.consistent() && is_max ==> value != i32::MAX,
            game.consistent() && is_max && seen && depth == 0 ==> legal(*game, *choice),
            depth == 0 && is_max && alp0 == i32::MIN && bet0 == i32::MAX && i32::MIN < value
                < i32::MAX ==> move_value(*game, *choice, true, maxd, 0) == value,
        ensures
            order@.len() > 0 ==> seen,
            value <= alp0 ==> fold_moves(*game, is_max, maxd, d, order@, order@.len() as int)
                <= value,
            value >= bet0 ==> fold_moves(*game, is_max, maxd, d, order@, order@.len() as int)
                >= value,
            alp0 < value < bet0 ==> fold_moves(
                *game,
                is_max,
                maxd,
                d,
                order@,
                order@.len() as int,
            ) == value,
        decreases order@.len() - k,
    {
        let mv = order[k];
        assert(legal(*game, order@[k as int]));
        let sim = match game.sim_move(mv, side) {
            Ok(next) => next,
            Err(_) => {
                break;
            },
        };
        let extra: u8 = if sim.active == 9 {
            if is_max {
                1
            } else {
                2
            }
        } else {
            0
        };
        let ghost a_call = alp as int;
        let ghost b_call = bet as int;
        let eval = search(&sim, !is_max, max_depth, choice, depth + 1 + extra, alp, bet);
        proof {
            lemma_child_is(*game, mv, is_max, sim);
            assert(move_value(*game, mv, is_max, maxd, d) == minimax(
                sim,
                !is_max,
                maxd,
                d + 1 + extra,
            ));
            lemma_fold_bounds(*game, is_max, maxd, d, order@, order@.len() as int);
            assert(order@[k as int] == mv);
            let mvv = move_value(*game, order@[k as int], is_max, maxd, d);
            let full = fold_moves(*game, is_max, maxd, d, order@, order@.len() as int);
            assert(is_max ==> mvv <= full);
            assert(!is_max ==> mvv >= full);
        }
        if is_max {
            if eval > value && depth == 0 {
                *choice = mv;
            }
            if eval > value {
                value = eval;
            }
            proof {
                seen = true;
            }
            if value >= bet {
                break;
            }
            if value > alp {
                alp = value;
            }
        } else {
            if eval < value && depth == 0 {
                *choice = mv;
            }
            if eval < value {
                value = eval;
            }
            proof {
                seen = true;
            }
            if value <= alp {
                break;
            }
            if value < bet {
                bet = value;
            }
        }
        k = k + 1;
    }
    value
}

/// The engine's move for X in `game`, with its score. The move is legal,
/// or the sentinel `Move(0xFF)` when none was chosen, which happens only when
/// the game is over or the position cannot arise in play.
pub fn alpha_beta(game: &Game) -> (r: (i32, Move))
    requires
        game.wf(),
    ensures
        r.1 == no_move() || legal(*game, r.1),
        game.status != State::Undecided ==> r.0 == game_score(*game, Slot::O) && r.1
            == no_move(),
        game.consistent() && game.status == State::Undecided ==> legal(*game, r.1),
        game.consistent() && game.status == State::Undecided ==> r.0 == minimax(
            *game,
            true,
            search_depth(*game) as int,
            0,
        ) && r.0 == move_value(*game, r.1, true, search_depth(*game) as int, 0),
{
    let mut mv = Move::new(15, 15);
    let max_depth: u8 = if moves_made(game) >= 14 {
        13
    } else {
        11
    };
    let scr = search(game, true, max_depth, &mut mv, 0, i32::MIN, i32::MAX);
    (scr, mv)
}

} // verus!
