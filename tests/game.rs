use ultimengine::bitboard::BitBoard;
use ultimengine::board::Slot::{Empty as E, O, X};
use ultimengine::board::State;
use ultimengine::counting::{possible_to_win, score, score_game};
use ultimengine::game::Game;
use ultimengine::moves::{
    ERR_BOARD, ERR_FINISHED, ERR_INACTIVE, ERR_INDEX, ERR_LENGTH, ERR_OCCUPIED, ERR_SHORTHAND,
    Move, fast_legal, is_legal, legal_moves, parse_move,
};
use ultimengine::ref_counting::{ref_reply, ref_score_game};

#[test]
fn modify_state() {
    let mut game = Game::new();
    assert_eq!(game.state(), State::Undecided);

    game.set_state(State::Won);
    assert_eq!(game.state(), State::Won);
    assert_eq!(game.boards[0].state(), State::Undecided);
}

#[test]
fn fresh_game_has_81_moves() {
    let g = Game::new();
    let mvs = legal_moves(&g);
    assert_eq!(mvs.len(), 81);
    assert_eq!(mvs[0], Move::new(0, 0));
    assert_eq!(mvs[80], Move::new(8, 8));
}

#[test]
fn legal_moves_respect_active_and_occupancy() {
    let mut g = Game::new();
    g.make_move(Move::new(4, 4), X).unwrap();
    assert_eq!(g.active, 4);
    let mvs = legal_moves(&g);
    assert_eq!(mvs.len(), 8);
    for m in &mvs {
        assert_eq!(m.game(), 4);
        assert_ne!(m.index(), 4);
        assert!(fast_legal(&g, *m));
    }
}

#[test]
fn legal_moves_of_random_games_are_legal() {
    for n in 0..40u8 {
        let g = Game::random(n);
        for m in legal_moves(&g) {
            assert!(is_legal(&g, m).is_ok());
            let brd = g.boards[m.game() as usize];
            assert_eq!(brd.to_arr()[m.index() as usize], E);
            assert!(g.active == 9 || g.active == m.game());
        }
    }
}

#[test]
fn illegal_moves_name_their_reason() {
    let mut g = Game::new();
    g.make_move(Move::new(0, 0), X).unwrap();
    assert_eq!(is_legal(&g, Move::new(0, 1)), Ok(()));
    assert_eq!(is_legal(&g, Move::new(0, 0)), Err(ERR_OCCUPIED));
    assert_eq!(is_legal(&g, Move::new(1, 1)), Err(ERR_INACTIVE));
    let before = g;
    assert_eq!(g.make_move(Move::new(3, 3), O), Err(ERR_INACTIVE));
    assert_eq!(g, before);
    g.boards[2].set_state(State::Won);
    g.active = 9;
    assert_eq!(is_legal(&g, Move::new(2, 5)), Err(ERR_FINISHED));
    assert!(!fast_legal(&g, Move::new(2, 5)));
    assert!(g.sim_move(Move::new(2, 5), X).is_err());
}

#[test]
fn winning_a_board_frees_the_choice() {
    let mut g = Game::new();
    // X takes the top row of board 0, O answers in board 0's named boards.
    g.make_move(Move::new(0, 0), X).unwrap();
    g.make_move(Move::new(0, 3), O).unwrap();
    g.make_move(Move::new(3, 0), X).unwrap();
    g.make_move(Move::new(0, 1), O).unwrap();
    g.make_move(Move::new(1, 0), X).unwrap();
    g.make_move(Move::new(0, 2), O).unwrap();
    assert_eq!(g.boards[0].state(), State::Undecided);
    let mut h = Game::new();
    h.make_move(Move::new(0, 0), X).unwrap();
    h.make_move(Move::new(0, 4), O).unwrap();
    h.make_move(Move::new(4, 0), X).unwrap();
    h.make_move(Move::new(0, 8), O).unwrap();
    h.make_move(Move::new(8, 0), X).unwrap();
    h.make_move(Move::new(0, 1), O).unwrap();
    h.make_move(Move::new(1, 0), X).unwrap();
    assert_eq!(h.active, 0);
    h.make_move(Move::new(0, 2), O).unwrap();
    assert_eq!(h.boards[0].state(), State::Undecided);
    assert_eq!(h.active, 2);
    let mut k = Game::new();
    k.make_move(Move::new(4, 0), X).unwrap();
    k.make_move(Move::new(0, 4), O).unwrap();
    k.make_move(Move::new(4, 1), X).unwrap();
    k.make_move(Move::new(1, 4), O).unwrap();
    k.make_move(Move::new(4, 2), X).unwrap();
    assert_eq!(k.boards[4].state(), State::Won);
    assert_eq!(k.active, 2);
    k.make_move(Move::new(2, 4), O).unwrap();
    assert_eq!(k.active, 9);
    assert_eq!(k.state(), State::Undecided);
}

#[test]
fn tied_board_is_detected() {
    let brd = BitBoard::new_with([X, O, X, X, O, O, O, X, E]);
    assert!(!possible_to_win(brd));
    let brd = BitBoard::new_with([X, O, X, X, O, O, O, E, E]);
    assert!(possible_to_win(brd));
    assert!(possible_to_win(BitBoard::new()));
}

#[test]
fn mirror_twice_gives_the_game_back() {
    for n in [0u8, 5, 17, 33, 60] {
        let g = Game::random(n);
        let f = g.flip();
        for i in 0..9 {
            assert_eq!(f.boards[i].state(), g.boards[i].state().flip());
        }
        assert_eq!(f.state(), g.state().flip());
        assert_eq!(f.flip(), g);
    }
}

#[test]
fn shrink_maps_outcomes_to_cells() {
    let mut g = Game::new();
    g.boards[0].set_state(State::Won);
    g.boards[1].set_state(State::Lost);
    g.boards[2].set_state(State::Tied);
    let meta = g.shrink();
    let cells = meta.to_arr();
    assert_eq!(cells[0], X);
    assert_eq!(cells[1], O);
    assert_eq!(cells[2], ultimengine::board::Slot::Disabled);
    assert_eq!(cells[3], E);
    assert_eq!(meta.state(), State::Undecided);
}

#[test]
fn meta_board_win_ends_the_game() {
    let mut g = Game::new();
    g.boards[0] = BitBoard::new_with([X, X, X, E, E, E, E, E, E]);
    g.boards[0].set_state(State::Won);
    g.boards[1] = BitBoard::new_with([X, X, X, E, E, E, E, E, E]);
    g.boards[1].set_state(State::Won);
    g.boards[2] = BitBoard::new_with([X, X, E, O, O, E, E, E, E]);
    g.active = 2;
    let next = g.sim_move(Move::new(2, 2), X).unwrap();
    assert_eq!(next.boards[2].state(), State::Won);
    assert_eq!(next.state(), State::Won);
    assert_eq!(next.active, 9);
    assert_eq!(g.boards[2].state(), State::Undecided);
}

#[test]
fn board_scores() {
    let b = BitBoard::new_with([X, X, E, E, E, E, E, E, E]);
    assert_eq!(score(b, X), 7);
    assert_eq!(score(b, O), -2);
    assert_eq!(score(b, E), 1);
    let won = BitBoard::new_with([O, O, O, X, X, E, E, E, E]);
    assert_eq!(score(won, X), -10_000);
    let won = BitBoard::new_with([X, X, X, O, O, E, E, E, E]);
    assert_eq!(score(won, O), 10_000);
}

#[test]
fn game_scores() {
    let mut g = Game::new();
    assert_eq!(score_game(&g, X), 0);
    g.boards[0] = BitBoard::new_with([X, X, E, E, E, E, E, E, E]);
    g.boards[1] = BitBoard::new_with([X, X, X, E, E, E, E, E, E]);
    g.boards[1].set_state(State::Won);
    g.active = 0;
    assert_eq!(score_game(&g, X), 2601);
    assert_eq!(score_game(&g, O), 2600);
    g.active = 9;
    assert_eq!(score_game(&g, X), 2601 - 867);
    assert_eq!(score_game(&g, O), 2600 + 866);
}

#[test]
fn earlier_scores() {
    let g = Game::new();
    assert_eq!(ref_score_game(&g, None), -3);
    let mut g = Game::new();
    g.make_move(Move::new(0, 0), X).unwrap();
    g.make_move(Move::new(0, 1), X).unwrap();
    assert_eq!(g.active, 1);
    assert_eq!(ref_score_game(&g, Some(Move::new(0, 1))), 6);
    assert!(ultimengine::ref_counting::possible_to_win(g.boards[0]));
}

#[test]
fn move_packing() {
    let m = Move::new(3, 7);
    assert_eq!(m.game(), 3);
    assert_eq!(m.index(), 7);
    assert_eq!(m.0, 0x37);
    let mut m = Move::new(15, 15);
    assert_eq!(m.0, 0xFF);
    m.set_game(2);
    m.set_idx(9);
    assert_eq!((m.game(), m.index()), (2, 9));
    assert_eq!(Move::new(0x12, 0x34), Move::new(2, 4));
}

#[test]
fn parse_moves() {
    assert_eq!(parse_move("a5", 9), Ok(Move::new(0, 4)));
    assert_eq!(parse_move("i9", 3), Ok(Move::new(8, 8)));
    assert_eq!(parse_move("7", 3), Ok(Move::new(3, 6)));
    assert_eq!(parse_move("", 3), Err(ERR_LENGTH));
    assert_eq!(parse_move("a12", 3), Err(ERR_LENGTH));
    assert_eq!(parse_move("5", 9), Err(ERR_SHORTHAND));
    assert_eq!(parse_move("j5", 9), Err(ERR_BOARD));
    assert_eq!(parse_move("ax", 9), Err(ERR_INDEX));
    assert_eq!(parse_move("a0", 9), Err(ERR_INDEX));
    assert_eq!(parse_move("0", 2), Err(ERR_INDEX));
}

#[test]
fn reference_reply_is_best() {
    for n in [0u8, 6, 15, 30] {
        let g = Game::random(n);
        let coins = vec![false; 81];
        let r = ref_reply(&g, &coins).unwrap();
        assert!(is_legal(&g, r).is_ok());
        let best = ref_score_game(&g.sim_move(r, X).unwrap(), Some(r));
        for m in legal_moves(&g) {
            let s = ref_score_game(&g.sim_move(m, X).unwrap(), Some(m));
            assert!(s <= best);
        }
    }
    let mut over = Game::new();
    over.set_state(State::Won);
    for i in 0..9 {
        over.boards[i].set_state(State::Tied);
    }
    assert_eq!(ref_reply(&over, &vec![true; 81]), None);
}

#[test]
fn fixture_boards() {
    let g = Game::_test();
    assert_eq!(g.boards[0].state(), State::Tied);
    assert_eq!(g.boards[1].state(), State::Won);
    assert_eq!(g.boards[2].state(), State::Lost);
    assert!(g.boards[1].won_by_x());
    assert!(g.boards[2].won_by_o());
    assert!(!possible_to_win(g.boards[0]));
    assert_eq!(g.active, 9);
}
