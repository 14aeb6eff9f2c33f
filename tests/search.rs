use ultimengine::bitboard::BitBoard;
use ultimengine::board::Slot::{Empty as E, O, X};
use ultimengine::board::State;
use ultimengine::counting::alpha_beta;
use ultimengine::game::Game;
use ultimengine::moves::{Move, is_legal};

fn tied_board() -> BitBoard {
    let mut b = BitBoard::new_with([X, O, X, X, O, O, O, X, X]);
    b.set_state(State::Tied);
    b
}

fn one_move_from_winning() -> Game {
    let mut g = Game::new();
    for i in 3..9 {
        g.boards[i] = tied_board();
    }
    g.boards[0] = BitBoard::new_with([X, X, X, O, O, E, E, E, E]);
    g.boards[0].set_state(State::Won);
    g.boards[1] = BitBoard::new_with([O, O, E, X, X, X, E, E, E]);
    g.boards[1].set_state(State::Won);
    g.boards[2] = BitBoard::new_with([X, X, E, O, O, E, E, E, E]);
    g.active = 2;
    g
}

#[test]
fn search_takes_the_winning_move() {
    let g = one_move_from_winning();
    let (scr, mv) = alpha_beta(&g);
    assert_eq!(mv, Move::new(2, 2));
    assert!(scr >= 10_000);
}

#[test]
fn search_on_a_decided_game_chooses_nothing() {
    let mut g = one_move_from_winning();
    g.make_move(Move::new(2, 2), X).unwrap();
    assert_eq!(g.state(), State::Won);
    let (_, mv) = alpha_beta(&g);
    assert_eq!(mv, Move::new(15, 15));
}

#[test]
fn search_move_is_legal_late_in_a_game() {
    let mut g = one_move_from_winning();
    g.boards[2] = BitBoard::new_with([X, O, E, O, X, E, E, E, O]);
    let (_, mv) = alpha_beta(&g);
    assert!(is_legal(&g, mv).is_ok());
}
