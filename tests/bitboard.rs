use ultimengine::bitboard::BitBoard;
use ultimengine::board::Slot::{Disabled as D, Empty as E, O, X};
use ultimengine::board::{Slot, State};

#[test]
fn set_state() {
    let mut brd = BitBoard::new();
    assert_eq!(brd.state(), State::Undecided);

    brd.set_state(State::Won);
    assert_eq!(brd.state(), State::Won);

    brd.set_state(State::Tied);
    assert_eq!(brd.state(), State::Tied);
}

#[test]
fn flip() {
    let mut brd = BitBoard::new_with([X, X, O, E, E, E, O, O, X]);
    brd.flip();

    assert_eq!(brd, BitBoard::new_with([O, O, X, E, E, E, X, X, O]));
}

#[test]
fn to_arr() {
    let brd = BitBoard::new_with([X, E, X, X, X, O, O, O, O]);

    assert_eq!(BitBoard::new_with(brd.to_arr()), brd);
}

#[test]
fn won_byx() {
    let brd = BitBoard::new_with([X, X, X, E, E, E, E, E, E]);
    assert!(brd.won_by_x());

    let brd = BitBoard::new_with([X, E, X, E, X, E, E, E, X]);
    assert!(brd.won_by_x());
}

#[test]
fn won_byo() {
    let brd = BitBoard::new_with([O, O, O, E, E, E, E, E, E]);
    assert!(brd.won_by_o());

    let brd = BitBoard::new_with([O, E, O, E, O, E, E, E, O]);
    assert!(brd.won_by_o());
}

#[test]
fn one_aways_x() {
    let brd = BitBoard::new_with([E, E, E, X, E, X, E, E, X]);
    assert_eq!(brd.one_aways_x(), 2);

    let brd = BitBoard::new_with([E; 9]);
    assert_eq!(brd.one_aways_x(), 0);

    let brd = BitBoard::new_with([X; 9]);
    assert_eq!(brd.one_aways_x(), 0);

    let brd = BitBoard::new_with([X, X, E, X, X, E, E, E, E]);
    assert_eq!(brd.one_aways_x(), 5);
}

#[test]
fn one_aways_o() {
    let brd = BitBoard::new_with([E, E, E, O, E, O, E, E, O]);
    assert_eq!(brd.one_aways_o(), 2);

    let brd = BitBoard::new_with([E; 9]);
    assert_eq!(brd.one_aways_o(), 0);

    let brd = BitBoard::new_with([O; 9]);
    assert_eq!(brd.one_aways_o(), 0);

    let brd = BitBoard::new_with([O, O, E, O, O, E, E, E, E]);
    assert_eq!(brd.one_aways_o(), 5);
}

#[test]
fn state_won() {
    let mut brd = BitBoard::new();
    brd.0 |= 1 << 27;

    assert_eq!(brd.state(), State::Won);
}

#[test]
fn state_lost() {
    let mut brd = BitBoard::new();
    brd.0 |= 2 << 27;

    assert_eq!(brd.state(), State::Lost);
}

#[test]
fn state_tied() {
    let mut brd = BitBoard::new();
    brd.0 |= 3 << 27;

    assert_eq!(brd.state(), State::Tied);
}

#[test]
fn state_undecided() {
    let mut brd = BitBoard::new();
    brd.0 |= 0 << 27;

    assert_eq!(brd.state(), State::Undecided);
}

#[test]
fn corners() {
    let brd = BitBoard::new_with([X, O, X, O, O, O, X, O, O]);

    assert_eq!(brd.corners(X), 3);
    assert_eq!(brd.corners(O), 1);
}

fn all_boards() -> Vec<[Slot; 9]> {
    let mut out = Vec::new();
    for code in 0..19683u32 {
        let mut arr = [E; 9];
        let mut c = code;
        for cell in arr.iter_mut() {
            *cell = match c % 3 {
                0 => E,
                1 => X,
                _ => O,
            };
            c /= 3;
        }
        out.push(arr);
    }
    out
}

#[test]
fn decode_of_encode_every_board() {
    for arr in all_boards() {
        assert_eq!(BitBoard::new_with(arr).to_arr(), arr);
    }
    let with_disabled = [D, X, O, E, D, D, X, E, O];
    assert_eq!(BitBoard::new_with(with_disabled).to_arr(), with_disabled);
}

#[test]
fn new_board_layout() {
    assert_eq!(BitBoard::new().0, 0x1FF << 18);
    assert_eq!(BitBoard::new_with([X, O, E, D, E, E, E, E, E]).0, 1 | (1 << 10) | (0b1_1111_0100 << 18));
}

#[test]
fn flip_twice_every_board() {
    for arr in all_boards().into_iter().step_by(7) {
        let mut brd = BitBoard::new_with(arr);
        brd.set_state(State::Lost);
        let orig = brd;
        brd.flip();
        assert_eq!(brd.state(), State::Won);
        brd.flip();
        assert_eq!(brd, orig);
    }
}

#[test]
fn wins_for_o_by_column_and_not_for_x() {
    let brd = BitBoard::new_with([E, O, X, X, O, E, E, O, X]);
    assert!(brd.won_by_o());
    assert!(!brd.won_by_x());
    let brd = BitBoard::new_with([X, O, X, X, O, O, O, X, X]);
    assert!(!brd.won_by_o());
    assert!(!brd.won_by_x());
}

#[test]
fn corners_of_empty_and_full() {
    let brd = BitBoard::new();
    assert_eq!(brd.corners(X), 0);
    assert_eq!(brd.corners(O), 0);
    let brd = BitBoard::new_with([X; 9]);
    assert_eq!(brd.corners(X), 4);
    assert_eq!(brd.corners(O), 0);
}

#[test]
fn grid_text() {
    let s = BitBoard::to_3x3([X, O, E, E, X, O, D, E, X]);
    assert_eq!(s, "X O  \n  X O\n_   X\n");
}

#[test]
fn slot_and_state_helpers() {
    assert_eq!(X.flip(), O);
    assert_eq!(O.flip(), X);
    assert_eq!(E.flip(), E);
    assert_eq!(D.flip(), D);
    assert_eq!(X.to_chr(), 'X');
    assert_eq!(D.to_chr(), '_');
    assert_eq!(E.to_chr(), ' ');
    assert_eq!(State::Won.flip(), State::Lost);
    assert_eq!(State::Tied.flip(), State::Tied);
    for code in 0..4 {
        assert_eq!(State::from_u32(code).to_u32(), code);
    }
    assert_eq!(State::from_u32(2), State::Lost);
}
