use std::collections::HashSet;

use ultimengine::board::Slot;
use ultimengine::counting::score_game;
use ultimengine::game::Game;
use ultimengine::moves::{Move, legal_moves};
use ultimengine::table::Table;
use ultimengine::zobrist::Zobrist;

#[test]
fn insert_get_50k() {
    let mut table = Table::new();
    let games: Vec<Game> = (0..50_000)
        .map(|_| Game::random_seedless(10))
        .collect::<HashSet<Game>>()
        .into_iter()
        .collect();

    let arr: Vec<(Game, Slot, i32)> = games
        .into_iter()
        .map(|g| {
            let turn = if rand::random() { Slot::X } else { Slot::O };
            let score = score_game(&g, turn);

            (g, turn, score)
        })
        .collect();

    for el in &arr {
        assert!(table.insert((el.0.clone(), el.1), el.2));
    }

    for el in arr {
        assert_eq!(table.get(&el.0, el.1), Some(el.2));
    }
}

fn some_games(n: usize) -> Vec<Game> {
    let mut out = Vec::new();
    let mut seen = HashSet::new();
    while out.len() < n {
        let g = Game::random_seedless(12);
        if seen.insert(g) {
            out.push(g);
        }
    }
    out
}

#[test]
fn insert_twice_replaces() {
    let mut table = Table::new();
    let g = Game::new();
    assert!(table.insert((g, Slot::X), 5));
    assert!(!table.insert((g, Slot::X), 9));
    assert_eq!(table.get(&g, Slot::X), Some(9));
    assert_eq!(table.get(&g, Slot::O), None);
    assert!(table.insert((g, Slot::O), -4));
    assert_eq!(table.get(&g, Slot::O), Some(-4));
}

#[test]
fn delete_keeps_the_others() {
    let mut table = Table::new();
    let games = some_games(600);
    for (i, g) in games.iter().enumerate() {
        assert!(table.insert((*g, Slot::X), i as i32));
    }
    for (i, g) in games.iter().enumerate() {
        if i % 3 == 0 {
            assert_eq!(table.delete((g, Slot::X)), Some((*g, i as i32)));
        }
    }
    for (i, g) in games.iter().enumerate() {
        if i % 3 == 0 {
            assert_eq!(table.get(g, Slot::X), None);
            assert_eq!(table.delete((g, Slot::X)), None);
        } else {
            assert_eq!(table.get(g, Slot::X), Some(i as i32));
        }
    }
    for (i, g) in games.iter().enumerate() {
        if i % 3 == 0 {
            assert!(table.insert((*g, Slot::X), -(i as i32)));
        }
    }
    for (i, g) in games.iter().enumerate() {
        let want = if i % 3 == 0 { -(i as i32) } else { i as i32 };
        assert_eq!(table.get(g, Slot::X), Some(want));
    }
}

#[test]
fn growth_keeps_every_entry() {
    let mut table = Table::new();
    let games = some_games(3000);
    for (i, g) in games.iter().enumerate() {
        assert!(table.insert((*g, Slot::O), 2 * i as i32));
        if i % 500 == 0 {
            for (j, h) in games.iter().take(i + 1).enumerate() {
                assert_eq!(table.get(h, Slot::O), Some(2 * j as i32));
            }
        }
    }
    for (i, g) in games.iter().enumerate() {
        assert_eq!(table.get(g, Slot::O), Some(2 * i as i32));
        assert_eq!(table.get(g, Slot::X), None);
    }
}

#[test]
fn hashes_follow_the_position() {
    let z1 = Zobrist::new(7);
    let z2 = Zobrist::new(7);
    let mut a = Game::new();
    let mut b = Game::new();
    a.make_move(Move::new(4, 4), Slot::X).unwrap();
    a.make_move(Move::new(4, 0), Slot::O).unwrap();
    b.make_move(Move::new(4, 4), Slot::X).unwrap();
    b.make_move(Move::new(4, 0), Slot::O).unwrap();
    assert_eq!(z1.hash(&a, Slot::X), z2.hash(&b, Slot::X));
    assert_eq!(z1.hash(&a, Slot::O), z1.hash(&b, Slot::O));
    assert_ne!(z1.hash(&a, Slot::X), z1.hash(&a, Slot::O));
    let mut c = Game::new();
    c.make_move(Move::new(4, 4), Slot::X).unwrap();
    c.make_move(Move::new(4, 1), Slot::O).unwrap();
    assert_eq!(c.active, a.active + 1);
    c.active = a.active;
    assert_ne!(z1.hash(&a, Slot::X), z1.hash(&c, Slot::X));
    let e = Game::new();
    let mut differ = 0;
    for m in legal_moves(&e) {
        let g = e.sim_move(m, Slot::X).unwrap();
        if z1.hash(&g, Slot::X) != z1.hash(&e, Slot::X) {
            differ += 1;
        }
    }
    assert_eq!(differ, 81);
}
