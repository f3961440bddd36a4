//! Settlement-mode search and the settlement order.

use mancala_full_search::{search_clean, Board, CompactKey, Settlement, DB};

#[test]
fn settlement() {
    assert!(Settlement::Win(3) < Settlement::Win(2));
    assert!(Settlement::Win(1) > Settlement::Win(2));
    assert!(Settlement::Draw < Settlement::Win(2));
    assert!(Settlement::Lose(1) < Settlement::Win(2));
    assert!(Settlement::Lose(3) < Settlement::Win(2));

    assert!(Settlement::Win(1) > Settlement::Lose(2));
    assert!(Settlement::Win(3) > Settlement::Lose(2));
    assert!(Settlement::Draw > Settlement::Lose(2));
    assert!(Settlement::Lose(1) < Settlement::Lose(2));
    assert!(Settlement::Lose(3) > Settlement::Lose(2));

    assert_eq!(Settlement::Win(4), Settlement::Win(4));
    assert_eq!(Settlement::Lose(4), Settlement::Lose(4));
    assert_eq!(Settlement::Draw, Settlement::Draw);
}

#[test]
fn settlement_neg() {
    assert_eq!(Settlement::Win(5).neg(), Settlement::Lose(5));
    assert_eq!(Settlement::Lose(5).neg(), Settlement::Win(5));
    assert_eq!(Settlement::Draw.neg(), Settlement::Draw);
    assert_eq!(Settlement::min(), Settlement::Lose(0));
}

#[test]
fn search_1_1() {
    let board = Board::new(1, 1, true);
    let key = board.key();
    let db = search_clean(board, 2, 4);
    assert_eq!(db.len(), 2);
    assert_eq!(db.get(&key), Some(Settlement::Win(1)));
}

#[test]
fn search_1_2() {
    let board = Board::new(1, 1, true);
    let key = board.key();
    let db = search_clean(board, 2, 4);
    assert_eq!(db.len(), 2);
    assert_eq!(db.get(&key), Some(Settlement::Win(1)));
}

#[test]
fn score_2_1_true() {
    let board = Board::new(2, 1, true);
    let key = board.key();
    let db = search_clean(board, 4, 16);
    assert_eq!(db.len(), 7);
    assert_eq!(db.get(&key), Some(Settlement::Win(1)));
}

#[test]
fn score_2_1_false() {
    let board = Board::new(2, 1, false);
    let key = board.key();
    let db = search_clean(board, 4, 16);
    assert_eq!(db.len(), 11);
    assert_eq!(db.get(&key), Some(Settlement::Win(3)));
}
