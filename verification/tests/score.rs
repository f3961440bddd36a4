//! Score-mode search over the fixed-configuration board.

use mancala_full_search::{search_score, Board, CompactKey, DB};

#[test]
fn score_1_1() {
    let board = Board::new(1, 1, true);
    let key = board.key();
    let db = search_score(board, 2, 4);
    assert_eq!(db.len(), 2);
    assert_eq!(db.get(&key), Some(0));
}

#[test]
fn score_1_2() {
    let board = Board::new(1, 2, true);
    let key = board.key();
    let db = search_score(board, 4, 16);
    assert_eq!(db.len(), 2);
    assert_eq!(db.get(&key), Some(-2));
}

#[test]
fn score_2_1() {
    let board = Board::new(2, 1, true);
    let key = board.key();
    let db = search_score(board, 4, 16);
    assert_eq!(db.len(), 7);
    assert_eq!(db.get(&key), Some(2));
}
