//! The dynamic-size board: rules smoke tests.

use mancala_full_search::game::Board;

#[test]
fn play_11() {
    let mut b = Board::new(1, 1);
    assert!(!b.is_finished());
    assert!(b.can_move(0));
    assert_eq!(b.get_score(), 0);
    b.move_one(0);
    assert!(b.is_finished());
    assert_eq!(b.side, 1);
    assert_eq!(b.get_score(), -1);
}

#[test]
fn list_11() {
    let b = Board::new(1, 1);
    let list = b.list_next();
    assert_eq!(list.len(), 1);
    let b = &list[0];
    assert_eq!(b.side, 1);
    assert_eq!(b.pits0, vec![0]);
    assert_eq!(b.pits1, vec![1]);
    assert_eq!((b.score0, b.score1), (1, 0));
}

#[test]
fn key_reflects_mover() {
    let b = Board::new(2, 1);
    assert_eq!(b.get_key(), vec![1, 1, 1, 1]);
    let mut c = Board::new(2, 3);
    c.move_one(0);
    // The key always lists the mover's own row first.
    let key = c.get_key();
    assert_eq!(key.len(), 4);
    assert_eq!(key, vec![c.pits1[0], c.pits1[1], c.pits0[0], c.pits0[1]]);
}
