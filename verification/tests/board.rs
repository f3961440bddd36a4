//! The fixed-configuration board: rules smoke tests.

use mancala_full_search::{Board, CompactKey};

#[test]
fn smoke_1_2() {
    let mut board = Board::new(1, 2, true);
    assert!(!board.is_finished());
    assert_eq!(board.list_next().len(), 1);
    assert_eq!(board.scores(), (2, 2));
    let key1 = board.key();
    board.sow(0);
    assert!(board.is_finished());
    assert_eq!(board.scores(), (1, 3));
    let key2 = board.key();
    assert_ne!(key1, key2);
}

#[test]
fn smoke_3_1() {
    let mut board = Board::new(3, 1, true);
    assert!(!board.is_finished());
    assert_eq!(board.list_next().len(), 4);
    assert_eq!(board.scores(), (3, 3));
    let key1 = board.key();
    board.sow(2);
    board.sow(1);
    assert!(!board.is_finished());
    assert_eq!(board.scores(), (4, 2));
    let key2 = board.key();
    assert_ne!(key1, key2);
}

#[test]
fn conservation_along_play() {
    let mut board = Board::new(3, 2, true);
    let mut moves: u32 = 0;
    while !board.is_finished() {
        let mut pos: usize = 0;
        while !board.can_sow(pos) {
            pos += 1;
        }
        board.sow(pos);
        let (s0, s1) = board.scores();
        assert_eq!(s0 as u32 + s1 as u32, 12);
        moves += 1;
        assert!(moves <= 2_100_000);
    }
}
