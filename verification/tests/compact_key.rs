//! Key injectivity, checked exhaustively over the reachable graph: the
//! packed keys and the raw pit sequences always count the same positions.

use std::collections::HashSet;

use mancala_full_search::{Board, CompactKey};

fn calc_key(board: &Board) -> Vec<u8> {
    let mut key = Vec::new();
    for s in board.self_pits() {
        key.push(*s);
    }
    for s in board.opposite_pits() {
        key.push(*s);
    }
    key
}

fn search(u_db: &mut HashSet<u64>, v_db: &mut HashSet<Vec<u8>>, board: Board) {
    let u_key = board.key();
    let v_key = calc_key(&board);
    if u_db.contains(&u_key) {
        assert!(v_db.contains(&v_key));
        return;
    }
    if !board.is_finished() {
        for next in board.list_next() {
            search(u_db, v_db, next);
        }
    }
    u_db.insert(u_key);
    v_db.insert(v_key);
    assert_eq!(u_db.len(), v_db.len());
}

#[test]
fn true_1_1() {
    search(&mut HashSet::new(), &mut HashSet::new(), Board::new(1, 1, true));
}

#[test]
fn true_2_1() {
    search(&mut HashSet::new(), &mut HashSet::new(), Board::new(2, 1, true));
}

#[test]
fn true_3_1() {
    search(&mut HashSet::new(), &mut HashSet::new(), Board::new(3, 1, true));
}

#[test]
fn true_4_1() {
    search(&mut HashSet::new(), &mut HashSet::new(), Board::new(4, 1, true));
}

#[test]
fn true_5_1() {
    search(&mut HashSet::new(), &mut HashSet::new(), Board::new(5, 1, true));
}

#[test]
fn true_6_1() {
    search(&mut HashSet::new(), &mut HashSet::new(), Board::new(6, 1, true));
}

#[test]
fn false_5_2() {
    search(&mut HashSet::new(), &mut HashSet::new(), Board::new(5, 1, false));
}
