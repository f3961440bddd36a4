//! The three searchers over the dynamic-size board.

use mancala_full_search::db::in_memory::InMemoryDB as PlainDB;
use mancala_full_search::db::in_momory::InMemoryDB as ShardedDB;
use mancala_full_search::db::NoLockDB;
use mancala_full_search::game::Board;
use mancala_full_search::searcher::{MultiSearcher, Searcher};

#[test]
fn searcher_search_11() {
    let b = Board::new(1, 1);
    let db: PlainDB<Vec<u8>, i8> = PlainDB::new();
    let mut s = Searcher::new(db);
    assert_eq!(s.search(&b), 1);
    assert_eq!(s.len(), 2);
}

#[test]
fn searcher_search_12() {
    let b = Board::new(1, 2);
    let db: PlainDB<Vec<u8>, i8> = PlainDB::new();
    let mut s = Searcher::new(db);
    assert_eq!(s.search(&b), 1);
    assert_eq!(s.len(), 2);
}

#[test]
fn searcher_search_15() {
    let b = Board::new(1, 5);
    let db: PlainDB<Vec<u8>, i8> = PlainDB::new();
    let mut s = Searcher::new(db);
    assert_eq!(s.search(&b), -2);
    assert_eq!(s.len(), 3);
}

#[test]
fn searcher_search_21() {
    let b = Board::new(2, 1);
    let db: PlainDB<Vec<u8>, i8> = PlainDB::new();
    let mut s = Searcher::new(db);
    assert_eq!(s.search(&b), 1);
    assert_eq!(s.len(), 8);
}

#[test]
fn searcher_search_32() {
    let b = Board::new(3, 2);
    let db: PlainDB<Vec<u8>, i8> = PlainDB::new();
    let mut s = Searcher::new(db);
    assert_eq!(s.search(&b), 4);
    assert_eq!(s.len(), 1239);
}

#[test]
fn single_search_11() {
    let b = Board::new(1, 1);
    let db: NoLockDB<Vec<u8>, i8> = NoLockDB::new();
    let mut s = Searcher::new(db);
    assert_eq!(s.search(&b), 1);
    assert_eq!(s.len(), 2);
}

#[test]
fn single_search_12() {
    let b = Board::new(1, 2);
    let db: NoLockDB<Vec<u8>, i8> = NoLockDB::new();
    let mut s = Searcher::new(db);
    assert_eq!(s.search(&b), 1);
    assert_eq!(s.len(), 2);
}

#[test]
fn single_search_15() {
    let b = Board::new(1, 5);
    let db: NoLockDB<Vec<u8>, i8> = NoLockDB::new();
    let mut s = Searcher::new(db);
    assert_eq!(s.search(&b), -2);
    assert_eq!(s.len(), 3);
}

#[test]
fn single_search_21() {
    let b = Board::new(2, 1);
    let db: NoLockDB<Vec<u8>, i8> = NoLockDB::new();
    let mut s = Searcher::new(db);
    assert_eq!(s.search(&b), 1);
    assert_eq!(s.len(), 8);
}

#[test]
fn single_search_32() {
    let b = Board::new(3, 2);
    let db: NoLockDB<Vec<u8>, i8> = NoLockDB::new();
    let mut s = Searcher::new(db);
    assert_eq!(s.search(&b), 4);
    assert_eq!(s.len(), 1239);
}

#[test]
fn multi_search_11() {
    let b = Board::new(1, 1);
    let db: ShardedDB<Vec<u8>, i8> = ShardedDB::new(1);
    let mut s = MultiSearcher::new(1, db);
    assert_eq!(s.search(&b), 1);
    assert_eq!(s.len(), 2);
}

#[test]
fn multi_search_12() {
    let b = Board::new(1, 2);
    let db: ShardedDB<Vec<u8>, i8> = ShardedDB::new(1);
    let mut s = MultiSearcher::new(1, db);
    assert_eq!(s.search(&b), 1);
    assert_eq!(s.len(), 2);
}

#[test]
fn multi_search_15() {
    let b = Board::new(1, 5);
    let db: ShardedDB<Vec<u8>, i8> = ShardedDB::new(1);
    let mut s = MultiSearcher::new(1, db);
    assert_eq!(s.search(&b), -2);
    assert_eq!(s.len(), 3);
}

#[test]
fn multi_search_21() {
    let b = Board::new(2, 1);
    let db: ShardedDB<Vec<u8>, i8> = ShardedDB::new(1);
    let mut s = MultiSearcher::new(1, db);
    assert_eq!(s.search(&b), 1);
    assert_eq!(s.len(), 8);
}

#[test]
fn multi_search_32() {
    let b = Board::new(3, 2);
    let db: ShardedDB<Vec<u8>, i8> = ShardedDB::new(1);
    let mut s = MultiSearcher::new(4, db);
    assert_eq!(s.search(&b), 4);
    assert_eq!(s.len(), 1239);
}
