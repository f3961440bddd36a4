//! Scenario checks of the library's stated properties, on concrete boards.

use mancala_full_search::db::in_momory::InMemoryDB as ShardedDB;
use mancala_full_search::db::NoLockDB;
use mancala_full_search::game::Board as GameBoard;
use mancala_full_search::searcher::{Searcher, WidthCutSearcher};
use mancala_full_search::{search_clean, search_score, Board, CompactKey, Settlement, DB};

#[test]
fn one_pit_one_seed() {
    // The smallest game: one legal move, then it is over; the mover banks
    // the single margin and the settlement is a win in one ply.
    let board = Board::new(1, 1, true);
    assert_eq!(board.list_next().len(), 1);
    let mut played = Board::new(1, 1, true);
    played.sow(0);
    assert!(played.is_finished());

    let game = GameBoard::new(1, 1);
    let db: NoLockDB<Vec<u8>, i8> = NoLockDB::new();
    let mut s = Searcher::new(db);
    assert_eq!(s.search(&game), 1);
    assert_eq!(s.len(), 2);

    let key = board.key();
    let settled = search_clean(board, 1, 1);
    assert_eq!(settled.get(&key), Some(Settlement::Win(1)));
    assert_eq!(settled.len(), 2);
}

#[test]
fn negamax_recomputed_without_cache() {
    // The memoized searcher agrees with a plain recursion that never
    // caches anything.
    fn plain_value(b: &GameBoard) -> i8 {
        if b.is_finished() {
            return b.get_score();
        }
        let mut best = -128i8;
        for next in b.list_next() {
            let score = -plain_value(&next);
            if best < score {
                best = score;
            }
        }
        best
    }
    for (pit, stone) in [(1usize, 1u8), (1, 3), (2, 1), (2, 2), (3, 1)] {
        let b = GameBoard::new(pit, stone);
        let db: NoLockDB<Vec<u8>, i8> = NoLockDB::new();
        let mut s = Searcher::new(db);
        assert_eq!(s.search(&b), plain_value(&b));
    }
}

#[test]
fn score_normalization_shares_entries() {
    // Positions that differ only in banked stores share one cache entry:
    // the store for a tiny game has one entry per distinct pit layout.
    let board = Board::new(1, 2, true);
    let db = search_score(board, 1, 2);
    assert_eq!(db.len(), 2);
}

#[test]
fn width_cut_converges() {
    // Widening the cut narrows the gap to the exact value and reaches it
    // once the cap covers the whole branching.
    let b = GameBoard::new(2, 2);
    let db: NoLockDB<Vec<u8>, i8> = NoLockDB::new();
    let mut exact_searcher = Searcher::new(db);
    let exact = exact_searcher.search(&b);

    let mut scores = Vec::new();
    for width in 1..5usize {
        let db: ShardedDB<Vec<u8>, i8> = ShardedDB::new(1);
        let mut s = WidthCutSearcher::new(db, 1, width);
        scores.push(s.search(&b));
    }
    for i in 1..scores.len() {
        assert!(scores[i - 1] <= scores[i]);
    }
    assert_eq!(scores[3], exact);
}

#[test]
fn termination_within_measure() {
    // Any greedy play ends well before the measure's ceiling.
    for (pit, stone) in [(2usize, 2u8), (3, 2), (4, 1)] {
        let mut b = Board::new(pit, stone, true);
        let mut moves: u64 = 0;
        while !b.is_finished() {
            let mut pos: usize = 0;
            while !b.can_sow(pos) {
                pos += 1;
            }
            b.sow(pos);
            moves += 1;
            assert!(moves <= 2_097_152);
        }
    }
}

#[test]
fn compress_keeps_wave_boundaries() {
    // Fill a store with every reachable position of the smallest game, then
    // compress with a one-ply wave: the boundary is the root's single
    // successor, and the root itself is dropped.
    let root = Board::new(1, 1, true);
    let root_key = root.key();
    let succ_key = root.list_next()[0].key();
    let mut db: NoLockDB<u64, i8> = NoLockDB::new();
    let mut frontier = vec![Board::new(1, 1, true)];
    while let Some(b) = frontier.pop() {
        if db.get(&b.key()).is_none() {
            db.set(b.key(), 0);
            for n in b.list_next() {
                frontier.push(n);
            }
        }
    }
    assert_eq!(db.len(), 2);
    let out = mancala_full_search::compress_dag(root, &db, 1)
        .expect("a closed store holding the root compresses");
    assert_eq!(out.len(), 1);
    assert_eq!(out.get(&root_key), None);
    assert_eq!(out.get(&succ_key), Some(0));
}
