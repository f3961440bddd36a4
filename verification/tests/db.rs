//! Transposition store smoke tests and the dump format.

use mancala_full_search::db::in_memory::InMemoryDB as PlainDB;
use mancala_full_search::db::in_momory::InMemoryDB as ShardedDB;
use mancala_full_search::db::{NoLockDB, DB};

#[test]
fn in_memory_smoke() {
    let mut db: PlainDB<Vec<u8>, i8> = PlainDB::new();
    db.set(vec![b'a'], 1);
    assert_eq!(db.get(&vec![b'a']), Some(1));
    assert_eq!(db.get(&vec![b'b']), None);
    assert_eq!(db.len(), 1);
}

#[test]
fn in_momory_smoke() {
    let mut db: ShardedDB<Vec<u8>, i8> = ShardedDB::new(1);
    db.set(vec![b'a'], 1);
    assert_eq!(db.get(&vec![b'a']), Some(1));
    assert_eq!(db.get(&vec![b'b']), None);
    assert_eq!(db.len(), 1);
}

#[test]
fn dump() {
    let mut db: ShardedDB<Vec<u8>, i8> = ShardedDB::new(3);
    db.set(vec![0, 1, 2], -3);
    let mut buf = Vec::new();
    db.dump(&mut buf);
    assert_eq!(buf, vec![0, 1, 2, 125]);
}

#[test]
fn no_lock_smoke() {
    let mut db: NoLockDB<Vec<u8>, i8> = NoLockDB::new();
    db.set(vec![b'a'], 1);
    assert_eq!(db.get(&vec![b'a']), Some(1));
    assert_eq!(db.get(&vec![b'b']), None);
    assert_eq!(db.len(), 1);
}

#[test]
fn sharded_spread() {
    let mut db: ShardedDB<Vec<u8>, i8> = ShardedDB::new(16);
    for i in 0..100u8 {
        db.set(vec![i, i.wrapping_mul(3)], (i % 100) as i8);
    }
    for i in 0..100u8 {
        assert_eq!(db.get(&vec![i, i.wrapping_mul(3)]), Some((i % 100) as i8));
    }
    assert_eq!(db.len(), 100);
    db.set(vec![7, 21], -5);
    assert_eq!(db.get(&vec![7, 21]), Some(-5));
    assert_eq!(db.len(), 100);
}

#[test]
fn dump_round_trip() {
    // Three records of one key width; re-grouping the flat bytes by that
    // width reproduces the mapping exactly.
    let mut db: ShardedDB<Vec<u8>, i8> = ShardedDB::new(4);
    db.set(vec![1, 2], -128);
    db.set(vec![3, 4], 0);
    db.set(vec![5, 6], 127);
    let mut buf = Vec::new();
    db.dump(&mut buf);
    assert_eq!(buf.len(), 9);
    let mut recovered = Vec::new();
    for chunk in buf.chunks(3) {
        let key = vec![chunk[0], chunk[1]];
        let score = (chunk[2] as i16 - 128) as i8;
        recovered.push((key, score));
    }
    recovered.sort();
    assert_eq!(
        recovered,
        vec![(vec![1, 2], -128), (vec![3, 4], 0), (vec![5, 6], 127)]
    );
}
