//! A store over one plain map, for single-threaded searches.

use vstd::prelude::*;

use crate::db::base::{StoreKey, DB};
use crate::db::no_lock::NoLockDB;

verus! {

/// A transposition store backed by one map.
pub struct InMemoryDB<K, V> {
    db: NoLockDB<K, V>,
}

impl<K: StoreKey, V: Copy> InMemoryDB<K, V> {
    /// An empty store.
    pub fn new() -> (r: InMemoryDB<K, V>)
        ensures
            r.inv(),
            r.model() == Map::<<K as StoreKey>::Repr, V>::empty(),
    {
        InMemoryDB { db: NoLockDB::new() }
    }

    /// The store never holds more than finitely many entries, so its size
    /// is always meaningful.
    pub proof fn lemma_model_finite(&self)
        ensures
            self.model().dom().finite(),
    {
        self.db.lemma_model_finite();
    }
}

impl<K: StoreKey, V: Copy> DB<K, V> for InMemoryDB<K, V> {
    closed spec fn inv(&self) -> bool {
        self.db.inv()
    }

    closed spec fn model(&self) -> Map<<K as StoreKey>::Repr, V> {
        self.db.model()
    }

    fn get(&self, key: &K) -> (r: Option<V>) {
        self.db.get(key)
    }

    fn set(&mut self, key: K, value: V) {
        self.db.set(key, value);
    }

    fn len(&self) -> (n: usize) {
        self.db.len()
    }
}

} // verus!
