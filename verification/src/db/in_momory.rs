//! The sharded store: entries are spread over independent shards by a hash
//! of the key, so a shard holds exactly the keys that hash to its slot.

use vstd::prelude::*;

use crate::db::base::{StoreKey, DB};
use crate::db::no_lock::{distinct_keys, pairs_model, parse_dump, record_bytes, records_of,
    NoLockDB};

verus! {

/// The shard a representation belongs to.
pub open spec fn slot_of<K: StoreKey>(r: <K as StoreKey>::Repr, div: int) -> int {
    (<K as StoreKey>::hash_repr(r) as int) % div
}

/// The union of the shards' maps, later shards winning (their domains are
/// disjoint, so nothing is ever actually overridden).
pub open spec fn shards_model<K: StoreKey, V: Copy>(s: Seq<NoLockDB<K, V>>) -> Map<
    <K as StoreKey>::Repr,
    V,
>
    decreases s.len(),
{
    if s.len() == 0 {
        Map::empty()
    } else {
        shards_model(s.drop_last()).union_prefer_right(s.last().model())
    }
}

/// Every shard is internally consistent and holds exactly the keys that
/// hash to its slot.
pub open spec fn shards_ok<K: StoreKey, V: Copy>(s: Seq<NoLockDB<K, V>>, div: int) -> bool {
    &&& div == s.len()
    &&& 1 <= div
    &&& forall|i: int| 0 <= i < s.len() ==> (#[trigger] s[i].inv())
    &&& forall|i: int, r: <K as StoreKey>::Repr| 0 <= i < s.len()
        && #[trigger] s[i].model().contains_key(r) ==> slot_of::<K>(r, div) == i
}

/// A sharded transposition store: reads and writes touch one shard only,
/// chosen by a hash of the key.
pub struct InMemoryDB<K, V> {
    div: usize,
    db: Vec<NoLockDB<K, V>>,
}

/// Keys of the first `n` shards hash below `n`; in particular the shard
/// maps are pairwise disjoint.
proof fn lemma_shards_model_prefix<K: StoreKey, V: Copy>(s: Seq<NoLockDB<K, V>>, div: int)
    requires
        forall|i: int, r: <K as StoreKey>::Repr| 0 <= i < s.len()
            && #[trigger] s[i].model().contains_key(r) ==> slot_of::<K>(r, div) == i,
    ensures
        shards_model(s).dom().finite(),
        forall|r: <K as StoreKey>::Repr| #[trigger] shards_model(s).contains_key(r)
            ==> 0 <= slot_of::<K>(r, div) < s.len(),
        forall|r: <K as StoreKey>::Repr| #[trigger] shards_model(s).contains_key(r)
            ==> s[slot_of::<K>(r, div)].model().contains_key(r) && shards_model(s)[r]
            == s[slot_of::<K>(r, div)].model()[r],
        forall|i: int, r: <K as StoreKey>::Repr| 0 <= i < s.len()
            && #[trigger] s[i].model().contains_key(r) ==> shards_model(s).contains_key(r),
    decreases s.len(),
{
    if s.len() == 0 {
        assert(shards_model(s).dom() =~= Set::<<K as StoreKey>::Repr>::empty());
    } else {
        let pre = s.drop_last();
        assert forall|i: int, r: <K as StoreKey>::Repr| 0 <= i < pre.len()
            && #[trigger] pre[i].model().contains_key(r) implies slot_of::<K>(r, div)
            == i by {
            assert(s[i] == pre[i]);
        }
        lemma_shards_model_prefix(pre, div);
        assert(s.last() == s[s.len() - 1]);
        s.last().lemma_model_finite();
        vstd::map_lib::lemma_union_dom(shards_model(pre), s.last().model());
        assert(shards_model(s).dom().finite());
        assert forall|i: int, r: <K as StoreKey>::Repr| 0 <= i < s.len()
            && #[trigger] s[i].model().contains_key(r) implies shards_model(
            s,
        ).contains_key(r) by {
            if i < s.len() - 1 {
                assert(pre[i] == s[i]);
                assert(shards_model(pre).contains_key(r));
                if !s.last().model().contains_key(r) {
                    assert(shards_model(s).contains_key(r));
                }
            }
        }
        assert forall|r: <K as StoreKey>::Repr| #[trigger] shards_model(s).contains_key(r)
            implies s[slot_of::<K>(r, div)].model().contains_key(r) && shards_model(s)[r]
            == s[slot_of::<K>(r, div)].model()[r] by {
            if s.last().model().contains_key(r) {
                assert(slot_of::<K>(r, div) == s.len() - 1);
            } else {
                assert(shards_model(pre).contains_key(r));
                assert(pre[slot_of::<K>(r, div)] == s[slot_of::<K>(r, div)]);
            }
        }
    }
}

impl<K: StoreKey, V: Copy> InMemoryDB<K, V> {
    /// An empty store with `div` shards.
    pub fn new(div: usize) -> (r: InMemoryDB<K, V>)
        requires
            1 <= div,
        ensures
            r.inv(),
            r.model() == Map::<<K as StoreKey>::Repr, V>::empty(),
    {
        let mut db: Vec<NoLockDB<K, V>> = Vec::new();
        while db.len() < div
            invariant
                db@.len() <= div,
                forall|i: int| 0 <= i < db@.len() ==> (#[trigger] db@[i].inv())
                    && db@[i].model() == Map::<<K as StoreKey>::Repr, V>::empty(),
            decreases div - db.len(),
        {
            db.push(NoLockDB::new());
        }
        let r = InMemoryDB { div, db };
        proof {
            assert forall|i: int| 0 <= i < r.db@.len() implies #[trigger] r.db@[i].model()
                == Map::<<K as StoreKey>::Repr, V>::empty() by {
                assert(r.db@[i].inv());
            }
            lemma_shards_empty(r.db@);
            assert forall|i: int, q: <K as StoreKey>::Repr| 0 <= i < r.db@.len()
                && #[trigger] r.db@[i].model().contains_key(q) implies slot_of::<K>(
                q,
                div as int,
            ) == i by {
                assert(r.db@[i].model() == Map::<<K as StoreKey>::Repr, V>::empty());
            }
        }
        r
    }

    /// A consistent store never holds more than finitely many entries, so
    /// its size is always meaningful.
    pub proof fn lemma_model_finite(&self)
        requires
            self.inv(),
        ensures
            self.model().dom().finite(),
    {
        lemma_shards_model_prefix(self.db@, self.div as int);
    }

    /// The shard `key` belongs to.
    fn key_slot(&self, key: &K) -> (i: usize)
        requires
            self.inv(),
        ensures
            i as int == slot_of::<K>(key.repr(), self.div as int),
            i < self.div,
    {
        let h = key.key_hash();
        (h % (self.div as u64)) as usize
    }
}

/// All-empty shards make an empty store.
proof fn lemma_shards_empty<K: StoreKey, V: Copy>(s: Seq<NoLockDB<K, V>>)
    requires
        forall|i: int| 0 <= i < s.len() ==> #[trigger] s[i].model() == Map::<
            <K as StoreKey>::Repr,
            V,
        >::empty(),
    ensures
        shards_model(s) == Map::<<K as StoreKey>::Repr, V>::empty(),
    decreases s.len(),
{
    if s.len() > 0 {
        let pre = s.drop_last();
        assert forall|i: int| 0 <= i < pre.len() implies #[trigger] pre[i].model() == Map::<
            <K as StoreKey>::Repr,
            V,
        >::empty() by {
            assert(pre[i] == s[i]);
        }
        lemma_shards_empty(pre);
        assert(s.last() == s[s.len() - 1]);
        assert(shards_model(s) =~= Map::<<K as StoreKey>::Repr, V>::empty());
    }
}

impl<K: StoreKey, V: Copy> DB<K, V> for InMemoryDB<K, V> {
    closed spec fn inv(&self) -> bool {
        shards_ok(self.db@, self.div as int)
    }

    closed spec fn model(&self) -> Map<<K as StoreKey>::Repr, V> {
        shards_model(self.db@)
    }

    fn get(&self, key: &K) -> (r: Option<V>) {
        proof {
            lemma_shards_model_prefix(self.db@, self.div as int);
        }
        let i = self.key_slot(key);
        proof {
            assert(self.db@[i as int].inv());
        }
        let r = self.db[i].get(key);
        proof {
            if self.model().contains_key(key.repr()) {
                assert(self.db@[i as int].model().contains_key(key.repr()));
            }
        }
        r
    }

    fn set(&mut self, key: K, value: V) {
        proof {
            lemma_shards_model_prefix(old(self).db@, old(self).div as int);
        }
        let i = self.key_slot(&key);
        let ghost r0: <K as StoreKey>::Repr = key.repr();
        let shard = shard_mut(&mut self.db, i);
        proof {
            assert(shard.inv());
        }
        shard.set(key, value);
        proof {
            lemma_shards_update(
                old(self).db@,
                self.db@,
                i as int,
                old(self).div as int,
                r0,
                value,
            );
        }
    }

    fn len(&self) -> (n: usize) {
        proof {
            lemma_shards_model_prefix(self.db@, self.div as int);
        }
        let mut n: usize = 0;
        let mut i: usize = 0;
        proof {
            assert(self.db@.take(0) =~= Seq::<NoLockDB<K, V>>::empty());
        }
        while i < self.db.len()
            invariant
                self.inv(),
                self.model().dom().len() <= usize::MAX,
                0 <= i <= self.db@.len(),
                n as int == shards_model(self.db@.take(i as int)).dom().len(),
            decreases self.db@.len() - i,
        {
            proof {
                lemma_shards_len_step(self.db@, self.div as int, i as int);
                lemma_shards_len_mono(self.db@, self.div as int, i as int + 1);
                assert(self.db@.take(self.db@.len() as int) =~= self.db@);
                assert(self.db@[i as int].inv());
                self.db@[i as int].lemma_model_finite();
            }
            let c = self.db[i].len();
            n = n + c;
            i = i + 1;
        }
        proof {
            assert(self.db@.take(self.db@.len() as int) =~= self.db@);
        }
        n
    }
}

/// Growing the shard prefix by one disjoint shard adds that shard's size.
proof fn lemma_shards_len_step<K: StoreKey, V: Copy>(s: Seq<NoLockDB<K, V>>, div: int, n: int)
    requires
        shards_ok(s, div),
        0 <= n < s.len(),
    ensures
        shards_model(s.take(n + 1)).dom().len() == shards_model(s.take(n)).dom().len()
            + s[n].model().dom().len(),
        s[n].model().dom().finite(),
        shards_model(s.take(n)).dom().finite(),
{
    let pre = s.take(n);
    let cur = s.take(n + 1);
    assert(cur.drop_last() =~= pre);
    assert(cur.last() == s[n]);
    assert forall|i: int, r: <K as StoreKey>::Repr| 0 <= i < pre.len()
        && #[trigger] pre[i].model().contains_key(r) implies slot_of::<K>(r, div) == i by {
        assert(pre[i] == s[i]);
    }
    lemma_shards_model_prefix(pre, div);
    s[n].lemma_model_finite();
    assert(shards_model(pre).dom().disjoint(s[n].model().dom())) by {
        assert forall|r: <K as StoreKey>::Repr|
            shards_model(pre).dom().contains(r) && s[n].model().dom().contains(
            r,
        ) implies false by {
            assert(shards_model(pre).contains_key(r));
            assert(slot_of::<K>(r, div) < n);
            assert(s[n].model().contains_key(r));
            assert(slot_of::<K>(r, div) == n);
        }
    }
    vstd::map_lib::lemma_disjoint_union_size(shards_model(pre), s[n].model());
}

/// Prefix sizes only grow.
proof fn lemma_shards_len_mono<K: StoreKey, V: Copy>(s: Seq<NoLockDB<K, V>>, div: int, n: int)
    requires
        shards_ok(s, div),
        0 <= n <= s.len(),
    ensures
        shards_model(s.take(n)).dom().len() <= shards_model(s).dom().len(),
    decreases s.len() - n,
{
    if n == s.len() {
        assert(s.take(n) =~= s);
    } else {
        lemma_shards_len_step(s, div, n);
        lemma_shards_len_mono(s, div, n + 1);
    }
}

/// Rewriting one shard with an insert of a key of its slot rewrites the
/// whole model with that insert.
proof fn lemma_shards_update<K: StoreKey, V: Copy>(
    s0: Seq<NoLockDB<K, V>>,
    s1: Seq<NoLockDB<K, V>>,
    i: int,
    div: int,
    r: <K as StoreKey>::Repr,
    v: V,
)
    requires
        shards_ok(s0, div),
        0 <= i < s0.len(),
        s1 =~= s0.update(i, s1[i]),
        s1[i].inv(),
        s1[i].model() == s0[i].model().insert(r, v),
        slot_of::<K>(r, div) == i,
    ensures
        shards_ok(s1, div),
        shards_model(s1) == shards_model(s0).insert(r, v),
{
    assert forall|a: int, q: <K as StoreKey>::Repr| 0 <= a < s1.len()
        && #[trigger] s1[a].model().contains_key(q) implies slot_of::<K>(q, div) == a by {
        if a == i {
            if q != r {
                assert(s0[a].model().contains_key(q));
            }
        } else {
            assert(s1[a] == s0[a]);
        }
    }
    assert forall|a: int| 0 <= a < s1.len() implies (#[trigger] s1[a].inv()) by {
        if a != i {
            assert(s1[a] == s0[a]);
        }
    }
    lemma_shards_model_prefix(s0, div);
    lemma_shards_model_prefix(s1, div);
    assert forall|q: <K as StoreKey>::Repr| true implies #[trigger] shards_model(
        s1,
    ).contains_key(q) == shards_model(s0).insert(r, v).contains_key(q) && (shards_model(
        s1,
    ).contains_key(q) ==> shards_model(s1)[q] == shards_model(s0).insert(r, v)[q]) by {
        let sl: int = slot_of::<K>(q, div);
        if q == r {
            assert(s1[i].model().contains_key(r));
            assert(shards_model(s1).contains_key(r));
            assert(shards_model(s1)[r] == v);
        } else {
            if shards_model(s1).contains_key(q) {
                assert(s1[sl].model().contains_key(q));
                if sl == i {
                    assert(s0[sl].model().contains_key(q));
                } else {
                    assert(s1[sl] == s0[sl]);
                }
                assert(shards_model(s0).contains_key(q));
                assert(shards_model(s1)[q] == shards_model(s0)[q]);
            }
            if shards_model(s0).contains_key(q) {
                assert(s0[sl].model().contains_key(q));
                if sl == i {
                    assert(s1[sl].model().contains_key(q));
                } else {
                    assert(s1[sl] == s0[sl]);
                }
                assert(shards_model(s1).contains_key(q));
            }
        }
    }
    assert(shards_model(s1) =~= shards_model(s0).insert(r, v));
}

/// A mutable borrow of one shard.
fn shard_mut<K: StoreKey, V: Copy>(v: &mut Vec<NoLockDB<K, V>>, i: usize) -> (r: &mut
    NoLockDB<K, V>)
    requires
        i < old(v)@.len(),
    ensures
        *r == old(v)@[i as int],
        final(v)@ == old(v)@.update(i as int, *final(r)),
{
    &mut v[i]
}


/// Every entry of every shard, shard by shard.
pub open spec fn all_entries(s: Seq<NoLockDB<Vec<u8>, i8>>) -> Seq<(Vec<u8>, i8)>
    decreases s.len(),
{
    if s.len() == 0 {
        Seq::empty()
    } else {
        all_entries(s.drop_last()) + s.last().entries()
    }
}

/// The concatenated entries carry the whole store: distinct keys across
/// shards, and exactly the store's mapping.
proof fn lemma_all_entries(s: Seq<NoLockDB<Vec<u8>, i8>>, div: int)
    requires
        shards_ok(s, div),
    ensures
        distinct_keys(all_entries(s)),
        pairs_model(all_entries(s)) == shards_model(s),
        forall|i: int| 0 <= i < all_entries(s).len() ==> shards_model(s).contains_key(
            #[trigger] all_entries(s)[i].0@,
        ),
{
    lemma_all_entries_prefix(s, div);
}

/// The prefix of a consistent shard vector, with its own slot bound.
pub open spec fn shards_ok_prefix(s: Seq<NoLockDB<Vec<u8>, i8>>, div: int) -> bool {
    &&& forall|i: int| 0 <= i < s.len() ==> (#[trigger] s[i].inv())
    &&& forall|i: int, r: Seq<u8>| 0 <= i < s.len()
        && #[trigger] s[i].model().contains_key(r) ==> slot_of::<Vec<u8>>(r, div) == i
}

proof fn lemma_all_entries_prefix(s: Seq<NoLockDB<Vec<u8>, i8>>, div: int)
    requires
        shards_ok_prefix(s, div),
    ensures
        distinct_keys(all_entries(s)),
        pairs_model(all_entries(s)) == shards_model(s),
        forall|i: int| 0 <= i < all_entries(s).len() ==> shards_model(s).contains_key(
            #[trigger] all_entries(s)[i].0@,
        ),
    decreases s.len(),
{
    if s.len() == 0 {
        assert(pairs_model(all_entries(s)) =~= shards_model(s));
    } else {
        let pre = s.drop_last();
        assert forall|i: int| 0 <= i < pre.len() implies (#[trigger] pre[i].inv()) by {
            assert(pre[i] == s[i]);
        }
        assert forall|i: int, r: Seq<u8>| 0 <= i < pre.len()
            && #[trigger] pre[i].model().contains_key(r) implies slot_of::<Vec<u8>>(r, div)
            == i by {
            assert(pre[i] == s[i]);
        }
        lemma_all_entries_prefix(pre, div);
        let last = s.last();
        assert(last == s[s.len() - 1]);
        assert(last.inv());
        last.lemma_entries();
        crate::db::no_lock::lemma_pairs_model_concat(all_entries(pre), last.entries());
        assert forall|a: int, b: int| 0 <= a < b < all_entries(s).len() implies all_entries(
            s,
        )[a].0@ != all_entries(s)[b].0@ by {
            let pl: int = all_entries(pre).len() as int;
            if b < pl {
                assert(all_entries(s)[a] == all_entries(pre)[a]);
                assert(all_entries(s)[b] == all_entries(pre)[b]);
            } else if a >= pl {
                assert(all_entries(s)[a] == last.entries()[a - pl]);
                assert(all_entries(s)[b] == last.entries()[b - pl]);
            } else {
                assert(all_entries(s)[a] == all_entries(pre)[a]);
                assert(all_entries(s)[b] == last.entries()[b - pl]);
                assert(shards_model(pre).contains_key(all_entries(pre)[a].0@));
                assert(last.model().contains_key(last.entries()[b - pl].0.repr()));
                if all_entries(s)[a].0@ == all_entries(s)[b].0@ {
                    lemma_prefix_slots(pre, div, all_entries(pre)[a].0@);
                    assert(false);
                }
            }
        }
        assert(pairs_model(all_entries(s)) =~= shards_model(s));
        assert forall|i: int| 0 <= i < all_entries(s).len() implies shards_model(
            s,
        ).contains_key(#[trigger] all_entries(s)[i].0@) by {
            let pl: int = all_entries(pre).len() as int;
            if i < pl {
                assert(all_entries(s)[i] == all_entries(pre)[i]);
                assert(shards_model(pre).contains_key(all_entries(pre)[i].0@));
            } else {
                assert(all_entries(s)[i] == last.entries()[i - pl]);
                assert(last.model().contains_key(last.entries()[i - pl].0.repr()));
            }
            vstd::map_lib::lemma_union_dom(shards_model(pre), last.model());
        }
    }
}

/// A key held by a shard prefix sits in a slot below the prefix length.
proof fn lemma_prefix_slots(s: Seq<NoLockDB<Vec<u8>, i8>>, div: int, r: Seq<u8>)
    requires
        shards_ok_prefix(s, div),
        shards_model(s).contains_key(r),
    ensures
        0 <= slot_of::<Vec<u8>>(r, div) < s.len(),
    decreases s.len(),
{
    if s.len() > 0 {
        let pre = s.drop_last();
        if s.last().model().contains_key(r) {
            assert(s.last() == s[s.len() - 1]);
        } else {
            assert(shards_model(pre).contains_key(r));
            assert forall|i: int| 0 <= i < pre.len() implies (#[trigger] pre[i].inv()) by {
                assert(pre[i] == s[i]);
            }
            assert forall|i: int, q: Seq<u8>| 0 <= i < pre.len()
                && #[trigger] pre[i].model().contains_key(q) implies slot_of::<Vec<u8>>(
                q,
                div,
            ) == i by {
                assert(pre[i] == s[i]);
            }
            lemma_prefix_slots(pre, div, r);
        }
    }
}

impl InMemoryDB<Vec<u8>, i8> {
    /// The byte stream `dump` writes: every shard's records, back to back.
    pub closed spec fn dump_bytes(self) -> Seq<u8> {
        records_of(all_entries(self.db@))
    }

    /// Write the whole store as a flat record stream: raw key bytes, then
    /// one byte holding the score shifted by 128.  No header, no count: a
    /// reader must know the key width out of band.
    pub fn dump(&self, out: &mut Vec<u8>)
        ensures
            final(out)@ == old(out)@ + self.dump_bytes(),
    {
        let mut i: usize = 0;
        proof {
            assert(self.db@.take(0) =~= Seq::<NoLockDB<Vec<u8>, i8>>::empty());
            assert(records_of(all_entries(self.db@.take(0))) =~= Seq::<u8>::empty());
            assert(out@ =~= old(out)@ + records_of(all_entries(self.db@.take(0))));
        }
        while i < self.db.len()
            invariant
                0 <= i <= self.db@.len(),
                out@ == old(out)@ + records_of(all_entries(self.db@.take(i as int))),
            decreases self.db@.len() - i,
        {
            self.db[i].dump_into(out);
            proof {
                assert(self.db@.take(i as int + 1).drop_last() =~= self.db@.take(i as int));
                assert(self.db@.take(i as int + 1).last() == self.db@[i as int]);
                crate::db::no_lock::lemma_records_of_concat(
                    all_entries(self.db@.take(i as int)),
                    self.db@[i as int].entries(),
                );
                assert(out@ =~= old(out)@ + records_of(
                    all_entries(self.db@.take(i as int + 1)),
                ));
            }
            i = i + 1;
        }
        proof {
            assert(self.db@.take(self.db@.len() as int) =~= self.db@);
        }
    }

    /// An empty store dumps nothing.
    pub proof fn lemma_dump_empty(&self)
        requires
            self.inv(),
            self.model() == Map::<Seq<u8>, i8>::empty(),
        ensures
            self.dump_bytes() == Seq::<u8>::empty(),
    {
        lemma_all_entries(self.db@, self.div as int);
        let s = all_entries(self.db@);
        crate::db::no_lock::lemma_pairs_model_len(s);
        assert(self.model().dom() =~= Set::<Seq<u8>>::empty());
        assert(s.len() == 0);
        assert(self.dump_bytes() =~= Seq::<u8>::empty());
    }

    /// A store holding exactly one entry dumps exactly that entry's record:
    /// the raw key bytes, then the score shifted into a byte.
    pub proof fn lemma_dump_singleton(&self, k: Seq<u8>, v: i8)
        requires
            self.inv(),
            self.model() == Map::<Seq<u8>, i8>::empty().insert(k, v),
        ensures
            self.dump_bytes() == record_bytes(k, v),
    {
        lemma_all_entries(self.db@, self.div as int);
        let s = all_entries(self.db@);
        crate::db::no_lock::lemma_pairs_model_len(s);
        assert(self.model().dom() =~= Set::<Seq<u8>>::empty().insert(k));
        assert(self.model().dom().len() == 1) by {
            vstd::set::axiom_set_insert_len(Set::<Seq<u8>>::empty(), k);
        }
        assert(s.len() == 1);
        crate::db::no_lock::lemma_pairs_model_at(s, 0);
        assert(self.model().contains_key(s[0].0@));
        assert(s[0].0@ == k);
        assert(s[0].1 == v);
        assert(s.drop_first() =~= Seq::<(Vec<u8>, i8)>::empty());
        assert(self.dump_bytes() == record_bytes(s[0].0@, s[0].1) + records_of(
            s.drop_first(),
        ));
        assert(self.dump_bytes() =~= record_bytes(k, v));
    }

    /// The dump round trip: re-grouping the dumped bytes by the fixed key
    /// width reproduces exactly the store's key-to-score mapping.
    pub proof fn lemma_dump_round_trip(&self, klen: nat)
        requires
            self.inv(),
            forall|k: Seq<u8>| #[trigger] self.model().contains_key(k) ==> k.len() == klen,
        ensures
            parse_dump(self.dump_bytes(), klen) == self.model(),
    {
        lemma_all_entries(self.db@, self.div as int);
        let s = all_entries(self.db@);
        assert forall|i: int| 0 <= i < s.len() implies #[trigger] s[i].0@.len() == klen by {
            assert(shards_model(self.db@).contains_key(s[i].0@));
            assert(self.model().contains_key(s[i].0@));
        }
        crate::db::no_lock::lemma_records_round_trip(s, klen);
    }
}

} // verus!