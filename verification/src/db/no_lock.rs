//! A plain single-threaded store: an association vector with distinct keys.

use vstd::prelude::*;

use crate::db::base::{StoreKey, DB};

verus! {

/// The map an association vector stands for, later entries winning.
pub open spec fn pairs_model<K: StoreKey, V>(s: Seq<(K, V)>) -> Map<K::Repr, V>
    decreases s.len(),
{
    if s.len() == 0 {
        Map::empty()
    } else {
        pairs_model(s.drop_last()).insert(s.last().0.repr(), s.last().1)
    }
}

/// No two entries share a key representation.
pub open spec fn distinct_keys<K: StoreKey, V>(s: Seq<(K, V)>) -> bool {
    forall|i: int, j: int| 0 <= i < j < s.len() ==> s[i].0.repr() != s[j].0.repr()
}

pub proof fn lemma_pairs_model<K: StoreKey, V>(s: Seq<(K, V)>)
    ensures
        pairs_model(s).dom().finite(),
        forall|r: <K as StoreKey>::Repr| #[trigger] pairs_model(s).contains_key(r)
            ==> exists|i: int| 0 <= i < s.len() && #[trigger] s[i].0.repr() == r,
        forall|i: int| 0 <= i < s.len() ==> pairs_model(s).contains_key(
            #[trigger] s[i].0.repr(),
        ),
    decreases s.len(),
{
    if s.len() > 0 {
        lemma_pairs_model(s.drop_last());
        assert forall|r: <K as StoreKey>::Repr| #[trigger] pairs_model(s).contains_key(r)
            implies exists|i: int| 0 <= i < s.len() && #[trigger] s[i].0.repr() == r by {
            if r == s.last().0.repr() {
                assert(s[s.len() - 1].0.repr() == r);
            } else {
                let i = choose|i: int| 0 <= i < s.drop_last().len()
                    && #[trigger] s.drop_last()[i].0.repr() == r;
                assert(s[i].0.repr() == r);
            }
        }
        assert forall|i: int| 0 <= i < s.len() implies pairs_model(s).contains_key(
            #[trigger] s[i].0.repr(),
        ) by {
            if i < s.len() - 1 {
                assert(s.drop_last()[i] == s[i]);
            }
        }
    }
}

/// With distinct keys, the entry found by a scan is the map's entry, and the
/// map has exactly one entry per pair.
pub proof fn lemma_pairs_model_at<K: StoreKey, V>(s: Seq<(K, V)>, i: int)
    requires
        distinct_keys(s),
        0 <= i < s.len(),
    ensures
        pairs_model(s).contains_key(s[i].0.repr()),
        pairs_model(s)[s[i].0.repr()] == s[i].1,
    decreases s.len(),
{
    if i == s.len() - 1 {
    } else {
        assert(s.drop_last()[i] == s[i]);
        lemma_pairs_model_at(s.drop_last(), i);
        assert(s[i].0.repr() != s.last().0.repr());
    }
}

pub proof fn lemma_pairs_model_len<K: StoreKey, V>(s: Seq<(K, V)>)
    requires
        distinct_keys(s),
    ensures
        pairs_model(s).dom().len() == s.len(),
    decreases s.len(),
{
    if s.len() > 0 {
        lemma_pairs_model_len(s.drop_last());
        lemma_pairs_model(s.drop_last());
        if pairs_model(s.drop_last()).contains_key(s.last().0.repr()) {
            let i = choose|i: int| 0 <= i < s.drop_last().len()
                && #[trigger] s.drop_last()[i].0.repr() == s.last().0.repr();
            assert(s.drop_last()[i] == s[i]);
            assert(s[i].0.repr() == s[s.len() - 1].0.repr());
            assert(false);
        }
        assert(pairs_model(s).dom() =~= pairs_model(s.drop_last()).dom().insert(
            s.last().0.repr(),
        ));
        vstd::set::axiom_set_insert_len(
            pairs_model(s.drop_last()).dom(),
            s.last().0.repr(),
        );
    }
}

/// A single-threaded transposition store without any locking: a map from
/// keys to values, kept as an association vector with distinct keys.
pub struct NoLockDB<K, V> {
    db: Vec<(K, V)>,
}

impl<K: StoreKey, V: Copy> NoLockDB<K, V> {
    pub closed spec fn entries(&self) -> Seq<(K, V)> {
        self.db@
    }

    /// An empty store.
    pub fn new() -> (r: NoLockDB<K, V>)
        ensures
            r.inv(),
            r.model() == Map::<<K as StoreKey>::Repr, V>::empty(),
    {
        NoLockDB { db: Vec::new() }
    }

    pub proof fn lemma_model_finite(&self)
        ensures
            self.model().dom().finite(),
    {
        lemma_pairs_model(self.db@);
    }

    /// The stored entries carry the map faithfully: distinct keys, one
    /// entry per mapping pair.
    pub proof fn lemma_entries(&self)
        requires
            self.inv(),
        ensures
            distinct_keys(self.entries()),
            pairs_model(self.entries()) == self.model(),
            forall|i: int| 0 <= i < self.entries().len() ==> self.model().contains_key(
                #[trigger] self.entries()[i].0.repr(),
            ),
    {
        lemma_pairs_model(self.db@);
    }

    /// Index of the entry holding `key`, if any.
    fn find(&self, key: &K) -> (r: Option<usize>)
        ensures
            match r {
                Some(i) => i < self.db@.len() && self.db@[i as int].0.repr() == key.repr(),
                None => forall|i: int| 0 <= i < self.db@.len()
                    ==> #[trigger] self.db@[i].0.repr() != key.repr(),
            },
    {
        let mut i: usize = 0;
        while i < self.db.len()
            invariant
                0 <= i <= self.db@.len(),
                forall|j: int| 0 <= j < i ==> #[trigger] self.db@[j].0.repr()
                    != key.repr(),
            decreases self.db@.len() - i,
        {
            if self.db[i].0.key_eq(key) {
                return Some(i);
            }
            i = i + 1;
        }
        None
    }
}

impl<K: StoreKey, V: Copy> DB<K, V> for NoLockDB<K, V> {
    closed spec fn inv(&self) -> bool {
        distinct_keys(self.db@)
    }

    closed spec fn model(&self) -> Map<<K as StoreKey>::Repr, V> {
        pairs_model(self.db@)
    }

    fn get(&self, key: &K) -> (r: Option<V>) {
        proof {
            lemma_pairs_model(self.db@);
        }
        match self.find(key) {
            Some(i) => {
                proof {
                    lemma_pairs_model_at(self.db@, i as int);
                }
                Some(self.db[i].1)
            },
            None => {
                proof {
                    if self.model().contains_key(key.repr()) {
                        let i = choose|i: int| 0 <= i < self.db@.len()
                            && #[trigger] self.db@[i].0.repr() == key.repr();
                        assert(false);
                    }
                }
                None
            },
        }
    }

    fn set(&mut self, key: K, value: V) {
        proof {
            lemma_pairs_model(self.db@);
        }
        match self.find(&key) {
            Some(i) => {
                let ghost s0: Seq<(K, V)> = self.db@;
                self.db.set(i, (key, value));
                proof {
                    lemma_set_entry(s0, self.db@, i as int);
                }
            },
            None => {
                self.db.push((key, value));
                proof {
                    assert(self.db@.drop_last() =~= old(self).db@);
                }
            },
        }
    }

    fn len(&self) -> (n: usize) {
        proof {
            lemma_pairs_model_len(self.db@);
        }
        self.db.len()
    }
}

/// Overwriting the entry at `i` with an equal-representation key rewrites
/// exactly that key's value in the model.
proof fn lemma_set_entry<K: StoreKey, V>(s0: Seq<(K, V)>, s1: Seq<(K, V)>, i: int)
    requires
        distinct_keys(s0),
        0 <= i < s0.len(),
        s1 == s0.update(i, (s1[i].0, s1[i].1)),
        s1.len() == s0.len(),
        s1[i].0.repr() == s0[i].0.repr(),
    ensures
        distinct_keys(s1),
        pairs_model(s1) == pairs_model(s0).insert(s0[i].0.repr(), s1[i].1),
    decreases s0.len(),
{
    assert forall|a: int, b: int| 0 <= a < b < s1.len() implies s1[a].0.repr()
        != s1[b].0.repr() by {
        assert(s0[a].0.repr() != s0[b].0.repr());
    }
    if i == s0.len() - 1 {
        assert(s1.drop_last() =~= s0.drop_last());
        assert(pairs_model(s1) =~= pairs_model(s0).insert(s0[i].0.repr(), s1[i].1));
    } else {
        assert(s1.drop_last() =~= s0.drop_last().update(i, (s1[i].0, s1[i].1)));
        lemma_set_entry(s0.drop_last(), s1.drop_last(), i);
        assert(s1.last() == s0.last());
        assert(s0[i].0.repr() != s0.last().0.repr());
        assert(pairs_model(s1) =~= pairs_model(s0).insert(s0[i].0.repr(), s1[i].1));
    }
}


/// One dumped record: the raw key bytes, then the score shifted into a
/// byte.
pub open spec fn record_bytes(k: Seq<u8>, v: i8) -> Seq<u8> {
    k + seq![(v + 128) as u8]
}

/// The dumped byte stream of an entry sequence: records back to back, with
/// no header and no count.
pub open spec fn records_of(s: Seq<(Vec<u8>, i8)>) -> Seq<u8>
    decreases s.len(),
{
    if s.len() == 0 {
        Seq::empty()
    } else {
        record_bytes(s[0].0@, s[0].1) + records_of(s.drop_first())
    }
}

pub proof fn lemma_records_of_concat(a: Seq<(Vec<u8>, i8)>, b: Seq<(Vec<u8>, i8)>)
    ensures
        records_of(a + b) == records_of(a) + records_of(b),
    decreases a.len(),
{
    if a.len() == 0 {
        assert(a + b =~= b);
        assert(records_of(a) + records_of(b) =~= records_of(b));
    } else {
        assert((a + b).drop_first() =~= a.drop_first() + b);
        assert((a + b)[0] == a[0]);
        lemma_records_of_concat(a.drop_first(), b);
        assert(record_bytes(a[0].0@, a[0].1) + (records_of(a.drop_first()) + records_of(b))
            =~= (record_bytes(a[0].0@, a[0].1) + records_of(a.drop_first())) + records_of(
            b,
        ));
    }
}

impl NoLockDB<Vec<u8>, i8> {
    /// Append this store's records to a byte stream.
    pub fn dump_into(&self, out: &mut Vec<u8>)
        ensures
            final(out)@ == old(out)@ + records_of(self.entries()),
    {
        let mut i: usize = 0;
        proof {
            assert(self.entries().take(0) =~= Seq::<(Vec<u8>, i8)>::empty());
            assert(out@ =~= old(out)@ + records_of(self.entries().take(0)));
        }
        while i < self.db.len()
            invariant
                0 <= i <= self.db@.len(),
                out@ == old(out)@ + records_of(self.entries().take(i as int)),
            decreases self.db@.len() - i,
        {
            let ghost snap: Seq<u8> = out@;
            let mut j: usize = 0;
            let entry_key = &self.db[i].0;
            while j < entry_key.len()
                invariant
                    0 <= j <= entry_key@.len(),
                    i < self.db@.len(),
                    entry_key@ == self.db@[i as int].0@,
                    out@ == snap + entry_key@.take(j as int),
                decreases entry_key@.len() - j,
            {
                out.push(entry_key[j]);
                proof {
                    assert(out@ =~= snap + entry_key@.take(j as int + 1));
                }
                j = j + 1;
            }
            let v = self.db[i].1;
            out.push(((v as i16) + 128) as u8);
            proof {
                assert(entry_key@.take(entry_key@.len() as int) =~= entry_key@);
                assert(out@ =~= snap + record_bytes(
                    self.db@[i as int].0@,
                    self.db@[i as int].1,
                ));
                lemma_take_step_records(self.entries(), i as int);
            }
            i = i + 1;
        }
        proof {
            assert(self.entries().take(self.db@.len() as int) =~= self.entries());
        }
    }
}

/// Dumping one more entry appends exactly its record.
proof fn lemma_take_step_records(s: Seq<(Vec<u8>, i8)>, i: int)
    requires
        0 <= i < s.len(),
    ensures
        records_of(s.take(i + 1)) == records_of(s.take(i)) + record_bytes(s[i].0@, s[i].1),
{
    assert(s.take(i + 1) =~= s.take(i) + seq![s[i]]);
    lemma_records_of_concat(s.take(i), seq![s[i]]);
    assert(seq![s[i]].drop_first() =~= Seq::<(Vec<u8>, i8)>::empty());
    assert(records_of(Seq::<(Vec<u8>, i8)>::empty()) =~= Seq::<u8>::empty());
    assert(seq![s[i]][0] == s[i]);
    assert(records_of(seq![s[i]]) == record_bytes(s[i].0@, s[i].1) + records_of(
        Seq::<(Vec<u8>, i8)>::empty(),
    ));
    assert(record_bytes(s[i].0@, s[i].1) + Seq::<u8>::empty() =~= record_bytes(
        s[i].0@,
        s[i].1,
    ));
}


/// Re-group a dumped byte stream into its key-to-score mapping, given the
/// fixed key width that the reader must know out of band.
pub open spec fn parse_dump(b: Seq<u8>, klen: nat) -> Map<Seq<u8>, i8>
    decreases b.len(),
{
    if b.len() < klen + 1 {
        Map::empty()
    } else {
        parse_dump(b.skip(klen as int + 1), klen).insert(
            b.take(klen as int),
            (b[klen as int] - 128) as i8,
        )
    }
}

/// With distinct keys, the first entry's insert commutes to the outside.
proof fn lemma_pairs_model_first(s: Seq<(Vec<u8>, i8)>)
    requires
        distinct_keys(s),
        s.len() >= 1,
    ensures
        pairs_model(s) == pairs_model(s.drop_first()).insert(s[0].0@, s[0].1),
    decreases s.len(),
{
    if s.len() == 1 {
        assert(s.drop_first() =~= Seq::<(Vec<u8>, i8)>::empty());
        assert(s.drop_last() =~= Seq::<(Vec<u8>, i8)>::empty());
        assert(s.last() == s[0]);
    } else {
        let mid = s.drop_last().drop_first();
        assert(s.drop_first().drop_last() =~= mid);
        assert(forall|a: int, b2: int| 0 <= a < b2 < s.drop_last().len()
            ==> s.drop_last()[a].0@ != s.drop_last()[b2].0@) by {
            assert(forall|a: int| 0 <= a < s.drop_last().len() ==> s.drop_last()[a]
                == s[a]);
        }
        lemma_pairs_model_first(s.drop_last());
        assert(s.drop_last()[0] == s[0]);
        assert(s.drop_first().last() == s.last());
        assert(s[0].0@ != s.last().0@);
        assert(pairs_model(s) =~= pairs_model(s.drop_first()).insert(s[0].0@, s[0].1));
    }
}

/// The dump round trip: re-grouping the dumped bytes of a store whose keys
/// all share one width reproduces exactly its key-to-score mapping.
pub proof fn lemma_records_round_trip(s: Seq<(Vec<u8>, i8)>, klen: nat)
    requires
        distinct_keys(s),
        forall|i: int| 0 <= i < s.len() ==> #[trigger] s[i].0@.len() == klen,
    ensures
        parse_dump(records_of(s), klen) == pairs_model(s),
    decreases s.len(),
{
    if s.len() == 0 {
        assert(records_of(s).len() == 0);
        assert(pairs_model(s) =~= Map::<Seq<u8>, i8>::empty());
        assert(parse_dump(records_of(s), klen) =~= Map::<Seq<u8>, i8>::empty());
    } else {
        let rest = s.drop_first();
        let b = records_of(s);
        let k0: Seq<u8> = s[0].0@;
        let v0: i8 = s[0].1;
        assert(s[0].0@.len() == klen);
        assert(b == record_bytes(k0, v0) + records_of(rest));
        assert(record_bytes(k0, v0).len() == klen + 1);
        assert(b.len() >= klen + 1);
        assert(b.take(klen as int) =~= k0);
        assert(b[klen as int] == (v0 + 128) as u8);
        assert(b.skip(klen as int + 1) =~= records_of(rest));
        assert(forall|a: int, b2: int| 0 <= a < b2 < rest.len() ==> rest[a].0@
            != rest[b2].0@) by {
            assert(forall|a: int| 0 <= a < rest.len() ==> rest[a] == s[a + 1]);
        }
        assert(forall|i: int| 0 <= i < rest.len() ==> #[trigger] rest[i].0@.len()
            == klen) by {
            assert(forall|i: int| 0 <= i < rest.len() ==> rest[i] == s[i + 1]);
        }
        lemma_records_round_trip(rest, klen);
        assert(((v0 + 128) as u8 - 128) as i8 == v0);
        lemma_pairs_model_first(s);
        assert(parse_dump(b, klen) == pairs_model(rest).insert(k0, v0));
    }
}

/// Splitting an entry sequence splits its mapping, later entries winning.
pub proof fn lemma_pairs_model_concat(a: Seq<(Vec<u8>, i8)>, b: Seq<(Vec<u8>, i8)>)
    ensures
        pairs_model(a + b) == pairs_model(a).union_prefer_right(pairs_model(b)),
    decreases b.len(),
{
    if b.len() == 0 {
        assert(a + b =~= a);
        assert(pairs_model(b) =~= Map::<Seq<u8>, i8>::empty());
        assert(pairs_model(a).union_prefer_right(pairs_model(b)) =~= pairs_model(a));
    } else {
        assert((a + b).drop_last() =~= a + b.drop_last());
        assert((a + b).last() == b.last());
        lemma_pairs_model_concat(a, b.drop_last());
        assert(pairs_model(a + b) =~= pairs_model(a).union_prefer_right(pairs_model(b)));
    }
}

} // verus!
