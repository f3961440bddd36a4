//! The store interface: a map whose keys are compared and sharded through
//! an abstract representation, so one store type serves both the packed
//! integer keys and the raw byte-sequence keys.

use vstd::prelude::*;

verus! {

use vstd::wrapping::u64_specs;

/// A key a store can hold: it carries a mathematical representation, a
/// decidable equality on it, and a hash that depends on it alone, so equal
/// keys always land in the same shard.
pub trait StoreKey: Sized {
    /// The mathematical value the key stands for.
    type Repr;

    spec fn repr(&self) -> Self::Repr;

    spec fn hash_repr(r: Self::Repr) -> u64;

    fn key_eq(&self, other: &Self) -> (b: bool)
        ensures
            b <==> self.repr() == other.repr(),
    ;

    fn key_hash(&self) -> (h: u64)
        ensures
            h == Self::hash_repr(self.repr()),
    ;
}

/// A transposition store: a mapping from key representations to cached
/// values.
pub trait DB<K: StoreKey, V: Copy>: Sized {
    spec fn inv(&self) -> bool;

    spec fn model(&self) -> Map<K::Repr, V>;

    fn get(&self, key: &K) -> (r: Option<V>)
        requires
            self.inv(),
        ensures
            r == (if self.model().contains_key(key.repr()) {
                Some(self.model()[key.repr()])
            } else {
                Option::<V>::None
            }),
    ;

    fn set(&mut self, key: K, value: V)
        requires
            old(self).inv(),
        ensures
            final(self).inv(),
            final(self).model() == old(self).model().insert(key.repr(), value),
    ;

    fn len(&self) -> (n: usize)
        requires
            self.inv(),
            self.model().dom().len() <= usize::MAX,
        ensures
            n == self.model().dom().len(),
    ;
}

/// The FNV-1a mixing state after folding in a byte sequence.
pub open spec fn fnv64(s: Seq<u8>) -> u64
    decreases s.len(),
{
    if s.len() == 0 {
        0xcbf29ce484222325u64
    } else {
        u64_specs::wrapping_mul(fnv64(s.drop_last()) ^ (s.last() as u64), 0x100000001b3u64)
    }
}

impl StoreKey for Vec<u8> {
    type Repr = Seq<u8>;

    open spec fn repr(&self) -> Seq<u8> {
        self@
    }

    open spec fn hash_repr(r: Seq<u8>) -> u64 {
        fnv64(r)
    }

    fn key_eq(&self, other: &Self) -> (b: bool) {
        if self.len() != other.len() {
            proof {
                assert(self@ != other@);
            }
            return false;
        }
        let mut i: usize = 0;
        while i < self.len()
            invariant
                0 <= i <= self@.len(),
                self@.len() == other@.len(),
                forall|j: int| 0 <= j < i ==> self@[j] == other@[j],
            decreases self@.len() - i,
        {
            if self[i] != other[i] {
                return false;
            }
            i = i + 1;
        }
        proof {
            assert(self@ =~= other@);
        }
        true
    }

    fn key_hash(&self) -> (h: u64) {
        let mut h: u64 = 0xcbf29ce484222325;
        let mut i: usize = 0;
        proof {
            assert(self@.take(0) =~= Seq::<u8>::empty());
        }
        while i < self.len()
            invariant
                0 <= i <= self@.len(),
                h == fnv64(self@.take(i as int)),
            decreases self@.len() - i,
        {
            h = (h ^ (self[i] as u64)).wrapping_mul(0x100000001b3u64);
            proof {
                assert(self@.take(i as int + 1).drop_last() =~= self@.take(i as int));
                assert(self@.take(i as int + 1).last() == self@[i as int]);
            }
            i = i + 1;
        }
        proof {
            assert(self@.take(self@.len() as int) =~= self@);
        }
        h
    }
}

impl StoreKey for u64 {
    type Repr = u64;

    open spec fn repr(&self) -> u64 {
        *self
    }

    open spec fn hash_repr(r: u64) -> u64 {
        u64_specs::wrapping_mul(r, 0x9e3779b97f4a7c15u64)
    }

    fn key_eq(&self, other: &Self) -> (b: bool) {
        *self == *other
    }

    fn key_hash(&self) -> (h: u64) {
        self.wrapping_mul(0x9e3779b97f4a7c15u64)
    }
}

} // verus!
