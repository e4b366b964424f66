use vstd::prelude::*;
use core::cmp::Ordering;
use crate::order::Comparable;

verus! {

/// A key and a value, ordered by the key alone: putting a pair whose key is
/// already stored replaces the stored pair.
#[derive(Clone, Debug)]
pub struct KeyValue<K: Comparable, V> {
    pub key: K,
    pub value: V,
}

impl<K: Comparable, V> Comparable for KeyValue<K, V> {
    open spec fn precedes(self, other: Self) -> bool {
        self.key.precedes(other.key)
    }

    proof fn lemma_irreflexive(x: Self) {
        K::lemma_irreflexive(x.key);
    }

    proof fn lemma_transitive(x: Self, y: Self, z: Self) {
        K::lemma_transitive(x.key, y.key, z.key);
    }

    proof fn lemma_connected(x: Self, y: Self, z: Self) {
        K::lemma_connected(x.key, y.key, z.key);
    }

    fn compare(&self, other: &Self) -> (r: Ordering) {
        self.key.compare(&other.key)
    }
}

impl<K: Comparable, V> PartialEq for KeyValue<K, V> {
    fn eq(&self, other: &Self) -> (r: bool) {
        match self.key.compare(&other.key) {
            Ordering::Equal => true,
            _ => false,
        }
    }
}

impl<K: Comparable, V> vstd::std_specs::cmp::PartialEqSpecImpl for KeyValue<K, V> {
    open spec fn obeys_eq_spec() -> bool {
        true
    }

    open spec fn eq_spec(&self, other: &Self) -> bool {
        !self.key.precedes(other.key) && !other.key.precedes(self.key)
    }
}

impl<K: Comparable, V> Eq for KeyValue<K, V> {
}

} // verus!
