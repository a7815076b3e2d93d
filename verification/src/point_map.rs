//! A map from compressed points to values.
//!
//! The entries are kept in the order in which their points first came, each
//! point once. A point that is inserted again keeps its place and takes the
//! new value.

use crate::point_index::occurs;
use crate::point_index::PointIndex;
use vstd::prelude::*;

verus! {

/// A map from compressed points to values of type `V`.
pub struct PointMap<V> {
    points: PointIndex,
    values: Vec<V>,
}

impl<V> PointMap<V> {
    /// The points of the entries, in the order in which they first came.
    pub closed spec fn keys(&self) -> Seq<Seq<u8>> {
        self.points@
    }

    /// The values of the entries, each at the position of its point.
    pub closed spec fn values(&self) -> Seq<V> {
        self.values@
    }

    /// There is one value for each point, no point stands twice, and there
    /// are at most 2^32 entries.
    pub closed spec fn wf(&self) -> bool {
        &&& self.points.wf()
        &&& self.values@.len() == self.points@.len()
        &&& self.points@.len() <= u32::MAX + 1
        &&& forall|a: int, b: int|
            0 <= a < b < self.points@.len() ==> self.points@[a] != self.points@[b]
    }

    /// The map holds what `before` held and the value `value` for `key`: in
    /// the entry that `before` had for the key, or else in a new entry at
    /// the end.
    pub open spec fn holds_after_insert(&self, before: PointMap<V>, key: Seq<u8>, value: V) -> bool {
        if occurs(before.keys(), key) {
            &&& self.keys() == before.keys()
            &&& exists|at: int|
                0 <= at < before.keys().len() && before.keys()[at] == key && self.values()
                    == before.values().update(at, value)
        } else {
            &&& self.keys() == before.keys().push(key)
            &&& self.values() == before.values().push(value)
        }
    }

    /// What a well-formed map's shape gives: as many values as points, each
    /// point of 32 bytes, and no point twice.
    pub proof fn lemma_shape(&self)
        requires
            self.wf(),
        ensures
            self.values().len() == self.keys().len(),
            self.keys().len() <= u32::MAX + 1,
            forall|a: int| 0 <= a < self.keys().len() ==> (#[trigger] self.keys()[a]).len() == 32,
            forall|a: int, b: int|
                0 <= a < b < self.keys().len() ==> self.keys()[a] != self.keys()[b],
    {
        self.points.lemma_entries_are_32_bytes();
    }

    /// An empty map.
    pub fn new() -> (r: PointMap<V>)
        ensures
            r.wf(),
            r.keys() == Seq::<Seq<u8>>::empty(),
            r.values() == Seq::<V>::empty(),
    {
        PointMap { points: PointIndex::new(), values: Vec::new() }
    }

    /// The number of entries.
    pub fn len(&self) -> (r: usize)
        requires
            self.wf(),
        ensures
            r == self.keys().len(),
    {
        self.points.len()
    }

    /// The point of the entry at position `at`.
    pub fn key_at(&self, at: usize) -> (r: &[u8; 32])
        requires
            self.wf(),
            at < self.keys().len(),
        ensures
            r@ == self.keys()[at as int],
    {
        self.points.key(at)
    }

    /// The value of the entry at position `at`.
    pub fn value_at(&self, at: usize) -> (r: &V)
        requires
            self.wf(),
            at < self.keys().len(),
        ensures
            *r == self.values()[at as int],
    {
        &self.values[at]
    }

    /// The position of the entry of `key`, if the map has one.
    pub fn position(&self, key: &[u8; 32]) -> (r: Option<usize>)
        requires
            self.wf(),
        ensures
            match r {
                Some(at) => at < self.keys().len() && self.keys()[at as int] == key@,
                None => !occurs(self.keys(), key@),
            },
    {
        self.points.find(key)
    }

    /// Gives `key` the value `value`: in the entry that the map has for the
    /// key, or else in a new entry at the end.
    pub fn insert(&mut self, key: [u8; 32], value: V)
        requires
            old(self).wf(),
            old(self).keys().len() <= u32::MAX,
        ensures
            final(self).wf(),
            final(self).holds_after_insert(*old(self), key@, value),
    {
        match self.points.find(&key) {
            Some(at) => {
                self.values.set(at, value);
            },
            None => {
                self.points.push(key);
                self.values.push(value);
            },
        }
    }
}

} // verus!
