//! An ordered list of compressed points that finds a point's position
//! without walking the list.
//!
//! The list keeps the points in the order in which they were added, so a
//! point's position can stand for the value it maps to. Positions are found
//! through a hash map from the first eight bytes of a point to the positions
//! of the points that start with them. The key of that map is an integer
//! because vstd specifies `HashMap` only for keys whose hashing it models,
//! which a string of 32 bytes is not.

use crate::bytes::bytes_eq;
use crate::bytes::le_u64;
use crate::bytes::lemma_le_u64_bound;
use crate::bytes::read_le_u64;
use std::collections::HashMap;
use vstd::prelude::*;

verus! {

broadcast use vstd::std_specs::hash::group_hash_axioms;

/// The first eight bytes of an encoding as an integer, least significant
/// byte first.
pub open spec fn truncated(encoding: Seq<u8>) -> u64 {
    le_u64(encoding, 0) as u64
}

/// `at` is the last position of `list` that holds `key`.
pub open spec fn is_last_position(list: Seq<Seq<u8>>, key: Seq<u8>, at: int) -> bool {
    &&& 0 <= at < list.len()
    &&& list[at] == key
    &&& forall|k: int| at < k < list.len() ==> list[k] != key
}

/// `key` stands somewhere in `list`.
pub open spec fn occurs(list: Seq<Seq<u8>>, key: Seq<u8>) -> bool {
    exists|k: int| 0 <= k < list.len() && list[k] == key
}

/// The first eight bytes of a compressed point as an integer, least
/// significant byte first.
pub fn truncate_key(compressed: &[u8; 32]) -> (r: u64)
    ensures
        r == truncated(compressed@),
{
    proof {
        lemma_le_u64_bound(compressed@, 0);
    }
    read_le_u64(compressed, 0)
}

/// Compressed points in the order of their insertion, indexed by content.
pub struct PointIndex {
    keys: Vec<[u8; 32]>,
    buckets: HashMap<u64, Vec<u32>>,
}

impl View for PointIndex {
    type V = Seq<Seq<u8>>;

    /// The encodings in the order in which they were added.
    closed spec fn view(&self) -> Seq<Seq<u8>> {
        Seq::new(self.keys@.len(), |i: int| self.keys@[i]@)
    }
}

impl PointIndex {
    /// Each bucket holds positions of the list whose points start with the
    /// bucket's key, and every position stands in the bucket of its point.
    pub closed spec fn wf(&self) -> bool {
        &&& self.keys@.len() <= u32::MAX + 1
        &&& forall|t: u64, i: int|
            self.buckets@.contains_key(t) && 0 <= i < self.buckets@[t]@.len() ==> {
                &&& (#[trigger] self.buckets@[t]@[i]) < self.keys@.len()
                &&& truncated(self.keys@[self.buckets@[t]@[i] as int]@) == t
            }
        &&& forall|j: int|
            0 <= j < self.keys@.len() ==> {
                &&& self.buckets@.contains_key(truncated(#[trigger] self.keys@[j]@))
                &&& exists|i: int|
                    0 <= i < self.buckets@[truncated(self.keys@[j]@)]@.len()
                        && #[trigger] self.buckets@[truncated(self.keys@[j]@)]@[i] == j
            }
    }

    /// Every entry of the list is a string of 32 bytes.
    pub proof fn lemma_entries_are_32_bytes(&self)
        ensures
            forall|i: int| 0 <= i < self@.len() ==> (#[trigger] self@[i]).len() == 32,
    {
    }

    /// An empty list.
    pub fn new() -> (r: PointIndex)
        ensures
            r.wf(),
            r@ == Seq::<Seq<u8>>::empty(),
    {
        let r = PointIndex { keys: Vec::new(), buckets: HashMap::new() };
        assert(r@ =~= Seq::<Seq<u8>>::empty());
        r
    }

    /// The number of points in the list.
    pub fn len(&self) -> (r: usize)
        ensures
            r == self@.len(),
    {
        self.keys.len()
    }

    /// The point at position `at`.
    pub fn key(&self, at: usize) -> (r: &[u8; 32])
        requires
            at < self@.len(),
        ensures
            r@ == self@[at as int],
    {
        &self.keys[at]
    }

    /// Adds a point at the end of the list.
    pub fn push(&mut self, key: [u8; 32])
        requires
            old(self).wf(),
            old(self)@.len() <= u32::MAX,
        ensures
            final(self).wf(),
            final(self)@ == old(self)@.push(key@),
    {
        let pos: u32 = self.keys.len() as u32;
        let t: u64 = truncate_key(&key);
        let ghost old_keys = self.keys@;
        let ghost old_buckets = self.buckets@;
        self.keys.push(key);
        let mut bucket: Vec<u32> = match self.buckets.remove(&t) {
            Some(b) => b,
            None => Vec::new(),
        };
        let ghost old_bucket = bucket@;
        bucket.push(pos);
        self.buckets.insert(t, bucket);
        proof {
            assert(final(self)@ =~= old(self)@.push(key@));
            let keys = self.keys@;
            let buckets = self.buckets@;
            assert(buckets[t]@ == old_bucket.push(pos));
            assert(old_buckets.contains_key(t) ==> old_bucket == old_buckets[t]@);
            assert(!old_buckets.contains_key(t) ==> old_bucket.len() == 0);
            assert forall|u: u64, i: int|
                buckets.contains_key(u) && 0 <= i < buckets[u]@.len() implies {
                &&& (#[trigger] buckets[u]@[i]) < keys.len()
                &&& truncated(keys[buckets[u]@[i] as int]@) == u
            } by {
                if u == t {
                    if i < old_bucket.len() {
                        assert(old_buckets.contains_key(t));
                        assert(buckets[u]@[i] == old_buckets[t]@[i]);
                    }
                } else {
                    assert(old_buckets.contains_key(u));
                    assert(buckets[u]@[i] == old_buckets[u]@[i]);
                }
            }
            assert forall|j: int| 0 <= j < keys.len() implies {
                &&& buckets.contains_key(truncated(#[trigger] keys[j]@))
                &&& exists|i: int|
                    0 <= i < buckets[truncated(keys[j]@)]@.len() && #[trigger] buckets[truncated(
                        keys[j]@,
                    )]@[i] == j
            } by {
                let u = truncated(keys[j]@);
                if j == pos {
                    assert(buckets[t]@[old_bucket.len() as int] == pos);
                } else {
                    assert(keys[j] == old_keys[j]);
                    let i = choose|i: int|
                        0 <= i < old_buckets[u]@.len() && #[trigger] old_buckets[u]@[i] == j;
                    if u == t {
                        assert(buckets[t]@[i] == j);
                    } else {
                        assert(buckets[u]@[i] == j);
                    }
                }
            }
            assert(self.wf());
        }
    }

    /// The last position at which `key` stands in the list, if it stands
    /// there at all.
    pub fn find(&self, key: &[u8; 32]) -> (r: Option<usize>)
        requires
            self.wf(),
        ensures
            match r {
                Some(at) => is_last_position(self@, key@, at as int),
                None => !occurs(self@, key@),
            },
    {
        let t: u64 = truncate_key(key);
        let found = self.buckets.get(&t);
        if found.is_none() {
            proof {
                assert forall|k: int| 0 <= k < self@.len() implies self@[k] != key@ by {
                    if self@[k] == key@ {
                        assert(self.buckets@.contains_key(truncated(self.keys@[k]@)));
                    }
                }
            }
            return None;
        }
        let bucket: &Vec<u32> = found.unwrap();
        let mut best: Option<usize> = None;
        let mut i: usize = 0;
        while i < bucket.len()
            invariant
                self.wf(),
                i <= bucket@.len(),
                t == truncated(key@),
                self.buckets@.contains_key(t),
                self.buckets@[t] == *bucket,
                match best {
                    Some(at) => at < self.keys@.len() && self.keys@[at as int]@ == key@,
                    None => true,
                },
                forall|h: int|
                    0 <= h < i && self.keys@[#[trigger] bucket@[h] as int]@ == key@ ==> best.is_some()
                        && best.unwrap() >= bucket@[h],
            decreases bucket@.len() - i,
        {
            let pos: usize = bucket[i] as usize;
            assert(self.buckets@[t]@[i as int] < self.keys@.len());
            if bytes_eq(&self.keys[pos], key) {
                let better: bool = match best {
                    Some(at) => at < pos,
                    None => true,
                };
                if better {
                    best = Some(pos);
                }
            }
            i += 1;
        }
        proof {
            assert forall|k: int| 0 <= k < self@.len() && self@[k] == key@ implies best.is_some()
                && best.unwrap() >= k by {
                assert(truncated(self.keys@[k]@) == t);
                let h = choose|h: int|
                    0 <= h < self.buckets@[t]@.len() && #[trigger] self.buckets@[t]@[h] == k;
                assert(bucket@[h] == k);
            }
        }
        best
    }
}

} // verus!
