//! Truncated baby-step giant-step with batched compression.
//!
//! The table keeps of each doubled baby step only the first eight bytes of
//! its encoding, a quarter of the whole. Two points may share a truncated
//! key, so a key found in the table counts only after the baby step it
//! stands for has been computed and compared with the point looked up.

pub mod precomputed_tables;

use crate::baby_steps::after_giant_steps;
use crate::baby_steps::baby_step_count;
use crate::baby_steps::baby_steps_for;
use crate::baby_steps::doubled;
use crate::baby_steps::generator_multiples;
use crate::baby_steps::giant_step_for;
use crate::baby_steps::giant_step_log;
use crate::baby_steps::lemma_baby_steps_cover;
use crate::baby_steps::lemma_giant_steps_down;
use crate::baby_steps::lemma_one_more_giant_step;
use crate::baby_steps::lemma_quotient_is_a_step;
use crate::baby_steps::lemma_steps_stay_below_square;
use crate::baby_steps::range_of;
use crate::bsgs_k::next_batch_len;
use crate::bytes::le_bytes;
use crate::bytes::le_u64;
use crate::bytes::lemma_le_bytes_round_trip;
use crate::bytes::lemma_le_u64_bound;
use crate::codec::concat8;
use crate::codec::get_bytes32;
use crate::codec::get_keys;
use crate::codec::get_u64;
use crate::codec::lemma_split_concat8;
use crate::codec::put_bytes32;
use crate::codec::put_keys;
use crate::codec::put_u64;
use crate::codec::split8;
use crate::error::SolveError;
use crate::tbsgs_k::precomputed_tables::PrecomputedTables;
use crate::error::TableError;
use crate::group::double_and_compress_batch;
use crate::group::encodes;
use crate::group::group_order;
use crate::group::point_add;
use crate::group::point_compress;
use crate::group::point_decompress;
use crate::group::point_eq;
use crate::group::point_identity;
use crate::group::point_log;
use crate::group::point_mul_base;
use crate::group::ristretto_encoding;
use crate::point_index::truncate_key;
use crate::point_index::truncated;
use crate::shared::share;
use crate::traits::DiscreteLogSolver;
use crate::utils::u64_to_scalar;
use curve25519_dalek::ristretto::RistrettoPoint;
use std::collections::HashMap;
use std::sync::Arc;
use vstd::arithmetic::power2::lemma_pow2_strictly_increases;
use vstd::arithmetic::power2::pow2;
use vstd::prelude::*;

verus! {

broadcast use vstd::std_specs::hash::group_hash_axioms;

/// The truncated key of the doubled baby step `2 * (j * G)`.
pub open spec fn truncated_baby_step(j: nat) -> u64 {
    truncated(ristretto_encoding(doubled(j)))
}

/// `map` finds positions in `keys`: it holds each key of the list, with the
/// last position at which the key stands.
pub open spec fn indexes(map: Map<u64, u16>, keys: Seq<u64>) -> bool {
    &&& forall|key: u64| #[trigger]
        map.contains_key(key) ==> {
            &&& map[key] < keys.len()
            &&& keys[map[key] as int] == key
            &&& forall|k: int| map[key] < k < keys.len() ==> keys[k] != key
        }
    &&& forall|j: int| 0 <= j < keys.len() ==> map.contains_key(#[trigger] keys[j])
}

/// The table of the truncated baby-step giant-step solver.
pub struct TruncatedBabyStepGiantStepKTable {
    /// The number of bits of the logarithms to look for.
    pub max_num_bits: u8,
    /// The number of baby steps.
    pub m: u64,
    /// From the truncated key of a doubled baby step to its number.
    pub baby_steps: HashMap<u64, u16>,
    /// The truncated keys of the doubled baby steps in order: at position
    /// `j` that of `2 * (j * G)`.
    pub truncated_keys: Vec<u64>,
    /// The giant step, `-m * G`.
    pub giant_step: RistrettoPoint,
}

/// The truncated baby-step giant-step solver, which takes `K` giant steps at
/// a time. Its table can be shared.
pub struct TruncatedBabyStepGiantStepK<const K: usize> {
    pub table: Arc<TruncatedBabyStepGiantStepKTable>,
}

/// The bytes that store a table of truncated keys: the number of bits (one
/// byte), the number of baby steps and the length of the list of keys (eight
/// bytes each), the keys in order, eight bytes each, and the 32 bytes of the
/// giant step.
pub open spec fn truncated_table_encoding(
    max_num_bits: u8,
    m: u64,
    keys: Seq<u64>,
    giant: Seq<u8>,
) -> Seq<u8> {
    seq![max_num_bits] + le_bytes(m) + le_bytes(keys.len() as u64) + concat8(keys) + giant
}

/// `bytes` store a table of truncated keys: a number of bits from 1 to 32,
/// the number of baby steps that belongs to it, as many keys, and the giant
/// step that belongs to the number of baby steps.
pub open spec fn decodable(bytes: Seq<u8>) -> bool {
    &&& bytes.len() >= 49
    &&& 1 <= bytes[0] <= 32
    &&& le_u64(bytes, 1) == baby_step_count(bytes[0])
    &&& le_u64(bytes, 9) == le_u64(bytes, 1)
    &&& bytes.len() == 49 + 8 * le_u64(bytes, 1)
    &&& bytes.subrange(bytes.len() - 32, bytes.len() as int) == ristretto_encoding(
        giant_step_log(le_u64(bytes, 1)),
    )
}

/// The truncated keys that `bytes` store.
pub open spec fn stored_keys(bytes: Seq<u8>) -> Seq<u64> {
    split8(bytes, 17, le_u64(bytes, 1))
}

/// Builds the map from each key of a list to its last position.
pub fn index_keys(keys: &Vec<u64>) -> (map: HashMap<u64, u16>)
    requires
        keys@.len() <= 65536,
    ensures
        indexes(map@, keys@),
{
    let mut map: HashMap<u64, u16> = HashMap::with_capacity(keys.len());
    let mut j: usize = 0;
    while j < keys.len()
        invariant
            j <= keys@.len() <= 65536,
            indexes(map@, keys@.take(j as int)),
        decreases keys@.len() - j,
    {
        let ghost before = map@;
        map.insert(keys[j], j as u16);
        proof {
            let grown = keys@.take(j + 1);
            let shown = keys@.take(j as int);
            assert forall|key: u64| #[trigger] map@.contains_key(key) implies {
                &&& map@[key] < grown.len()
                &&& grown[map@[key] as int] == key
                &&& forall|k: int| map@[key] < k < grown.len() ==> grown[k] != key
            } by {
                if key != keys@[j as int] {
                    assert(before.contains_key(key));
                    assert(shown[before[key] as int] == key);
                    assert forall|k: int| map@[key] < k < grown.len() implies grown[k] != key by {
                        if k < j {
                            assert(shown[k] != key);
                        }
                    }
                }
            }
            assert forall|i: int| 0 <= i < grown.len() implies map@.contains_key(
                #[trigger] grown[i],
            ) by {
                if i < j {
                    assert(before.contains_key(shown[i]));
                }
            }
        }
        j += 1;
    }
    assert(keys@.take(keys@.len() as int) =~= keys@);
    map
}

/// The baby steps of a table for fewer bits are the first of those of a
/// table for more bits: where no two baby steps of a table for `bits` bits
/// share their truncated key, none of a table for `fewer` bits do. So the
/// tables for all numbers of bits can be generated where the table for 32
/// bits can.
pub proof fn lemma_fewer_bits_collide_no_more(fewer: u8, bits: u8)
    requires
        1 <= fewer <= bits <= 32,
        forall|a: nat, b: nat|
            a < b < baby_step_count(bits) ==> #[trigger] truncated_baby_step(a)
                != #[trigger] truncated_baby_step(b),
    ensures
        forall|a: nat, b: nat|
            a < b < baby_step_count(fewer) ==> #[trigger] truncated_baby_step(a)
                != #[trigger] truncated_baby_step(b),
{
    let low = ((fewer + 1) / 2) as nat;
    let high = ((bits + 1) / 2) as nat;
    if low < high {
        lemma_pow2_strictly_increases(low, high);
    }
}

impl TruncatedBabyStepGiantStepKTable {
    /// The table has the shape of one for its number of bits: `m` keys, `m`
    /// being the count that belongs to the number of bits, the map that
    /// finds them, and the giant step `-m * G`.
    pub open spec fn wf(&self) -> bool {
        &&& 1 <= self.max_num_bits <= 32
        &&& self.m == baby_step_count(self.max_num_bits)
        &&& self.truncated_keys@.len() == self.m
        &&& indexes(self.baby_steps@, self.truncated_keys@)
        &&& point_log(self.giant_step) == giant_step_log(self.m as nat)
    }

    /// The table holds what `generate` computes: position `j` holds the
    /// truncated key of `2 * (j * G)`, and no two positions hold the same.
    pub open spec fn genuine(&self) -> bool {
        &&& forall|j: int|
            0 <= j < self.m ==> #[trigger] self.truncated_keys@[j] == truncated_baby_step(j as nat)
        &&& forall|a: int, b: int|
            0 <= a < b < self.m ==> #[trigger] self.truncated_keys@[a]
                != #[trigger] self.truncated_keys@[b]
    }

    /// After `i` giant steps from `y * G` the table holds, under the
    /// truncated key of the double of the point reached, the logarithm of
    /// that point.
    pub open spec fn hits(&self, y: nat, i: nat) -> bool {
        let reached = after_giant_steps(y, giant_step_log(self.m as nat), i);
        let key = truncated_baby_step(reached);
        self.baby_steps@.contains_key(key) && self.baby_steps@[key] == reached
    }

    /// What the search in giant steps gives for the point `y * G`: `y` where
    /// it is zero or the table is hit within `m` giant steps, else nothing.
    /// The batch size has no part in it.
    pub open spec fn found(&self, y: nat) -> Result<u64, SolveError> {
        if y == 0 || exists|i: nat| i < self.m && #[trigger] self.hits(y, i) {
            Ok(#[verifier::truncate] (y as u64))
        } else {
            Err(SolveError::OutOfRange)
        }
    }

    /// What solving gives for the point `y * G`: what the search gives where
    /// `y` has at most `max_num_bits` bits, else that `y` is out of range.
    pub open spec fn solution(&self, y: nat) -> Result<u64, SolveError> {
        if y < pow2(self.max_num_bits as nat) {
            self.found(y)
        } else {
            Err(SolveError::OutOfRange)
        }
    }

    /// The bytes that store the table.
    pub open spec fn serialization(&self) -> Seq<u8> {
        truncated_table_encoding(
            self.max_num_bits,
            self.m,
            self.truncated_keys@,
            ristretto_encoding(point_log(self.giant_step)),
        )
    }

    /// `bytes` store a table, and this table holds what they store.
    pub open spec fn stored_in(&self, bytes: Seq<u8>) -> bool {
        &&& decodable(bytes)
        &&& self.max_num_bits == bytes[0]
        &&& self.m == le_u64(bytes, 1)
        &&& self.truncated_keys@ == stored_keys(bytes)
    }

    /// Generates the table for logarithms of `max_num_bits` bits: the baby
    /// steps `j * G` for `j` below `m`, doubled and compressed in one batch
    /// and truncated, and the giant step `-m * G`. No table is made where
    /// two of the baby steps share their truncated key.
    pub fn generate(max_num_bits: u8) -> (r: Result<TruncatedBabyStepGiantStepKTable, TableError>)
        requires
            1 <= max_num_bits <= 32,
        ensures
            r is Err <==> exists|a: nat, b: nat|
                a < b < baby_step_count(max_num_bits) && #[trigger] truncated_baby_step(a)
                    == #[trigger] truncated_baby_step(b),
            r matches Ok(table) ==> table.wf() && table.genuine() && table.max_num_bits
                == max_num_bits,
            r matches Err(e) ==> e == TableError::TruncatedKeyCollision,
    {
        let m: u64 = baby_steps_for(max_num_bits);
        let points = generator_multiples(m as usize);
        let doubled_compressed = double_and_compress_batch(&points);
        let mut baby_steps: HashMap<u64, u16> = HashMap::with_capacity(m as usize);
        let mut truncated_keys: Vec<u64> = Vec::with_capacity(m as usize);
        let mut j: usize = 0;
        while j < doubled_compressed.len()
            invariant
                j <= doubled_compressed@.len(),
                doubled_compressed@.len() == m,
                m == baby_step_count(max_num_bits),
                m <= 65536,
                points@.len() == m,
                truncated_keys@.len() == j,
                indexes(baby_steps@, truncated_keys@),
                forall|k: int| 0 <= k < m ==> point_log(#[trigger] points@[k]) == k,
                forall|k: int|
                    0 <= k < m ==> encodes(
                        #[trigger] doubled_compressed@[k]@,
                        (2 * point_log(points@[k])) % group_order(),
                    ),
                forall|k: int|
                    0 <= k < j ==> #[trigger] truncated_keys@[k] == truncated_baby_step(k as nat),
                forall|a: int, b: int|
                    0 <= a < b < j ==> #[trigger] truncated_keys@[a]
                        != #[trigger] truncated_keys@[b],
            decreases doubled_compressed@.len() - j,
        {
            assert(point_log(points@[j as int]) == j);
            let key: u64 = truncate_key(&doubled_compressed[j]);
            assert(key == truncated_baby_step(j as nat));
            if baby_steps.contains_key(&key) {
                proof {
                    let a = baby_steps@[key] as nat;
                    assert(truncated_keys@[a as int] == key);
                    assert(a < j as nat && truncated_baby_step(a) == truncated_baby_step(j as nat));
                }
                return Err(TableError::TruncatedKeyCollision);
            }
            let ghost before = baby_steps@;
            let ghost shown = truncated_keys@;
            baby_steps.insert(key, j as u16);
            truncated_keys.push(key);
            proof {
                let grown = truncated_keys@;
                assert forall|a: int, b: int| 0 <= a < b < j + 1 implies #[trigger] grown[a]
                    != #[trigger] grown[b] by {
                    if b == j {
                        assert(before.contains_key(shown[a]));
                    }
                }
                assert forall|other: u64| #[trigger]
                    baby_steps@.contains_key(other) implies {
                    &&& baby_steps@[other] < grown.len()
                    &&& grown[baby_steps@[other] as int] == other
                    &&& forall|k: int| baby_steps@[other] < k < grown.len() ==> grown[k] != other
                } by {
                    if other != key {
                        assert(before.contains_key(other));
                        assert(shown[before[other] as int] == other);
                        assert forall|k: int|
                            baby_steps@[other] < k < grown.len() implies grown[k] != other by {
                            if k < j {
                                assert(shown[k] != other);
                            }
                        }
                    }
                }
                assert forall|i: int| 0 <= i < grown.len() implies baby_steps@.contains_key(
                    #[trigger] grown[i],
                ) by {
                    if i < j {
                        assert(before.contains_key(shown[i]));
                    }
                }
            }
            j += 1;
        }
        let giant_step = giant_step_for(m);
        proof {
            if exists|a: nat, b: nat|
                a < b < baby_step_count(max_num_bits) && #[trigger] truncated_baby_step(a)
                    == #[trigger] truncated_baby_step(b) {
                let (a, b) = choose|a: nat, b: nat|
                    a < b < baby_step_count(max_num_bits) && #[trigger] truncated_baby_step(a)
                        == #[trigger] truncated_baby_step(b);
                assert(truncated_keys@[a as int] != truncated_keys@[b as int]);
            }
        }
        Ok(
            TruncatedBabyStepGiantStepKTable {
                max_num_bits,
                m,
                baby_steps,
                truncated_keys,
                giant_step,
            },
        )
    }

    /// Stores the table as bytes: the truncated keys in order, so that their
    /// values need no storing. `from_bytes` reads the table back.
    pub fn to_bytes(&self) -> (r: Vec<u8>)
        requires
            self.wf(),
        ensures
            r@ == self.serialization(),
            self.stored_in(r@),
    {
        proof {
            lemma_baby_steps_cover(self.max_num_bits);
        }
        let mut out: Vec<u8> = Vec::new();
        out.push(self.max_num_bits);
        assert(out@ =~= seq![self.max_num_bits]);
        put_u64(&mut out, self.m);
        put_u64(&mut out, self.truncated_keys.len() as u64);
        let ghost head = out@;
        put_keys(&mut out, &self.truncated_keys);
        let giant = point_compress(&self.giant_step);
        put_bytes32(&mut out, &giant);
        proof {
            let m = self.m;
            let keys = self.truncated_keys@;
            lemma_le_bytes_round_trip(m);
            assert(head =~= seq![self.max_num_bits] + le_bytes(m) + le_bytes(m));
            assert(out@ =~= head + concat8(keys) + giant@);
            assert(out@.len() == 49 + 8 * m);
            assert(le_u64(out@, 1) == le_u64(le_bytes(m), 0)) by {
                assert forall|b: int| 0 <= b < 8 implies out@[1 + b] == le_bytes(m)[b] by {
                    assert(out@[1 + b] == head[1 + b]);
                }
            }
            assert(le_u64(out@, 9) == le_u64(le_bytes(m), 0)) by {
                assert forall|b: int| 0 <= b < 8 implies out@[9 + b] == le_bytes(m)[b] by {
                    assert(out@[9 + b] == head[9 + b]);
                }
            }
            lemma_split_concat8(head, keys, giant@);
            assert(out@.subrange(out@.len() - 32, out@.len() as int) =~= giant@);
        }
        out
    }

    /// Reads a table from the bytes that store it and builds its map anew.
    /// The bytes are corrupt where they have not the layout of a table,
    /// where the number of bits is not from 1 to 32, where the number of
    /// keys is not the one that belongs to it, or where the giant step is
    /// not the one that belongs to the number of keys.
    pub fn from_bytes(bytes: &[u8]) -> (r: Result<TruncatedBabyStepGiantStepKTable, TableError>)
        ensures
            r is Ok <==> decodable(bytes@),
            r matches Ok(table) ==> table.wf() && table.stored_in(bytes@),
            r matches Err(e) ==> e == TableError::CorruptTable,
    {
        let total: usize = bytes.len();
        if total < 49 {
            return Err(TableError::CorruptTable);
        }
        let max_num_bits: u8 = bytes[0];
        if max_num_bits < 1 || max_num_bits > 32 {
            return Err(TableError::CorruptTable);
        }
        proof {
            lemma_le_u64_bound(bytes@, 1);
            lemma_le_u64_bound(bytes@, 9);
        }
        let m: u64 = get_u64(bytes, 1);
        let count: u64 = get_u64(bytes, 9);
        if m != baby_steps_for(max_num_bits) || count != m {
            return Err(TableError::CorruptTable);
        }
        if (total - 49) as u64 != 8 * m {
            return Err(TableError::CorruptTable);
        }
        let giant = get_bytes32(bytes, total - 32);
        let expected = giant_step_for(m);
        let giant_step = match point_decompress(&giant) {
            Some(point) => point,
            None => {
                return Err(TableError::CorruptTable);
            },
        };
        if !point_eq(&giant_step, &expected) {
            return Err(TableError::CorruptTable);
        }
        let truncated_keys = get_keys(bytes, 17, m as usize);
        let baby_steps = index_keys(&truncated_keys);
        Ok(
            TruncatedBabyStepGiantStepKTable {
                max_num_bits,
                m,
                baby_steps,
                truncated_keys,
                giant_step,
            },
        )
    }

    /// Solves `pk = x * G` for `x`, taking `k` giant steps at a time: the
    /// points of a batch are collected, doubled and compressed together, and
    /// their truncated keys looked up one by one. A key found with the value
    /// `j` counts only if `j * G` is the point of the batch; otherwise the
    /// search goes on.
    pub fn solve_dlp(&self, pk: &RistrettoPoint, k: usize) -> (r: Result<u64, SolveError>)
        requires
            self.wf(),
        ensures
            r == self.solution(point_log(*pk)),
    {
        let limit: u64 = range_of(self.max_num_bits);
        let identity = point_identity();
        if point_eq(pk, &identity) {
            return Ok(0);
        }
        let ghost y = point_log(*pk);
        let ghost giant = giant_step_log(self.m as nat);
        let m: u64 = self.m;
        proof {
            lemma_baby_steps_cover(self.max_num_bits);
        }
        let mut gamma: RistrettoPoint = *pk;
        let mut batch_start: u64 = 0;
        while batch_start < m
            invariant
                self.wf(),
                m == self.m,
                limit == pow2(self.max_num_bits as nat),
                m <= 65536,
                batch_start <= m,
                y == point_log(*pk),
                y != 0,
                giant == giant_step_log(m as nat),
                point_log(gamma) == after_giant_steps(y, giant, batch_start as nat),
                forall|i: nat| i < batch_start ==> !#[trigger] self.hits(y, i),
            decreases m - batch_start,
        {
            let batch_size: usize = next_batch_len(k, m, batch_start);
            let mut batch_points: Vec<RistrettoPoint> = Vec::with_capacity(batch_size);
            let mut current_gamma: RistrettoPoint = gamma;
            let mut t: usize = 0;
            while t < batch_size
                invariant
                    t <= batch_size,
                    batch_start + batch_size <= m <= 65536,
                    batch_points@.len() == t,
                    giant == point_log(self.giant_step),
                    point_log(current_gamma) == after_giant_steps(
                        y,
                        giant,
                        (batch_start + t) as nat,
                    ),
                    forall|u: int|
                        0 <= u < t ==> point_log(#[trigger] batch_points@[u]) == after_giant_steps(
                            y,
                            giant,
                            (batch_start + u) as nat,
                        ),
                decreases batch_size - t,
            {
                batch_points.push(current_gamma);
                proof {
                    lemma_one_more_giant_step(y, giant, (batch_start + t) as nat);
                }
                current_gamma = point_add(&current_gamma, &self.giant_step);
                t += 1;
            }
            let compressed_batch = double_and_compress_batch(&batch_points);
            let mut t: usize = 0;
            while t < batch_size
                invariant
                    self.wf(),
                    m == self.m,
                    limit == pow2(self.max_num_bits as nat),
                    t <= batch_size,
                    batch_start + batch_size <= m <= 65536,
                    y == point_log(*pk),
                    y < group_order(),
                    giant == giant_step_log(m as nat),
                    compressed_batch@.len() == batch_size,
                    batch_points@.len() == batch_size,
                    forall|u: int|
                        0 <= u < batch_size ==> point_log(#[trigger] batch_points@[u])
                            == after_giant_steps(y, giant, (batch_start + u) as nat),
                    forall|u: int|
                        0 <= u < batch_size ==> encodes(
                            #[trigger] compressed_batch@[u]@,
                            (2 * point_log(batch_points@[u])) % group_order(),
                        ),
                    forall|i: nat| i < batch_start + t ==> !#[trigger] self.hits(y, i),
                decreases batch_size - t,
            {
                let ghost i = (batch_start + t) as nat;
                let ghost reached = after_giant_steps(y, giant, i);
                assert(point_log(batch_points@[t as int]) == reached);
                assert(compressed_batch@[t as int]@ == ristretto_encoding(doubled(reached)));
                let key: u64 = truncate_key(&compressed_batch[t]);
                match self.baby_steps.get(&key) {
                    Some(found) => {
                        let j: u64 = *found as u64;
                        let expected_point = point_mul_base(&u64_to_scalar(j));
                        if point_eq(&batch_points[t], &expected_point) {
                            proof {
                                lemma_giant_steps_down(y, m as nat, i);
                            }
                            proof {
                                lemma_steps_stay_below_square(i as int, j as int, m as int);
                            }
                            let x: u64 = (batch_start + t as u64) * m + j;
                            assert(self.hits(y, i));
                            return if x < limit {
                            Ok(x)
                        } else {
                            Err(SolveError::OutOfRange)
                        };
                        }
                    },
                    None => {},
                }
                assert(!self.hits(y, i));
                t += 1;
            }
            gamma = current_gamma;
            batch_start += batch_size as u64;
        }
        Err(SolveError::OutOfRange)
    }
}

/// The name of the truncated solver for a batch size: the batch size is
/// part of it where it is a power of two up to 16384.
pub open spec fn truncated_name_of(k: usize) -> Seq<char> {
    match k {
        1 => "TBSGS-k1"@,
        2 => "TBSGS-k2"@,
        4 => "TBSGS-k4"@,
        8 => "TBSGS-k8"@,
        16 => "TBSGS-k16"@,
        32 => "TBSGS-k32"@,
        64 => "TBSGS-k64"@,
        128 => "TBSGS-k128"@,
        256 => "TBSGS-k256"@,
        512 => "TBSGS-k512"@,
        1024 => "TBSGS-k1024"@,
        2048 => "TBSGS-k2048"@,
        4096 => "TBSGS-k4096"@,
        8192 => "TBSGS-k8192"@,
        16384 => "TBSGS-k16384"@,
        _ => "TBSGS-k?"@,
    }
}

/// The name of the truncated solver for a batch size.
pub fn truncated_name(k: usize) -> (name: &'static str)
    ensures
        name@ == truncated_name_of(k),
{
    match k {
        1 => "TBSGS-k1",
        2 => "TBSGS-k2",
        4 => "TBSGS-k4",
        8 => "TBSGS-k8",
        16 => "TBSGS-k16",
        32 => "TBSGS-k32",
        64 => "TBSGS-k64",
        128 => "TBSGS-k128",
        256 => "TBSGS-k256",
        512 => "TBSGS-k512",
        1024 => "TBSGS-k1024",
        2048 => "TBSGS-k2048",
        4096 => "TBSGS-k4096",
        8192 => "TBSGS-k8192",
        16384 => "TBSGS-k16384",
        _ => "TBSGS-k?",
    }
}

impl<const K: usize> TruncatedBabyStepGiantStepK<K> {
    /// Makes a solver of a table that was made ahead of time, from the
    /// bytes that store it. The bytes are corrupt where they store no table,
    /// or one for another number of bits than `table` stands for.
    pub fn from_precomputed_table(table: PrecomputedTables, bytes: &[u8]) -> (r: Result<
        TruncatedBabyStepGiantStepK<K>,
        TableError,
    >)
        ensures
            r is Ok <==> decodable(bytes@) && bytes@[0] == 32,
            r matches Ok(solver) ==> solver.table.wf() && solver.table.stored_in(bytes@),
            r matches Err(e) ==> e == TableError::CorruptTable,
    {
        match TruncatedBabyStepGiantStepKTable::from_bytes(bytes) {
            Ok(loaded) => {
                if loaded.max_num_bits == table.max_num_bits() {
                    Ok(TruncatedBabyStepGiantStepK { table: Arc::new(loaded) })
                } else {
                    Err(TableError::CorruptTable)
                }
            },
            Err(e) => Err(e),
        }
    }

    /// Returns one more pointer to the solver's table, for another solver to
    /// share it.
    pub fn table(&self) -> (r: Arc<TruncatedBabyStepGiantStepKTable>)
        ensures
            r == self.table,
    {
        share(&self.table)
    }

    /// Solves `pk = x * G` for `x`, taking `K` giant steps at a time.
    pub fn solve(&self, pk: &RistrettoPoint) -> (r: Result<u64, SolveError>)
        requires
            self.table.wf(),
        ensures
            r == self.table.solution(point_log(*pk)),
    {
        self.table.solve_dlp(pk, K)
    }
}

impl<const K: usize> DiscreteLogSolver for TruncatedBabyStepGiantStepK<K> {
    open spec fn wf(&self) -> bool {
        self.table.wf()
    }

    open spec fn genuine(&self) -> bool {
        self.table.genuine()
    }

    open spec fn bits(&self) -> u8 {
        self.table.max_num_bits
    }

    open spec fn accepts(max_num_bits: u8) -> bool {
        1 <= max_num_bits <= 32
    }

    open spec fn deterministic() -> bool {
        true
    }

    open spec fn answer(&self, y: nat) -> Result<u64, SolveError> {
        self.table.solution(y)
    }

    fn algorithm_name() -> (name: &'static str)
        ensures
            name@ == truncated_name_of(K),
    {
        truncated_name(K)
    }

    fn new_and_compute_table(max_num_bits: u8) -> (r: Result<Self, TableError>)
        ensures
            r is Err <==> exists|a: nat, b: nat|
                a < b < baby_step_count(max_num_bits) && #[trigger] truncated_baby_step(a)
                    == #[trigger] truncated_baby_step(b),
    {
        match TruncatedBabyStepGiantStepKTable::generate(max_num_bits) {
            Ok(table) => Ok(TruncatedBabyStepGiantStepK { table: Arc::new(table) }),
            Err(e) => Err(e),
        }
    }

    fn load_table(bytes: &[u8]) -> (r: Result<Self, TableError>)
        ensures
            r is Ok <==> decodable(bytes@),
            r matches Ok(solver) ==> solver.table.stored_in(bytes@),
    {
        match TruncatedBabyStepGiantStepKTable::from_bytes(bytes) {
            Ok(table) => Ok(TruncatedBabyStepGiantStepK { table: Arc::new(table) }),
            Err(e) => Err(e),
        }
    }

    fn solve(&self, pk: &RistrettoPoint) -> (r: Result<u64, SolveError>)
        ensures
            r == self.table.solution(point_log(*pk)),
    {
        proof {
            let y = point_log(*pk);
            lemma_baby_steps_cover(self.table.max_num_bits);
            lemma_solution_is_exact(&*self.table, y);
            if self.table.genuine() {
                lemma_genuine_table_solves(&*self.table, y);
            }
        }
        self.table.solve_dlp(pk, K)
    }

    fn max_num_bits(&self) -> (r: u8) {
        self.table.max_num_bits
    }
}

/// A map that finds positions in a list of keys is that list's only one.
pub proof fn lemma_index_is_unique(first: Map<u64, u16>, second: Map<u64, u16>, keys: Seq<u64>)
    requires
        indexes(first, keys),
        indexes(second, keys),
    ensures
        first =~= second,
{
    assert forall|key: u64| first.contains_key(key) == second.contains_key(key) by {
        if first.contains_key(key) {
            assert(second.contains_key(keys[first[key] as int]));
        }
        if second.contains_key(key) {
            assert(first.contains_key(keys[second[key] as int]));
        }
    }
    assert forall|key: u64| first.contains_key(key) implies first[key] == second[key] by {
        assert(second.contains_key(key));
    }
}

/// Two tables that the same bytes store search alike: a table that was
/// stored and read back finds for every point what the first one finds.
pub proof fn lemma_stored_table_finds_alike(
    first: &TruncatedBabyStepGiantStepKTable,
    second: &TruncatedBabyStepGiantStepKTable,
    bytes: Seq<u8>,
    y: nat,
)
    requires
        first.wf(),
        second.wf(),
        first.stored_in(bytes),
        second.stored_in(bytes),
    ensures
        second.found(y) == first.found(y),
        second.genuine() == first.genuine(),
        second.max_num_bits == first.max_num_bits,
{
    lemma_index_is_unique(first.baby_steps@, second.baby_steps@, first.truncated_keys@);
    assert forall|i: nat| first.hits(y, i) == second.hits(y, i) by {}
}

/// A logarithm that the search gives is the point's own, on any table.
pub proof fn lemma_found_is_exact(table: &TruncatedBabyStepGiantStepKTable, y: nat)
    requires
        table.wf(),
        y < group_order(),
    ensures
        table.found(y) matches Ok(x) ==> x == y,
{
    lemma_baby_steps_cover(table.max_num_bits);
    if y != 0 && table.found(y) is Ok {
        let i = choose|i: nat| i < table.m && #[trigger] table.hits(y, i);
        let j = after_giant_steps(y, giant_step_log(table.m as nat), i);
        lemma_giant_steps_down(y, table.m as nat, i);
        lemma_steps_stay_below_square(i as int, j as int, table.m as int);
    }
}

/// On a generated table, the search in giant steps finds the logarithm of
/// every point whose logarithm is below the square of the number of baby
/// steps, and finds nothing for every other point, whatever the batch size.
pub proof fn lemma_genuine_table_finds(table: &TruncatedBabyStepGiantStepKTable, y: nat)
    requires
        table.wf(),
        table.genuine(),
        y < group_order(),
    ensures
        y < table.m * table.m ==> table.found(y) == Ok::<u64, SolveError>(
            #[verifier::truncate] (y as u64),
        ),
        y >= table.m * table.m ==> table.found(y) == Err::<u64, SolveError>(
            SolveError::OutOfRange,
        ),
{
    let m = table.m as nat;
    lemma_baby_steps_cover(table.max_num_bits);
    if y < m * m {
        if y != 0 {
            let i = y / m;
            lemma_quotient_is_a_step(y, m);
            lemma_giant_steps_down(y, m, i);
            let j = after_giant_steps(y, giant_step_log(m), i);
            let key = table.truncated_keys@[j as int];
            assert(key == truncated_baby_step(j));
            assert(table.baby_steps@.contains_key(key));
            assert(table.truncated_keys@[table.baby_steps@[key] as int] == key);
            assert(table.baby_steps@[key] == j);
            assert(table.hits(y, i));
        }
    } else {
        assert forall|i: nat| i < m implies !#[trigger] table.hits(y, i) by {
            if table.hits(y, i) {
                let j = after_giant_steps(y, giant_step_log(m), i);
                lemma_giant_steps_down(y, m, i);
                lemma_steps_stay_below_square(i as int, j as int, m as int);
            }
        }
    }
}

/// On a generated table, solving gives the logarithm of every point whose
/// logarithm has at most `max_num_bits` bits, and reports every other point
/// as out of range.
pub proof fn lemma_genuine_table_solves(table: &TruncatedBabyStepGiantStepKTable, y: nat)
    requires
        table.wf(),
        table.genuine(),
        y < group_order(),
    ensures
        y < pow2(table.max_num_bits as nat) ==> table.solution(y) == Ok::<u64, SolveError>(
            #[verifier::truncate] (y as u64),
        ),
        y >= pow2(table.max_num_bits as nat) ==> table.solution(y) == Err::<u64, SolveError>(
            SolveError::OutOfRange,
        ),
        table.solution(y) is Err <==> y >= pow2(table.max_num_bits as nat),
{
    lemma_baby_steps_cover(table.max_num_bits);
    lemma_genuine_table_finds(table, y);
}

/// A logarithm that solving gives is the point's own and has at most
/// `max_num_bits` bits, on any table.
pub proof fn lemma_solution_is_exact(table: &TruncatedBabyStepGiantStepKTable, y: nat)
    requires
        table.wf(),
        y < group_order(),
    ensures
        table.solution(y) matches Ok(x) ==> x == y && y < pow2(table.max_num_bits as nat),
{
    lemma_found_is_exact(table, y);
}

/// Two tables that the same bytes store solve alike: a table that was
/// stored and read back gives on every point what the first one gives.
pub proof fn lemma_stored_table_solves_alike(
    first: &TruncatedBabyStepGiantStepKTable,
    second: &TruncatedBabyStepGiantStepKTable,
    bytes: Seq<u8>,
    y: nat,
)
    requires
        first.wf(),
        second.wf(),
        first.stored_in(bytes),
        second.stored_in(bytes),
    ensures
        second.solution(y) == first.solution(y),
        second.genuine() == first.genuine(),
        second.max_num_bits == first.max_num_bits,
{
    lemma_stored_table_finds_alike(first, second, bytes, y);
}

} // verus!
