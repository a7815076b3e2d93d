//! Baby-step giant-step with batched compression.
//!
//! Compressing a point is the costly part of a giant step, and the doubles
//! of a batch of points can be compressed together at less than the cost of
//! compressing each. So the table holds the encodings of the doubled baby
//! steps `2 * (j * G)`, and the solver takes its giant steps a batch at a
//! time and looks up the encodings of the doubles of the points reached.

pub mod precomputed_tables;

use crate::baby_steps::after_giant_steps;
use crate::baby_steps::baby_step_count;
use crate::baby_steps::baby_steps_for;
use crate::baby_steps::doubled;
use crate::baby_steps::generator_multiples;
use crate::baby_steps::giant_step_for;
use crate::baby_steps::giant_step_log;
use crate::baby_steps::is_dlog;
use crate::baby_steps::lemma_baby_steps_cover;
use crate::baby_steps::lemma_doubled_injective;
use crate::baby_steps::lemma_giant_steps_down;
use crate::baby_steps::lemma_one_more_giant_step;
use crate::baby_steps::lemma_quotient_is_a_step;
use crate::baby_steps::lemma_steps_stay_below_square;
use crate::baby_steps::range_of;
use crate::bsgs_k::precomputed_tables::PrecomputedTables;
use crate::error::SolveError;
use crate::error::TableError;
use crate::group::double_and_compress_batch;
use crate::group::encodes;
use crate::group::group_order;
use crate::group::point_add;
use crate::group::point_eq;
use crate::group::point_identity;
use crate::group::point_log;
use crate::group::ristretto_encoding;
use crate::point_index::is_last_position;
use crate::point_index::PointIndex;
use crate::shared::share;
use crate::table_format::decodable;
use crate::table_format::decode_table;
use crate::table_format::encode_table;
use crate::table_format::lemma_encoding_decodes;
use crate::table_format::stored_bits;
use crate::table_format::stored_count;
use crate::table_format::stored_giant;
use crate::table_format::stored_points;
use crate::table_format::table_encoding;
use crate::traits::DiscreteLogSolver;
use curve25519_dalek::ristretto::RistrettoPoint;
use std::sync::Arc;
use vstd::arithmetic::power2::pow2;
use vstd::prelude::*;

verus! {

/// The table of the batched baby-step giant-step solver.
pub struct BabyStepGiantStepKTable {
    /// The number of bits of the logarithms to look for.
    pub max_num_bits: u8,
    /// The number of baby steps.
    pub m: u64,
    /// The encodings of the doubled baby steps: at position `j` that of
    /// `2 * (j * G)`.
    pub baby_steps: PointIndex,
    /// The giant step, `-m * G`.
    pub giant_step: RistrettoPoint,
}

/// The batched baby-step giant-step solver, which takes `K` giant steps at a
/// time. Its table can be shared.
pub struct BabyStepGiantStepK<const K: usize> {
    pub table: Arc<BabyStepGiantStepKTable>,
}

/// The number of giant steps in the batch that starts after `done` of `m`
/// steps, for the batch size `k`: `k` of them, or the rest. A batch size of
/// zero counts as one.
pub open spec fn batch_len(k: usize, m: u64, done: u64) -> nat {
    if k == 0 {
        1
    } else if k < m - done {
        k as nat
    } else {
        (m - done) as nat
    }
}

/// The number of giant steps to take at once after `done` of `m` steps.
pub fn next_batch_len(k: usize, m: u64, done: u64) -> (b: usize)
    requires
        done < m <= 65536,
    ensures
        b == batch_len(k, m, done),
        1 <= b <= m - done,
{
    let remaining: u64 = m - done;
    if k == 0 {
        1
    } else if k < remaining as usize {
        k
    } else {
        remaining as usize
    }
}

impl BabyStepGiantStepKTable {
    /// The table has the shape of one for its number of bits: `m` baby
    /// steps, `m` being the count that belongs to the number of bits.
    pub open spec fn wf(&self) -> bool {
        &&& self.baby_steps.wf()
        &&& 1 <= self.max_num_bits <= 32
        &&& self.m == baby_step_count(self.max_num_bits)
        &&& self.baby_steps@.len() == self.m
    }

    /// The table holds what `generate` computes: position `j` holds the
    /// encoding of `2 * (j * G)`, never that of `j * G` itself, and the
    /// giant step is `-m * G`.
    pub open spec fn genuine(&self) -> bool {
        &&& forall|j: int|
            0 <= j < self.m ==> encodes(#[trigger] self.baby_steps@[j], doubled(j as nat))
        &&& point_log(self.giant_step) == giant_step_log(self.m as nat)
    }

    /// After `i` giant steps from `y * G` the table holds the double of the
    /// point reached, at the position that makes up `y` with `i`.
    pub open spec fn hits(&self, y: nat, i: nat) -> bool {
        exists|j: int|
            is_last_position(
                self.baby_steps@,
                ristretto_encoding(doubled(after_giant_steps(y, point_log(self.giant_step), i))),
                j,
            ) && i * self.m + j == y
    }

    /// What the search in giant steps gives for the point `y * G`: `y` where
    /// it is zero or the table is hit within `m` giant steps, else nothing.
    /// The batch size has no part in it.
    pub open spec fn found(&self, y: nat) -> Result<u64, SolveError> {
        if y == 0 || exists|i: nat| i < self.m && #[trigger] self.hits(y, i) {
            Ok(#[verifier::truncate] (y as u64))
        } else {
            Err(SolveError::OutOfRange)
        }
    }

    /// What solving gives for the point `y * G`: what the search gives where
    /// `y` has at most `max_num_bits` bits, else that `y` is out of range.
    pub open spec fn solution(&self, y: nat) -> Result<u64, SolveError> {
        if y < pow2(self.max_num_bits as nat) {
            self.found(y)
        } else {
            Err(SolveError::OutOfRange)
        }
    }

    /// The bytes that store the table.
    pub open spec fn serialization(&self) -> Seq<u8> {
        table_encoding(
            self.max_num_bits,
            self.m,
            self.baby_steps@,
            ristretto_encoding(point_log(self.giant_step)),
        )
    }

    /// `bytes` store a table, and this table holds what they store.
    pub open spec fn stored_in(&self, bytes: Seq<u8>) -> bool {
        &&& decodable(bytes)
        &&& self.max_num_bits == stored_bits(bytes)
        &&& self.m == stored_count(bytes)
        &&& self.baby_steps@ == stored_points(bytes)
        &&& encodes(stored_giant(bytes), point_log(self.giant_step))
    }

    /// Generates the table for logarithms of `max_num_bits` bits: the baby
    /// steps `j * G` for `j` below `m`, each from the one before by one
    /// addition, doubled and compressed in one batch, and the giant step
    /// `-m * G`.
    pub fn generate(max_num_bits: u8) -> (r: BabyStepGiantStepKTable)
        requires
            1 <= max_num_bits <= 32,
        ensures
            r.wf(),
            r.genuine(),
            r.max_num_bits == max_num_bits,
    {
        let m: u64 = baby_steps_for(max_num_bits);
        let points = generator_multiples(m as usize);
        let doubled_compressed = double_and_compress_batch(&points);
        let mut baby_steps = PointIndex::new();
        let mut j: usize = 0;
        while j < doubled_compressed.len()
            invariant
                j <= doubled_compressed@.len(),
                doubled_compressed@.len() == m,
                m <= 65536,
                points@.len() == m,
                baby_steps.wf(),
                baby_steps@.len() == j,
                forall|k: int| 0 <= k < m ==> point_log(#[trigger] points@[k]) == k,
                forall|k: int|
                    0 <= k < m ==> encodes(
                        #[trigger] doubled_compressed@[k]@,
                        (2 * point_log(points@[k])) % group_order(),
                    ),
                forall|k: int| 0 <= k < j ==> encodes(#[trigger] baby_steps@[k], doubled(k as nat)),
            decreases doubled_compressed@.len() - j,
        {
            assert(point_log(points@[j as int]) == j);
            baby_steps.push(doubled_compressed[j]);
            j += 1;
        }
        let giant_step = giant_step_for(m);
        BabyStepGiantStepKTable { max_num_bits, m, baby_steps, giant_step }
    }

    /// Stores the table as bytes: the baby steps in order, so that their
    /// values need no storing. `from_bytes` reads the table back.
    pub fn to_bytes(&self) -> (r: Vec<u8>)
        requires
            self.wf(),
        ensures
            r@ == self.serialization(),
            self.stored_in(r@),
    {
        proof {
            lemma_baby_steps_cover(self.max_num_bits);
            self.baby_steps.lemma_entries_are_32_bytes();
        }
        let out = encode_table(self.max_num_bits, self.m, &self.baby_steps, &self.giant_step);
        proof {
            lemma_encoding_decodes(self.max_num_bits, self.baby_steps@, point_log(self.giant_step));
        }
        out
    }

    /// Reads a table from the bytes that store it. The bytes are corrupt
    /// where they have not the layout of a table, where the number of bits
    /// is not from 1 to 32, where the number of baby steps is not the one
    /// that belongs to it, or where the giant step encodes no group element.
    pub fn from_bytes(bytes: &[u8]) -> (r: Result<BabyStepGiantStepKTable, TableError>)
        ensures
            r is Ok <==> decodable(bytes@),
            r matches Ok(table) ==> table.wf() && table.stored_in(bytes@),
            r matches Err(e) ==> e == TableError::CorruptTable,
    {
        match decode_table(bytes) {
            Some((max_num_bits, m, baby_steps, giant_step)) => Ok(
                BabyStepGiantStepKTable { max_num_bits, m, baby_steps, giant_step },
            ),
            None => Err(TableError::CorruptTable),
        }
    }

    /// Solves `pk = x * G` for `x`, taking `k` giant steps at a time: the
    /// points of a batch are collected, doubled and compressed together, and
    /// looked up one by one. A position found in the table counts only if
    /// the logarithm it gives is that of `pk`. The neutral element may stand
    /// in a batch like any other point.
    pub fn solve_dlp(&self, pk: &RistrettoPoint, k: usize) -> (r: Result<u64, SolveError>)
        requires
            self.wf(),
        ensures
            r == self.solution(point_log(*pk)),
    {
        let limit: u64 = range_of(self.max_num_bits);
        let identity = point_identity();
        if point_eq(pk, &identity) {
            return Ok(0);
        }
        let ghost y = point_log(*pk);
        let ghost giant = point_log(self.giant_step);
        let m: u64 = self.m;
        proof {
            lemma_baby_steps_cover(self.max_num_bits);
        }
        let mut gamma: RistrettoPoint = *pk;
        let mut batch_start: u64 = 0;
        while batch_start < m
            invariant
                self.wf(),
                m == self.m,
                limit == pow2(self.max_num_bits as nat),
                m <= 65536,
                batch_start <= m,
                y == point_log(*pk),
                y != 0,
                giant == point_log(self.giant_step),
                point_log(gamma) == after_giant_steps(y, giant, batch_start as nat),
                forall|i: nat| i < batch_start ==> !#[trigger] self.hits(y, i),
            decreases m - batch_start,
        {
            let batch_size: usize = next_batch_len(k, m, batch_start);
            let mut batch_points: Vec<RistrettoPoint> = Vec::with_capacity(batch_size);
            let mut current_gamma: RistrettoPoint = gamma;
            let mut t: usize = 0;
            while t < batch_size
                invariant
                    t <= batch_size,
                    batch_start + batch_size <= m <= 65536,
                    batch_points@.len() == t,
                    giant == point_log(self.giant_step),
                    point_log(current_gamma) == after_giant_steps(
                        y,
                        giant,
                        (batch_start + t) as nat,
                    ),
                    forall|u: int|
                        0 <= u < t ==> point_log(#[trigger] batch_points@[u]) == after_giant_steps(
                            y,
                            giant,
                            (batch_start + u) as nat,
                        ),
                decreases batch_size - t,
            {
                batch_points.push(current_gamma);
                proof {
                    lemma_one_more_giant_step(y, giant, (batch_start + t) as nat);
                }
                current_gamma = point_add(&current_gamma, &self.giant_step);
                t += 1;
            }
            let compressed_batch = double_and_compress_batch(&batch_points);
            let mut t: usize = 0;
            while t < batch_size
                invariant
                    self.wf(),
                    m == self.m,
                    limit == pow2(self.max_num_bits as nat),
                    t <= batch_size,
                    batch_start + batch_size <= m <= 65536,
                    y == point_log(*pk),
                    giant == point_log(self.giant_step),
                    compressed_batch@.len() == batch_size,
                    batch_points@.len() == batch_size,
                    forall|u: int|
                        0 <= u < batch_size ==> point_log(#[trigger] batch_points@[u])
                            == after_giant_steps(y, giant, (batch_start + u) as nat),
                    forall|u: int|
                        0 <= u < batch_size ==> encodes(
                            #[trigger] compressed_batch@[u]@,
                            (2 * point_log(batch_points@[u])) % group_order(),
                        ),
                    forall|i: nat| i < batch_start + t ==> !#[trigger] self.hits(y, i),
                decreases batch_size - t,
            {
                let ghost i = (batch_start + t) as nat;
                assert(point_log(batch_points@[t as int]) == after_giant_steps(y, giant, i));
                assert(compressed_batch@[t as int]@ == ristretto_encoding(
                    doubled(after_giant_steps(y, giant, i)),
                ));
                match self.baby_steps.find(&compressed_batch[t]) {
                    Some(j) => {
                        proof {
                            lemma_steps_stay_below_square(i as int, j as int, m as int);
                        }
                        let x: u64 = (batch_start + t as u64) * m + (j as u64);
                        if is_dlog(x, pk) {
                            assert(self.hits(y, i));
                            return if x < limit {
                            Ok(x)
                        } else {
                            Err(SolveError::OutOfRange)
                        };
                        }
                    },
                    None => {},
                }
                assert(!self.hits(y, i));
                t += 1;
            }
            gamma = current_gamma;
            batch_start += batch_size as u64;
        }
        Err(SolveError::OutOfRange)
    }
}

/// The name of the batched solver for a batch size: the batch size is part
/// of it where it is a power of two up to 16384.
pub open spec fn batched_name_of(k: usize) -> Seq<char> {
    match k {
        1 => "BSGS-k1"@,
        2 => "BSGS-k2"@,
        4 => "BSGS-k4"@,
        8 => "BSGS-k8"@,
        16 => "BSGS-k16"@,
        32 => "BSGS-k32"@,
        64 => "BSGS-k64"@,
        128 => "BSGS-k128"@,
        256 => "BSGS-k256"@,
        512 => "BSGS-k512"@,
        1024 => "BSGS-k1024"@,
        2048 => "BSGS-k2048"@,
        4096 => "BSGS-k4096"@,
        8192 => "BSGS-k8192"@,
        16384 => "BSGS-k16384"@,
        _ => "BSGS-k?"@,
    }
}

/// The name of the batched solver for a batch size.
pub fn batched_name(k: usize) -> (name: &'static str)
    ensures
        name@ == batched_name_of(k),
{
    match k {
        1 => "BSGS-k1",
        2 => "BSGS-k2",
        4 => "BSGS-k4",
        8 => "BSGS-k8",
        16 => "BSGS-k16",
        32 => "BSGS-k32",
        64 => "BSGS-k64",
        128 => "BSGS-k128",
        256 => "BSGS-k256",
        512 => "BSGS-k512",
        1024 => "BSGS-k1024",
        2048 => "BSGS-k2048",
        4096 => "BSGS-k4096",
        8192 => "BSGS-k8192",
        16384 => "BSGS-k16384",
        _ => "BSGS-k?",
    }
}

impl<const K: usize> BabyStepGiantStepK<K> {
    /// Makes a solver of a table that was made ahead of time, from the
    /// bytes that store it. The bytes are corrupt where they store no table,
    /// or one for another number of bits than `table` stands for.
    pub fn from_precomputed_table(table: PrecomputedTables, bytes: &[u8]) -> (r: Result<
        BabyStepGiantStepK<K>,
        TableError,
    >)
        ensures
            r is Ok <==> decodable(bytes@) && stored_bits(bytes@) == 32,
            r matches Ok(solver) ==> solver.table.wf() && solver.table.stored_in(bytes@),
            r matches Err(e) ==> e == TableError::CorruptTable,
    {
        match BabyStepGiantStepKTable::from_bytes(bytes) {
            Ok(loaded) => {
                if loaded.max_num_bits == table.max_num_bits() {
                    Ok(BabyStepGiantStepK { table: Arc::new(loaded) })
                } else {
                    Err(TableError::CorruptTable)
                }
            },
            Err(e) => Err(e),
        }
    }

    /// Returns one more pointer to the solver's table, for another solver to
    /// share it.
    pub fn table(&self) -> (r: Arc<BabyStepGiantStepKTable>)
        ensures
            r == self.table,
    {
        share(&self.table)
    }

    /// Solves `pk = x * G` for `x`, taking `K` giant steps at a time.
    pub fn solve(&self, pk: &RistrettoPoint) -> (r: Result<u64, SolveError>)
        requires
            self.table.wf(),
        ensures
            r == self.table.solution(point_log(*pk)),
    {
        self.table.solve_dlp(pk, K)
    }
}

impl<const K: usize> DiscreteLogSolver for BabyStepGiantStepK<K> {
    open spec fn wf(&self) -> bool {
        self.table.wf()
    }

    open spec fn genuine(&self) -> bool {
        self.table.genuine()
    }

    open spec fn bits(&self) -> u8 {
        self.table.max_num_bits
    }

    open spec fn accepts(max_num_bits: u8) -> bool {
        1 <= max_num_bits <= 32
    }

    open spec fn deterministic() -> bool {
        true
    }

    open spec fn answer(&self, y: nat) -> Result<u64, SolveError> {
        self.table.solution(y)
    }

    fn algorithm_name() -> (name: &'static str)
        ensures
            name@ == batched_name_of(K),
    {
        batched_name(K)
    }

    fn new_and_compute_table(max_num_bits: u8) -> (r: Result<Self, TableError>)
        ensures
            r is Ok,
    {
        let table = BabyStepGiantStepKTable::generate(max_num_bits);
        Ok(BabyStepGiantStepK { table: Arc::new(table) })
    }

    fn load_table(bytes: &[u8]) -> (r: Result<Self, TableError>)
        ensures
            r is Ok <==> decodable(bytes@),
            r matches Ok(solver) ==> solver.table.stored_in(bytes@),
    {
        match BabyStepGiantStepKTable::from_bytes(bytes) {
            Ok(table) => Ok(BabyStepGiantStepK { table: Arc::new(table) }),
            Err(e) => Err(e),
        }
    }

    fn solve(&self, pk: &RistrettoPoint) -> (r: Result<u64, SolveError>)
        ensures
            r == self.table.solution(point_log(*pk)),
    {
        proof {
            let y = point_log(*pk);
            lemma_baby_steps_cover(self.table.max_num_bits);
            lemma_solution_is_exact(&*self.table, y);
            if self.table.genuine() {
                lemma_genuine_table_solves(&*self.table, y);
            }
        }
        self.table.solve_dlp(pk, K)
    }

    fn max_num_bits(&self) -> (r: u8) {
        self.table.max_num_bits
    }
}

/// Two tables that the same bytes store search alike: a table that was
/// stored and read back finds for every point what the first one finds.
pub proof fn lemma_stored_table_finds_alike(
    first: &BabyStepGiantStepKTable,
    second: &BabyStepGiantStepKTable,
    bytes: Seq<u8>,
    y: nat,
)
    requires
        first.stored_in(bytes),
        second.stored_in(bytes),
    ensures
        second.found(y) == first.found(y),
        second.genuine() == first.genuine(),
        second.max_num_bits == first.max_num_bits,
{
    assert(point_log(first.giant_step) == point_log(second.giant_step));
    assert forall|i: nat| first.hits(y, i) == second.hits(y, i) by {
        let key = ristretto_encoding(
            doubled(after_giant_steps(y, point_log(first.giant_step), i)),
        );
        if first.hits(y, i) {
            let j = choose|j: int|
                is_last_position(first.baby_steps@, key, j) && i * first.m + j == y;
            assert(is_last_position(second.baby_steps@, key, j) && i * second.m + j == y);
        }
        if second.hits(y, i) {
            let j = choose|j: int|
                is_last_position(second.baby_steps@, key, j) && i * second.m + j == y;
            assert(is_last_position(first.baby_steps@, key, j) && i * first.m + j == y);
        }
    }
}

/// A logarithm that the search gives is the point's own, on any table.
pub proof fn lemma_found_is_exact(table: &BabyStepGiantStepKTable, y: nat)
    requires
        table.wf(),
    ensures
        table.found(y) matches Ok(x) ==> x == y,
{
    lemma_baby_steps_cover(table.max_num_bits);
    if y != 0 && table.found(y) is Ok {
        let i = choose|i: nat| i < table.m && #[trigger] table.hits(y, i);
        let j = choose|j: int|
            is_last_position(
                table.baby_steps@,
                ristretto_encoding(
                    doubled(after_giant_steps(y, point_log(table.giant_step), i)),
                ),
                j,
            ) && i * table.m + j == y;
        lemma_steps_stay_below_square(i as int, j as int, table.m as int);
    }
}

/// On a generated table, the search in giant steps finds the logarithm of
/// every point whose logarithm is below the square of the number of baby
/// steps, and finds nothing for every other point, whatever the batch size and whether
/// or not the walk passes the neutral element.
pub proof fn lemma_genuine_table_finds(table: &BabyStepGiantStepKTable, y: nat)
    requires
        table.wf(),
        table.genuine(),
        y < group_order(),
    ensures
        y < table.m * table.m ==> table.found(y) == Ok::<u64, SolveError>(
            #[verifier::truncate] (y as u64),
        ),
        y >= table.m * table.m ==> table.found(y) == Err::<u64, SolveError>(
            SolveError::OutOfRange,
        ),
{
    let m = table.m as nat;
    lemma_baby_steps_cover(table.max_num_bits);
    if y < m * m {
        if y != 0 {
            let i = y / m;
            lemma_quotient_is_a_step(y, m);
            lemma_giant_steps_down(y, m, i);
            let j = after_giant_steps(y, giant_step_log(m), i);
            assert(encodes(table.baby_steps@[j as int], doubled(j)));
            assert(is_last_position(table.baby_steps@, ristretto_encoding(doubled(j)), j as int))
                by {
                assert forall|k: int| j < k < table.baby_steps@.len() implies table.baby_steps@[k]
                    != ristretto_encoding(doubled(j)) by {
                    assert(encodes(table.baby_steps@[k], doubled(k as nat)));
                    if table.baby_steps@[k] == ristretto_encoding(doubled(j)) {
                        lemma_doubled_injective(j, k as nat);
                    }
                }
            }
            assert(table.hits(y, i));
        }
    } else {
        assert forall|i: nat| i < m implies !#[trigger] table.hits(y, i) by {
            if table.hits(y, i) {
                let j = choose|j: int|
                    is_last_position(
                        table.baby_steps@,
                        ristretto_encoding(
                            doubled(after_giant_steps(y, point_log(table.giant_step), i)),
                        ),
                        j,
                    ) && i * table.m + j == y;
                lemma_steps_stay_below_square(i as int, j, m as int);
            }
        }
    }
}

/// On a generated table, solving gives the logarithm of every point whose
/// logarithm has at most `max_num_bits` bits, and reports every other point
/// as out of range.
pub proof fn lemma_genuine_table_solves(table: &BabyStepGiantStepKTable, y: nat)
    requires
        table.wf(),
        table.genuine(),
        y < group_order(),
    ensures
        y < pow2(table.max_num_bits as nat) ==> table.solution(y) == Ok::<u64, SolveError>(
            #[verifier::truncate] (y as u64),
        ),
        y >= pow2(table.max_num_bits as nat) ==> table.solution(y) == Err::<u64, SolveError>(
            SolveError::OutOfRange,
        ),
        table.solution(y) is Err <==> y >= pow2(table.max_num_bits as nat),
{
    lemma_baby_steps_cover(table.max_num_bits);
    lemma_genuine_table_finds(table, y);
}

/// A logarithm that solving gives is the point's own and has at most
/// `max_num_bits` bits, on any table.
pub proof fn lemma_solution_is_exact(table: &BabyStepGiantStepKTable, y: nat)
    requires
        table.wf(),
    ensures
        table.solution(y) matches Ok(x) ==> x == y && y < pow2(table.max_num_bits as nat),
{
    lemma_found_is_exact(table, y);
}

/// Two tables that the same bytes store solve alike: a table that was
/// stored and read back gives on every point what the first one gives.
pub proof fn lemma_stored_table_solves_alike(
    first: &BabyStepGiantStepKTable,
    second: &BabyStepGiantStepKTable,
    bytes: Seq<u8>,
    y: nat,
)
    requires
        first.wf(),
        second.wf(),
        first.stored_in(bytes),
        second.stored_in(bytes),
    ensures
        second.solution(y) == first.solution(y),
        second.genuine() == first.genuine(),
        second.max_num_bits == first.max_num_bits,
{
    lemma_stored_table_finds_alike(first, second, bytes, y);
}

} // verus!
