//! The naive truncated doubled lookup: a solver with no table of its own,
//! which reads the table of a truncated baby-step giant-step solver.
//!
//! That table holds the truncated keys of `2 * (j * G)` for `j` below `m`.
//! For a point `Y`, the truncated key of `Y + Y` is looked up; since two
//! points may share a key, the value `j` found counts only if `j * G` is
//! `Y`.

use crate::baby_steps::baby_step_count;
use crate::baby_steps::lemma_baby_steps_cover;
use crate::baby_steps::range_of;
use crate::error::SolveError;
use crate::error::TableError;
use crate::group::point_add;
use crate::group::point_compress;
use crate::group::point_eq;
use crate::group::point_log;
use crate::group::point_mul_base;
use crate::point_index::truncate_key;
use crate::tbsgs_k::decodable;
use crate::tbsgs_k::precomputed_tables::PrecomputedTables;
use crate::tbsgs_k::truncated_baby_step;
use crate::tbsgs_k::TruncatedBabyStepGiantStepK;
use crate::tbsgs_k::TruncatedBabyStepGiantStepKTable;
use crate::traits::DiscreteLogSolver;
use crate::utils::u64_to_scalar;
use curve25519_dalek::ristretto::RistrettoPoint;
use std::sync::Arc;
use vstd::arithmetic::power2::lemma_pow2_strictly_increases;
use vstd::arithmetic::power2::pow2;
use vstd::prelude::*;

verus! {

broadcast use vstd::std_specs::hash::group_hash_axioms;

/// The naive truncated doubled lookup solver. It shares the table of a
/// truncated baby-step giant-step solver and holds no copy of it.
pub struct NaiveTruncatedDoubledLookup {
    pub table: Arc<TruncatedBabyStepGiantStepKTable>,
}

impl NaiveTruncatedDoubledLookup {
    /// The number of logarithms that the solver covers: 2 to the power of
    /// half the number of bits of its table.
    pub open spec fn range(&self) -> nat {
        pow2((self.table.max_num_bits / 2) as nat)
    }

    /// What solving gives for the point `y * G`: `y` where it is within the
    /// solver's range and the table holds it under the truncated key of the
    /// point's double, else that the point is out of range.
    pub open spec fn solution(&self, y: nat) -> Result<u64, SolveError> {
        let key = truncated_baby_step(y);
        if y < self.range() && self.table.baby_steps@.contains_key(key)
            && self.table.baby_steps@[key] == y {
            Ok(#[verifier::truncate] (y as u64))
        } else {
            Err(SolveError::OutOfRange)
        }
    }

    /// Makes a solver that shares the table of a truncated baby-step
    /// giant-step solver.
    pub fn from_tbsgs_k<const K: usize>(tbsgs_k: &TruncatedBabyStepGiantStepK<K>) -> (r:
        NaiveTruncatedDoubledLookup)
        ensures
            r.table == tbsgs_k.table,
    {
        NaiveTruncatedDoubledLookup { table: tbsgs_k.table() }
    }

    /// Makes a solver of a truncated baby-step giant-step table that was
    /// made ahead of time, from the bytes that store it. The bytes are
    /// corrupt where they store no table, or one for another number of bits
    /// than `table` stands for.
    pub fn from_precomputed_table(table: PrecomputedTables, bytes: &[u8]) -> (r: Result<
        NaiveTruncatedDoubledLookup,
        TableError,
    >)
        ensures
            r is Ok <==> decodable(bytes@) && bytes@[0] == 32,
            r matches Ok(solver) ==> solver.table.wf() && solver.table.stored_in(bytes@),
            r matches Err(e) ==> e == TableError::CorruptTable,
    {
        match TruncatedBabyStepGiantStepKTable::from_bytes(bytes) {
            Ok(loaded) => {
                if loaded.max_num_bits == table.max_num_bits() {
                    Ok(NaiveTruncatedDoubledLookup { table: Arc::new(loaded) })
                } else {
                    Err(TableError::CorruptTable)
                }
            },
            Err(e) => Err(e),
        }
    }

    /// Returns the number of bits of the logarithms that the solver covers:
    /// half the number of bits of its table.
    pub fn max_num_bits(&self) -> (r: u8)
        ensures
            r == self.table.max_num_bits / 2,
    {
        self.table.max_num_bits / 2
    }

    /// Solves `y = x * G` for `x` by one doubling, one compression, one
    /// lookup and one comparison with the point that the value found stands
    /// for. A value beyond the solver's range counts as out of range.
    pub fn solve(&self, y: &RistrettoPoint) -> (r: Result<u64, SolveError>)
        requires
            self.table.wf(),
        ensures
            r == self.solution(point_log(*y)),
    {
        let limit: u64 = range_of(self.table.max_num_bits / 2);
        let doubled_point = point_add(y, y);
        let compressed = point_compress(&doubled_point);
        let key: u64 = truncate_key(&compressed);
        match self.table.baby_steps.get(&key) {
            Some(found) => {
                let j: u64 = *found as u64;
                if j < limit {
                    let expected_point = point_mul_base(&u64_to_scalar(j));
                    if point_eq(y, &expected_point) {
                        return Ok(j);
                    }
                }
            },
            None => {},
        }
        Err(SolveError::OutOfRange)
    }
}

impl DiscreteLogSolver for NaiveTruncatedDoubledLookup {
    open spec fn wf(&self) -> bool {
        self.table.wf()
    }

    open spec fn genuine(&self) -> bool {
        self.table.genuine()
    }

    open spec fn bits(&self) -> u8 {
        (self.table.max_num_bits / 2) as u8
    }

    open spec fn accepts(max_num_bits: u8) -> bool {
        1 <= max_num_bits <= 16
    }

    open spec fn deterministic() -> bool {
        true
    }

    open spec fn answer(&self, y: nat) -> Result<u64, SolveError> {
        self.solution(y)
    }

    fn algorithm_name() -> (name: &'static str)
        ensures
            name@ == "NaiveTruncatedDoubledLookup"@,
    {
        "NaiveTruncatedDoubledLookup"
    }

    /// Computes a truncated baby-step giant-step table for twice the number
    /// of bits, which has 2^max_num_bits baby steps. No solver is made
    /// where two of the baby steps share their truncated key.
    fn new_and_compute_table(max_num_bits: u8) -> (r: Result<Self, TableError>)
        ensures
            r is Err <==> exists|a: nat, b: nat|
                a < b < baby_step_count((max_num_bits * 2) as u8) && #[trigger] truncated_baby_step(
                    a,
                ) == #[trigger] truncated_baby_step(b),
            r matches Err(e) ==> e == TableError::TruncatedKeyCollision,
    {
        match TruncatedBabyStepGiantStepKTable::generate(max_num_bits * 2) {
            Ok(table) => Ok(NaiveTruncatedDoubledLookup { table: Arc::new(table) }),
            Err(e) => Err(e),
        }
    }

    /// Reads the truncated baby-step giant-step table that the bytes store.
    fn load_table(bytes: &[u8]) -> (r: Result<Self, TableError>)
        ensures
            r is Ok <==> decodable(bytes@),
            r matches Ok(solver) ==> solver.table.stored_in(bytes@),
    {
        match TruncatedBabyStepGiantStepKTable::from_bytes(bytes) {
            Ok(table) => Ok(NaiveTruncatedDoubledLookup { table: Arc::new(table) }),
            Err(e) => Err(e),
        }
    }

    fn solve(&self, y: &RistrettoPoint) -> (r: Result<u64, SolveError>)
        ensures
            r == self.solution(point_log(*y)),
    {
        proof {
            if self.table.genuine() {
                lemma_genuine_table_solves(self, point_log(*y));
            }
        }
        NaiveTruncatedDoubledLookup::solve(self, y)
    }

    fn max_num_bits(&self) -> (r: u8) {
        NaiveTruncatedDoubledLookup::max_num_bits(self)
    }
}

/// On a generated table, solving gives the logarithm of every point whose
/// logarithm is within the solver's range, and reports every other point as
/// out of range.
pub proof fn lemma_genuine_table_solves(solver: &NaiveTruncatedDoubledLookup, y: nat)
    requires
        solver.table.wf(),
        solver.table.genuine(),
    ensures
        y < solver.range() ==> solver.solution(y) == Ok::<u64, SolveError>(
            #[verifier::truncate] (y as u64),
        ),
        y >= solver.range() ==> solver.solution(y) == Err::<u64, SolveError>(
            SolveError::OutOfRange,
        ),
        solver.range() >= 1,
{
    lemma_baby_steps_cover(solver.table.max_num_bits);
    let half = (solver.table.max_num_bits / 2) as nat;
    let up = ((solver.table.max_num_bits + 1) / 2) as nat;
    vstd::arithmetic::power2::lemma_pow2_pos(half);
    if half < up {
        lemma_pow2_strictly_increases(half, up);
    }
    if y < solver.range() {
        let key = solver.table.truncated_keys@[y as int];
        assert(key == truncated_baby_step(y));
        assert(solver.table.baby_steps@.contains_key(key));
        assert(solver.table.truncated_keys@[solver.table.baby_steps@[key] as int] == key);
    }
}

} // verus!
