//! The naive doubled lookup: a solver with no table of its own, which reads
//! the table of a batched baby-step giant-step solver.
//!
//! That table holds the encodings of `2 * (j * G)` for `j` below `m`. So for
//! a point `Y = x * G` with `x` below `m`, the encoding of `Y + Y` stands in
//! the table at position `x`: one doubling, one compression and one search
//! solve for logarithms of half as many bits as the table was made for.

use crate::baby_steps::doubled;
use crate::baby_steps::lemma_baby_steps_cover;
use crate::baby_steps::lemma_doubled_injective;
use crate::baby_steps::range_of;
use crate::bsgs_k::precomputed_tables::PrecomputedTables;
use crate::bsgs_k::BabyStepGiantStepK;
use crate::bsgs_k::BabyStepGiantStepKTable;
use crate::error::SolveError;
use crate::error::TableError;
use crate::group::encodes;
use crate::group::group_order;
use crate::group::point_add;
use crate::group::point_compress;
use crate::group::point_log;
use crate::group::ristretto_encoding;
use crate::point_index::is_last_position;
use crate::point_index::occurs;
use crate::table_format::decodable;
use crate::table_format::stored_bits;
use crate::traits::DiscreteLogSolver;
use curve25519_dalek::ristretto::RistrettoPoint;
use std::sync::Arc;
use vstd::arithmetic::power2::lemma_pow2_strictly_increases;
use vstd::arithmetic::power2::pow2;
use vstd::prelude::*;

verus! {

/// The naive doubled lookup solver. It shares the table of a batched
/// baby-step giant-step solver and holds no copy of it.
pub struct NaiveDoubledLookup {
    pub table: Arc<BabyStepGiantStepKTable>,
}

impl NaiveDoubledLookup {
    /// The number of logarithms that the solver covers: 2 to the power of
    /// half the number of bits of its table.
    pub open spec fn range(&self) -> nat {
        pow2((self.table.max_num_bits / 2) as nat)
    }

    /// What solving gives for the point `y * G`: the last position at which
    /// the table holds the encoding of the point's double, where it holds it
    /// and the position is within the solver's range; else that the point is
    /// out of range.
    pub open spec fn solution(&self, y: nat) -> Result<u64, SolveError> {
        let key = ristretto_encoding(doubled(y));
        if occurs(self.table.baby_steps@, key) {
            let at = choose|at: int| is_last_position(self.table.baby_steps@, key, at);
            if at < self.range() {
                Ok(at as u64)
            } else {
                Err(SolveError::OutOfRange)
            }
        } else {
            Err(SolveError::OutOfRange)
        }
    }

    /// Makes a solver that shares the table of a batched baby-step
    /// giant-step solver.
    pub fn from_bsgs_k<const K: usize>(bsgs_k: &BabyStepGiantStepK<K>) -> (r: NaiveDoubledLookup)
        ensures
            r.table == bsgs_k.table,
    {
        NaiveDoubledLookup { table: bsgs_k.table() }
    }

    /// Makes a solver of a batched baby-step giant-step table that was made
    /// ahead of time, from the bytes that store it. The bytes are corrupt
    /// where they store no table, or one for another number of bits than
    /// `table` stands for.
    pub fn from_precomputed_table(table: PrecomputedTables, bytes: &[u8]) -> (r: Result<
        NaiveDoubledLookup,
        TableError,
    >)
        ensures
            r is Ok <==> decodable(bytes@) && stored_bits(bytes@) == 32,
            r matches Ok(solver) ==> solver.table.wf() && solver.table.stored_in(bytes@),
            r matches Err(e) ==> e == TableError::CorruptTable,
    {
        match BabyStepGiantStepKTable::from_bytes(bytes) {
            Ok(loaded) => {
                if loaded.max_num_bits == table.max_num_bits() {
                    Ok(NaiveDoubledLookup { table: Arc::new(loaded) })
                } else {
                    Err(TableError::CorruptTable)
                }
            },
            Err(e) => Err(e),
        }
    }

    /// Returns the number of bits of the logarithms that the solver covers:
    /// half the number of bits of its table.
    pub fn max_num_bits(&self) -> (r: u8)
        ensures
            r == self.table.max_num_bits / 2,
    {
        self.table.max_num_bits / 2
    }

    /// Solves `y = x * G` for `x` by one doubling, one compression and one
    /// search. A position beyond the solver's range counts as out of range.
    pub fn solve(&self, y: &RistrettoPoint) -> (r: Result<u64, SolveError>)
        requires
            self.table.wf(),
        ensures
            r == self.solution(point_log(*y)),
    {
        let limit: u64 = range_of(self.table.max_num_bits / 2);
        let doubled_point = point_add(y, y);
        let compressed = point_compress(&doubled_point);
        match self.table.baby_steps.find(&compressed) {
            Some(j) => {
                proof {
                    lemma_baby_steps_cover(self.table.max_num_bits);
                    let key = ristretto_encoding(doubled(point_log(*y)));
                    let chosen = choose|at: int|
                        is_last_position(self.table.baby_steps@, key, at);
                    assert(is_last_position(self.table.baby_steps@, key, j as int));
                    assert(chosen == j);
                }
                if (j as u64) < limit {
                    Ok(j as u64)
                } else {
                    Err(SolveError::OutOfRange)
                }
            },
            None => Err(SolveError::OutOfRange),
        }
    }
}

impl DiscreteLogSolver for NaiveDoubledLookup {
    open spec fn wf(&self) -> bool {
        self.table.wf()
    }

    open spec fn genuine(&self) -> bool {
        self.table.genuine()
    }

    open spec fn bits(&self) -> u8 {
        (self.table.max_num_bits / 2) as u8
    }

    open spec fn accepts(max_num_bits: u8) -> bool {
        1 <= max_num_bits <= 16
    }

    open spec fn deterministic() -> bool {
        true
    }

    open spec fn answer(&self, y: nat) -> Result<u64, SolveError> {
        self.solution(y)
    }

    fn algorithm_name() -> (name: &'static str)
        ensures
            name@ == "NaiveDoubledLookup"@,
    {
        "NaiveDoubledLookup"
    }

    /// Computes a batched baby-step giant-step table for twice the number of
    /// bits, which has 2^max_num_bits baby steps.
    fn new_and_compute_table(max_num_bits: u8) -> (r: Result<Self, TableError>)
        ensures
            r is Ok,
    {
        let table = BabyStepGiantStepKTable::generate(max_num_bits * 2);
        Ok(NaiveDoubledLookup { table: Arc::new(table) })
    }

    /// Reads the batched baby-step giant-step table that the bytes store.
    fn load_table(bytes: &[u8]) -> (r: Result<Self, TableError>)
        ensures
            r is Ok <==> decodable(bytes@),
            r matches Ok(solver) ==> solver.table.stored_in(bytes@),
    {
        match BabyStepGiantStepKTable::from_bytes(bytes) {
            Ok(table) => Ok(NaiveDoubledLookup { table: Arc::new(table) }),
            Err(e) => Err(e),
        }
    }

    fn solve(&self, y: &RistrettoPoint) -> (r: Result<u64, SolveError>)
        ensures
            r == self.solution(point_log(*y)),
    {
        proof {
            if self.table.genuine() {
                lemma_genuine_table_solves(self, point_log(*y));
            }
        }
        NaiveDoubledLookup::solve(self, y)
    }

    fn max_num_bits(&self) -> (r: u8) {
        NaiveDoubledLookup::max_num_bits(self)
    }
}

/// On a generated table, solving gives the logarithm of every point whose
/// logarithm is within the solver's range, and reports every other point as
/// out of range.
pub proof fn lemma_genuine_table_solves(solver: &NaiveDoubledLookup, y: nat)
    requires
        solver.table.wf(),
        solver.table.genuine(),
        y < group_order(),
    ensures
        y < solver.range() ==> solver.solution(y) == Ok::<u64, SolveError>(
            #[verifier::truncate] (y as u64),
        ),
        y >= solver.range() ==> solver.solution(y) == Err::<u64, SolveError>(
            SolveError::OutOfRange,
        ),
        solver.range() >= 1,
{
    let list = solver.table.baby_steps@;
    let key = ristretto_encoding(doubled(y));
    lemma_baby_steps_cover(solver.table.max_num_bits);
    let half = (solver.table.max_num_bits / 2) as nat;
    let up = ((solver.table.max_num_bits + 1) / 2) as nat;
    vstd::arithmetic::power2::lemma_pow2_pos(half);
    if half < up {
        lemma_pow2_strictly_increases(half, up);
    }
    if y < solver.table.m {
        assert(encodes(list[y as int], doubled(y)));
        assert(is_last_position(list, key, y as int)) by {
            assert forall|k: int| y < k < list.len() implies list[k] != key by {
                assert(encodes(list[k], doubled(k as nat)));
                if list[k] == key {
                    lemma_doubled_injective(k as nat, y);
                }
            }
        }
    }
    if occurs(list, key) {
        let at = choose|at: int| is_last_position(list, key, at);
        let k = choose|k: int| 0 <= k < list.len() && list[k] == key;
        if y >= solver.table.m {
            assert(encodes(list[k], doubled(k as nat)));
            lemma_doubled_injective(k as nat, y);
        }
        assert(is_last_position(list, key, y as int));
        assert(is_last_position(list, key, at));
        assert(at == y);
    }
}

} // verus!
