//! The naive lookup: a table of all points `i * G` with `i` in the range,
//! and one compression and one search to solve.
//!
//! The table has 2^l entries for logarithms of `l` bits, which is practical
//! for small `l` only.

pub mod precomputed_tables;

use crate::baby_steps::lemma_baby_steps_cover;
use crate::bsgs::precomputed_tables::PrecomputedTables;
use crate::bsgs::BabyStepGiantStepTable;
use crate::error::SolveError;
use crate::error::TableError;
use crate::group::encodes;
use crate::group::group_order;
use crate::group::point_add;
use crate::group::point_compress;
use crate::group::point_generator;
use crate::group::point_identity;
use crate::group::point_log;
use crate::group::ristretto_encoding;
use crate::point_index::is_last_position;
use crate::point_index::occurs;
use crate::point_index::PointIndex;
use crate::table_format::decodable;
use crate::table_format::stored_bits;
use crate::table_format::stored_points;
use crate::traits::DiscreteLogSolver;
use curve25519_dalek::ristretto::RistrettoPoint;
use vstd::arithmetic::power2::lemma2_to64;
use vstd::arithmetic::power2::lemma_pow2_pos;
use vstd::arithmetic::power2::lemma_pow2_strictly_increases;
use vstd::arithmetic::power2::pow2;
use vstd::bits::lemma_u64_shl_is_mul;
use vstd::prelude::*;

verus! {

/// The table of the naive lookup.
pub struct NaiveLookupTable {
    /// The number of bits of the logarithms to look for.
    pub max_num_bits: u8,
    /// The encodings of the points of the range: at position `i` that of
    /// `i * G`.
    pub lookup: PointIndex,
}

/// The naive lookup solver.
pub struct NaiveLookup {
    pub table: NaiveLookupTable,
}

impl NaiveLookupTable {
    /// The table is a list of at most 2^32 encodings.
    pub open spec fn wf(&self) -> bool {
        &&& self.lookup.wf()
        &&& self.lookup@.len() <= 0x1_0000_0000
    }

    /// The table holds what `generate` computes: 2^max_num_bits encodings,
    /// at position `i` that of `i * G`.
    pub open spec fn genuine(&self) -> bool {
        &&& self.lookup@.len() == pow2(self.max_num_bits as nat)
        &&& forall|i: int|
            0 <= i < self.lookup@.len() ==> encodes(#[trigger] self.lookup@[i], i as nat)
    }

    /// `r` is what solving gives for the point `y * G`: the last position at
    /// which the table holds the point's encoding, or that the point is out
    /// of range where the table does not hold it.
    pub open spec fn finds(&self, y: nat, r: Result<u64, SolveError>) -> bool {
        match r {
            Ok(x) => is_last_position(self.lookup@, ristretto_encoding(y), x as int),
            Err(e) => e == SolveError::OutOfRange && !occurs(self.lookup@, ristretto_encoding(y)),
        }
    }

    /// What solving gives for the point `y * G`.
    pub open spec fn solution(&self, y: nat) -> Result<u64, SolveError> {
        if occurs(self.lookup@, ristretto_encoding(y)) {
            Ok(
                (choose|at: int| is_last_position(self.lookup@, ristretto_encoding(y), at)) as u64,
            )
        } else {
            Err(SolveError::OutOfRange)
        }
    }

    /// Generates the table for logarithms of `max_num_bits` bits: the
    /// encodings of `i * G` for `i` below 2^max_num_bits, each point from the
    /// one before by one addition.
    pub fn generate(max_num_bits: u8) -> (r: NaiveLookupTable)
        requires
            1 <= max_num_bits <= 32,
        ensures
            r.wf(),
            r.genuine(),
            r.max_num_bits == max_num_bits,
    {
        proof {
            lemma2_to64();
            if max_num_bits < 32 {
                lemma_pow2_strictly_increases(max_num_bits as nat, 32);
            }
            lemma_u64_shl_is_mul(1, max_num_bits as u64);
        }
        let n: u64 = 1u64 << (max_num_bits as u64);
        let g = point_generator();
        let mut lookup = PointIndex::new();
        let mut current = point_identity();
        let mut i: u64 = 0;
        while i < n
            invariant
                i <= n <= 0x1_0000_0000,
                lookup.wf(),
                lookup@.len() == i,
                point_log(g) == 1,
                point_log(current) == i,
                forall|k: int| 0 <= k < i ==> encodes(#[trigger] lookup@[k], k as nat),
            decreases n - i,
        {
            let compressed = point_compress(&current);
            lookup.push(compressed);
            current = point_add(&current, &g);
            i += 1;
        }
        NaiveLookupTable { max_num_bits, lookup }
    }

    /// Solves `pk = x * G` for `x` by one compression and one search.
    pub fn solve(&self, pk: &RistrettoPoint) -> (r: Result<u64, SolveError>)
        requires
            self.wf(),
        ensures
            r == self.solution(point_log(*pk)),
            self.finds(point_log(*pk), r),
    {
        let pk_compressed = point_compress(pk);
        let r = match self.lookup.find(&pk_compressed) {
            Some(at) => Ok(at as u64),
            None => Err(SolveError::OutOfRange),
        };
        proof {
            lemma_solution_is_what_is_found(self, point_log(*pk), r);
        }
        r
    }
}

impl NaiveLookup {
    /// Makes a solver from the baby steps of a baby-step giant-step table,
    /// which are the points `j * G` with `j` below `m`: a solver for
    /// logarithms of half as many bits, rounded up.
    pub fn from_bsgs_table(table: BabyStepGiantStepTable) -> (r: NaiveLookup)
        requires
            table.wf(),
        ensures
            r.table.wf(),
            r.table.lookup@ == table.baby_steps@,
            r.table.max_num_bits == (table.max_num_bits + 1) / 2,
            table.genuine() ==> r.table.genuine(),
    {
        proof {
            lemma_baby_steps_cover(table.max_num_bits);
        }
        NaiveLookup {
            table: NaiveLookupTable {
                max_num_bits: (table.max_num_bits + 1) / 2,
                lookup: table.baby_steps,
            },
        }
    }

    /// Makes a solver for logarithms of 16 bits from the baby steps of the
    /// baby-step giant-step table for 32 bits that was made ahead of time,
    /// from the bytes that store that table. The bytes are corrupt where
    /// they store no table, or one for another number of bits than `table`
    /// stands for.
    pub fn from_bsgs_precomputed_table(table: PrecomputedTables, bytes: &[u8]) -> (r: Result<
        NaiveLookup,
        TableError,
    >)
        ensures
            r is Ok <==> decodable(bytes@) && stored_bits(bytes@) == 32,
            r matches Ok(solver) ==> solver.table.wf() && solver.table.max_num_bits == 16
                && solver.table.lookup@ == stored_points(bytes@),
            r matches Err(e) ==> e == TableError::CorruptTable,
    {
        match BabyStepGiantStepTable::from_bytes(bytes) {
            Ok(loaded) => {
                if loaded.max_num_bits == table.max_num_bits() {
                    Ok(NaiveLookup::from_bsgs_table(loaded))
                } else {
                    Err(TableError::CorruptTable)
                }
            },
            Err(e) => Err(e),
        }
    }

    /// Solves `pk = x * G` for `x` by one compression and one search.
    pub fn solve(&self, pk: &RistrettoPoint) -> (r: Result<u64, SolveError>)
        requires
            self.table.wf(),
        ensures
            r == self.table.solution(point_log(*pk)),
            self.table.finds(point_log(*pk), r),
    {
        self.table.solve(pk)
    }
}

impl DiscreteLogSolver for NaiveLookup {
    open spec fn wf(&self) -> bool {
        self.table.wf()
    }

    open spec fn genuine(&self) -> bool {
        self.table.genuine()
    }

    open spec fn bits(&self) -> u8 {
        self.table.max_num_bits
    }

    open spec fn accepts(max_num_bits: u8) -> bool {
        1 <= max_num_bits <= 32
    }

    open spec fn deterministic() -> bool {
        true
    }

    open spec fn answer(&self, y: nat) -> Result<u64, SolveError> {
        self.table.solution(y)
    }

    fn algorithm_name() -> (name: &'static str)
        ensures
            name@ == "NaiveLookup"@,
    {
        "NaiveLookup"
    }

    fn new_and_compute_table(max_num_bits: u8) -> (r: Result<Self, TableError>)
        ensures
            r is Ok,
    {
        Ok(NaiveLookup { table: NaiveLookupTable::generate(max_num_bits) })
    }

    /// Reads the baby-step giant-step table that the bytes store, and makes
    /// a solver of its baby steps.
    fn load_table(bytes: &[u8]) -> (r: Result<Self, TableError>)
        ensures
            r is Ok <==> decodable(bytes@),
            r matches Ok(solver) ==> solver.table.lookup@ == stored_points(bytes@)
                && solver.table.max_num_bits == (stored_bits(bytes@) + 1) / 2,
    {
        match BabyStepGiantStepTable::from_bytes(bytes) {
            Ok(loaded) => Ok(NaiveLookup::from_bsgs_table(loaded)),
            Err(e) => Err(e),
        }
    }

    fn solve(&self, pk: &RistrettoPoint) -> (r: Result<u64, SolveError>)
        ensures
            self.table.finds(point_log(*pk), r),
    {
        let r = self.table.solve(pk);
        proof {
            if self.table.genuine() {
                lemma_pow2_pos(self.table.max_num_bits as nat);
                lemma_genuine_table_solves(&self.table, point_log(*pk), r);
            }
        }
        r
    }

    fn max_num_bits(&self) -> (r: u8) {
        self.table.max_num_bits
    }
}

/// What is found in a table is its solution: for each point there is one
/// result that solving can give.
pub proof fn lemma_solution_is_what_is_found(
    table: &NaiveLookupTable,
    y: nat,
    r: Result<u64, SolveError>,
)
    requires
        table.wf(),
        table.finds(y, r),
    ensures
        r == table.solution(y),
{
    match r {
        Ok(x) => {
            let chosen = choose|at: int| is_last_position(table.lookup@, ristretto_encoding(y), at);
            assert(is_last_position(table.lookup@, ristretto_encoding(y), x as int));
            assert(chosen == x);
        },
        Err(_) => {},
    }
}

/// On a generated table, solving gives the logarithm of every point whose
/// logarithm has at most `max_num_bits` bits, and reports every other point
/// as out of range.
pub proof fn lemma_genuine_table_solves(table: &NaiveLookupTable, y: nat, r: Result<u64, SolveError>)
    requires
        table.wf(),
        table.genuine(),
        y < group_order(),
        table.finds(y, r),
    ensures
        y < pow2(table.max_num_bits as nat) ==> r == Ok::<u64, SolveError>(
            #[verifier::truncate] (y as u64),
        ),
        y >= pow2(table.max_num_bits as nat) ==> r == Err::<u64, SolveError>(
            SolveError::OutOfRange,
        ),
{
    match r {
        Ok(x) => {
            assert(encodes(table.lookup@[x as int], x as nat));
        },
        Err(_) => {
            if y < pow2(table.max_num_bits as nat) {
                assert(encodes(table.lookup@[y as int], y));
            }
        },
    }
}

} // verus!
