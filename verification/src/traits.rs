//! The interface that all solvers share.

use crate::error::SolveError;
use crate::error::TableError;
use crate::group::point_log;
use curve25519_dalek::ristretto::RistrettoPoint;
use vstd::arithmetic::power2::pow2;
use vstd::prelude::*;

verus! {

/// A solver of the discrete logarithm problem on a small range.
///
/// A solver is made by computing a table for logarithms of a number of bits,
/// or by loading a table that was computed before; it then solves
/// `pk = x * G` for `x`. Solving reads the table and never changes it.
pub trait DiscreteLogSolver: Sized {
    /// The solver's table has the shape that solving relies on.
    spec fn wf(&self) -> bool;

    /// The table holds what computing it anew would give.
    spec fn genuine(&self) -> bool;

    /// The number of bits of the logarithms that the solver covers.
    spec fn bits(&self) -> u8;

    /// The numbers of bits for which the solver computes a table.
    spec fn accepts(max_num_bits: u8) -> bool;

    /// Whether solving is a function of the table and the point alone, with
    /// no random choice in it.
    spec fn deterministic() -> bool;

    /// What a solver without random choices gives for the point `y * G`.
    spec fn answer(&self, y: nat) -> Result<u64, SolveError>;

    /// The name of the algorithm.
    fn algorithm_name() -> &'static str;

    /// Creates a solver by computing its table for logarithms in the range
    /// [0, 2^max_num_bits).
    fn new_and_compute_table(max_num_bits: u8) -> (r: Result<Self, TableError>)
        requires
            Self::accepts(max_num_bits),
        ensures
            r matches Ok(s) ==> s.wf() && s.genuine() && s.bits() == max_num_bits,
    ;

    /// Creates a solver from the bytes that store its table.
    fn load_table(bytes: &[u8]) -> (r: Result<Self, TableError>)
        ensures
            r matches Ok(s) ==> s.wf(),
            r matches Err(e) ==> e == TableError::CorruptTable,
    ;

    /// Solves `pk = x * G` for `x`.
    ///
    /// A solver without random choices gives the same for the same point
    /// whenever it is asked. With a table that is what it should be, the
    /// result is never a wrong logarithm, the neutral element gives 0, and a
    /// solver without random choices finds every logarithm of at most `bits`
    /// bits and reports every other point as out of range.
    fn solve(&self, pk: &RistrettoPoint) -> (r: Result<u64, SolveError>)
        requires
            self.wf(),
        ensures
            Self::deterministic() ==> r == self.answer(point_log(*pk)),
            self.genuine() ==> (r matches Ok(x) ==> x == point_log(*pk)),
            self.genuine() && point_log(*pk) == 0 ==> r == Ok::<u64, SolveError>(0),
            self.genuine() && Self::deterministic() && point_log(*pk) < pow2(self.bits() as nat)
                ==> r == Ok::<u64, SolveError>(#[verifier::truncate] (point_log(*pk) as u64)),
            self.genuine() && Self::deterministic() && point_log(*pk) >= pow2(self.bits() as nat)
                ==> r == Err::<u64, SolveError>(SolveError::OutOfRange),
    ;

    /// The number of bits of the logarithms that the solver covers.
    fn max_num_bits(&self) -> (r: u8)
        ensures
            r == self.bits(),
    ;
}

} // verus!
