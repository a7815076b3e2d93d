//! Generic tests for all solvers: for each number of bits up to a maximum, a
//! table is computed and the solver is tried on all values of the range.

use ristretto255_dlog::bl12::Bl12;
use ristretto255_dlog::bsgs::BabyStepGiantStep;
use ristretto255_dlog::bsgs_k::BabyStepGiantStepK;
use ristretto255_dlog::naive_doubled_lookup::NaiveDoubledLookup;
use ristretto255_dlog::naive_lookup::NaiveLookup;
use ristretto255_dlog::naive_truncated_doubled_lookup::NaiveTruncatedDoubledLookup;
use ristretto255_dlog::tbsgs_k::TruncatedBabyStepGiantStepK;
use ristretto255_dlog::traits::DiscreteLogSolver;

use curve25519_dalek::constants::RISTRETTO_BASEPOINT_POINT;
use curve25519_dalek::ristretto::RistrettoPoint;

/// Tests a DiscreteLogSolver implementation for all values in [0, 2^max_num_bits).
fn test_solver<S: DiscreteLogSolver>(max_num_bits: u8) {
    for ell in 1..=max_num_bits {
        let solver = S::new_and_compute_table(ell).unwrap();
        assert_eq!(solver.max_num_bits(), ell);

        let max_value = 1u64 << ell;
        let g = RISTRETTO_BASEPOINT_POINT;

        // Start with g^0 = identity, then increment via EC addition: g^(x+1) = g^x + g
        let mut pk = RistrettoPoint::default(); // identity

        for value in 0..max_value {
            let result = solver.solve(&pk).expect("Solver returned error");

            assert_eq!(
                result, value,
                "Failed for ell={}, x={}: got {}",
                ell, value, result
            );

            // g^(x+1) = g^x + g
            pk = pk + g;
        }
    }
}

#[test]
fn test_bsgs_all_values_up_to_11bits() {
    test_solver::<BabyStepGiantStep>(11);
}

#[test]
fn test_bsgs_k_all_values_up_to_10bits() {
    test_solver::<BabyStepGiantStepK<32>>(10);
    test_solver::<BabyStepGiantStepK<64>>(10);
    test_solver::<BabyStepGiantStepK<256>>(10);
    test_solver::<BabyStepGiantStepK<1024>>(10);
}

#[test]
fn test_bl12_all_values_up_to_4bits() {
    test_solver::<Bl12>(4);
}

#[test]
fn test_naive_lookup_all_values_up_to_16bits() {
    test_solver::<NaiveLookup>(16);
}

#[test]
fn test_naive_doubled_lookup_all_values_up_to_10bits() {
    // NaiveDoubledLookup uses a table for 2*max_num_bits, so 10-bit test uses 20-bit table
    test_solver::<NaiveDoubledLookup>(10);
}

#[test]
fn test_tbsgs_k_all_values_up_to_10bits() {
    test_solver::<TruncatedBabyStepGiantStepK<32>>(10);
    test_solver::<TruncatedBabyStepGiantStepK<64>>(10);
    test_solver::<TruncatedBabyStepGiantStepK<256>>(10);
    test_solver::<TruncatedBabyStepGiantStepK<1024>>(10);
}

#[test]
fn test_naive_truncated_doubled_lookup_all_values_up_to_10bits() {
    // NaiveTruncatedDoubledLookup uses a table for 2*max_num_bits, so 10-bit test uses 20-bit table
    test_solver::<NaiveTruncatedDoubledLookup>(10);
}

/// For every batch size and every secret about a multiple of the number of
/// baby steps, the walk in giant steps passes the neutral element in the
/// middle of a batch or at its start.
#[test]
fn batched_solvers_pass_the_neutral_element_in_a_batch() {
    fn secrets(m: u64) -> [u64; 7] {
        [0, m - 1, m, m + 1, 2 * m, 2 * m + 100, 3 * m]
    }
    fn check<S: DiscreteLogSolver>(solver: &S) {
        for secret in secrets(1 << 10) {
            let pk = RistrettoPoint::mul_base(&curve25519_dalek::scalar::Scalar::from(secret));
            assert_eq!(solver.solve(&pk), Ok(secret), "{}", S::algorithm_name());
        }
    }
    check(&BabyStepGiantStepK::<1>::new_and_compute_table(20).unwrap());
    check(&BabyStepGiantStepK::<2>::new_and_compute_table(20).unwrap());
    check(&BabyStepGiantStepK::<4>::new_and_compute_table(20).unwrap());
    check(&BabyStepGiantStepK::<64>::new_and_compute_table(20).unwrap());
    check(&BabyStepGiantStepK::<256>::new_and_compute_table(20).unwrap());
    check(&TruncatedBabyStepGiantStepK::<1>::new_and_compute_table(20).unwrap());
    check(&TruncatedBabyStepGiantStepK::<2>::new_and_compute_table(20).unwrap());
    check(&TruncatedBabyStepGiantStepK::<4>::new_and_compute_table(20).unwrap());
    check(&TruncatedBabyStepGiantStepK::<64>::new_and_compute_table(20).unwrap());
    check(&TruncatedBabyStepGiantStepK::<256>::new_and_compute_table(20).unwrap());
}
