//! The naive doubled lookup.

use ristretto255_dlog::bsgs_k::precomputed_tables::PrecomputedTables;
use ristretto255_dlog::bsgs_k::BabyStepGiantStepK;
use ristretto255_dlog::bsgs_k::BabyStepGiantStepKTable;
use ristretto255_dlog::error::SolveError;
use ristretto255_dlog::error::TableError;
use ristretto255_dlog::naive_doubled_lookup::NaiveDoubledLookup;
use ristretto255_dlog::traits::DiscreteLogSolver;
use ristretto255_dlog::utils;

use curve25519_dalek::constants::RISTRETTO_BASEPOINT_POINT;
use curve25519_dalek::ristretto::RistrettoPoint;
use curve25519_dalek::traits::Identity;
use std::ops::Mul;
use std::sync::Arc;

/// The bytes of the table for 32 bits that is made ahead of time.
fn table_32() -> Vec<u8> {
    BabyStepGiantStepKTable::generate(32).to_bytes()
}

#[test]
fn naive_doubled_handles_identity_point() {
    // Generate a table for 8-bit lookups (needs 16-bit BSGS-k table)
    let solver = NaiveDoubledLookup::new_and_compute_table(8).unwrap();
    assert_eq!(solver.max_num_bits(), 8);

    // 0*G = identity
    let identity = RistrettoPoint::identity();
    let result = solver.solve(&identity).unwrap();
    assert_eq!(result, 0);
}

#[test]
fn naive_doubled_handles_generator() {
    let solver = NaiveDoubledLookup::new_and_compute_table(8).unwrap();

    // 1*G = generator
    let result = solver.solve(&RISTRETTO_BASEPOINT_POINT).unwrap();
    assert_eq!(result, 1);
}

#[test]
fn naive_doubled_handles_small_values() {
    let solver = NaiveDoubledLookup::new_and_compute_table(8).unwrap();

    for i in 0..=255u64 {
        let pk = RISTRETTO_BASEPOINT_POINT.mul(utils::u64_to_scalar(i));
        let result = solver.solve(&pk).unwrap();
        assert_eq!(result, i, "failed for i={}", i);
    }
}

#[test]
fn naive_doubled_with_precomputed_table() {
    let solver =
        NaiveDoubledLookup::from_precomputed_table(PrecomputedTables::BsgsK32, &table_32()).unwrap();
    assert_eq!(solver.max_num_bits(), 16);

    // Test a few values
    for i in [0u64, 1, 100, 1000, 65535] {
        let pk = RISTRETTO_BASEPOINT_POINT.mul(utils::u64_to_scalar(i));
        let result = solver.solve(&pk).unwrap();
        assert_eq!(result, i, "failed for i={}", i);
    }
}

#[test]
fn naive_doubled_fails_for_out_of_range() {
    let solver =
        NaiveDoubledLookup::from_precomputed_table(PrecomputedTables::BsgsK32, &table_32()).unwrap();

    // 65536 is out of range for 16-bit
    let pk = RISTRETTO_BASEPOINT_POINT.mul(utils::u64_to_scalar(65536));
    let result = solver.solve(&pk);
    assert!(result.is_err());
    assert_eq!(result, Err(SolveError::OutOfRange));
}

#[test]
fn naive_doubled_from_bsgs_k_shares_table() {
    let bsgs_k =
        BabyStepGiantStepK::<32>::from_precomputed_table(PrecomputedTables::BsgsK32, &table_32())
            .unwrap();
    let naive = NaiveDoubledLookup::from_bsgs_k(&bsgs_k);

    // Verify they share the same Arc (same pointer)
    assert!(Arc::ptr_eq(&bsgs_k.table, &naive.table));

    // Test solving works
    for i in [0u64, 1, 100, 1000, 65535] {
        let pk = RISTRETTO_BASEPOINT_POINT.mul(utils::u64_to_scalar(i));
        let result = naive.solve(&pk).unwrap();
        assert_eq!(result, i, "failed for i={}", i);
    }
}

#[test]
fn naive_doubled_lookup_solves_16_bit() {
    // Reuses BSGS-k 32-bit table for 16-bit lookups
    let solver =
        NaiveDoubledLookup::from_precomputed_table(PrecomputedTables::BsgsK32, &table_32()).unwrap();

    let (sk, pk) = utils::generate_dlog_instance(16).unwrap();
    let sk_u64 = utils::scalar_to_u64(&sk);

    // Naive doubled lookup is deterministic
    assert_eq!(solver.solve(&pk).unwrap(), sk_u64);
}

#[test]
fn naive_doubled_covers_half_the_bits_of_its_table() {
    // A table for 5 bits has 8 baby steps; the solver reports 2 bits and
    // answers below 4 only.
    let bsgs_k = BabyStepGiantStepK::<4>::new_and_compute_table(5).unwrap();
    let naive = NaiveDoubledLookup::from_bsgs_k(&bsgs_k);
    assert_eq!(naive.max_num_bits(), 2);
    for x in 0..4u64 {
        let pk = RistrettoPoint::mul_base(&utils::u64_to_scalar(x));
        assert_eq!(naive.solve(&pk), Ok(x));
    }
    for x in [4u64, 5, 7, 8, 9, 63, 64] {
        let pk = RistrettoPoint::mul_base(&utils::u64_to_scalar(x));
        assert_eq!(naive.solve(&pk), Err(SolveError::OutOfRange));
    }
    assert_eq!(
        naive.solve(&-RISTRETTO_BASEPOINT_POINT),
        Err(SolveError::OutOfRange)
    );
}

#[test]
fn naive_doubled_from_precomputed_table_rejects_other_tables() {
    let bytes = BabyStepGiantStepKTable::generate(8).to_bytes();
    assert!(matches!(
        NaiveDoubledLookup::from_precomputed_table(PrecomputedTables::BsgsK32, &bytes),
        Err(TableError::CorruptTable)
    ));
    assert_eq!(PrecomputedTables::BsgsK32.max_num_bits(), 32);
    assert_eq!(PrecomputedTables::for_bits(32), Some(PrecomputedTables::BsgsK32));
    assert_eq!(PrecomputedTables::for_bits(0), None);
}

#[test]
fn naive_doubled_algorithm_name() {
    assert_eq!(NaiveDoubledLookup::algorithm_name(), "NaiveDoubledLookup");
}
