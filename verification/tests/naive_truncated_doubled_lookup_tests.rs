//! The naive truncated doubled lookup.

use ristretto255_dlog::error::SolveError;
use ristretto255_dlog::error::TableError;
use ristretto255_dlog::naive_truncated_doubled_lookup::NaiveTruncatedDoubledLookup;
use ristretto255_dlog::tbsgs_k::index_keys;
use ristretto255_dlog::tbsgs_k::precomputed_tables::PrecomputedTables;
use ristretto255_dlog::tbsgs_k::TruncatedBabyStepGiantStepK;
use ristretto255_dlog::tbsgs_k::TruncatedBabyStepGiantStepKTable;
use ristretto255_dlog::traits::DiscreteLogSolver;
use ristretto255_dlog::utils;

use curve25519_dalek::constants::RISTRETTO_BASEPOINT_POINT;
use curve25519_dalek::ristretto::RistrettoPoint;
use curve25519_dalek::traits::Identity;
use std::ops::Mul;
use std::sync::Arc;

/// The bytes of the table for 32 bits that is made ahead of time.
fn table_32() -> Vec<u8> {
    TruncatedBabyStepGiantStepKTable::generate(32)
        .unwrap()
        .to_bytes()
}

#[test]
fn naive_truncated_doubled_handles_identity_point() {
    // Generate a table for 8-bit lookups (needs 16-bit TBSGS-k table)
    let solver = NaiveTruncatedDoubledLookup::new_and_compute_table(8).unwrap();
    assert_eq!(solver.max_num_bits(), 8);

    // 0*G = identity
    let identity = RistrettoPoint::identity();
    let result = solver.solve(&identity).unwrap();
    assert_eq!(result, 0);
}

#[test]
fn naive_truncated_doubled_handles_generator() {
    let solver = NaiveTruncatedDoubledLookup::new_and_compute_table(8).unwrap();

    // 1*G = generator
    let result = solver.solve(&RISTRETTO_BASEPOINT_POINT).unwrap();
    assert_eq!(result, 1);
}

#[test]
fn naive_truncated_doubled_handles_small_values() {
    let solver = NaiveTruncatedDoubledLookup::new_and_compute_table(8).unwrap();

    for i in 0..=255u64 {
        let pk = RISTRETTO_BASEPOINT_POINT.mul(utils::u64_to_scalar(i));
        let result = solver.solve(&pk).unwrap();
        assert_eq!(result, i, "failed for i={}", i);
    }
}

#[test]
fn naive_truncated_doubled_with_precomputed_table() {
    let solver = NaiveTruncatedDoubledLookup::from_precomputed_table(
        PrecomputedTables::TbsgsK32,
        &table_32(),
    )
    .unwrap();
    assert_eq!(solver.max_num_bits(), 16);

    // Test a few values
    for i in [0u64, 1, 100, 1000, 65535] {
        let pk = RISTRETTO_BASEPOINT_POINT.mul(utils::u64_to_scalar(i));
        let result = solver.solve(&pk).unwrap();
        assert_eq!(result, i, "failed for i={}", i);
    }
}

#[test]
fn naive_truncated_doubled_fails_for_out_of_range() {
    let solver = NaiveTruncatedDoubledLookup::from_precomputed_table(
        PrecomputedTables::TbsgsK32,
        &table_32(),
    )
    .unwrap();

    // 65536 is out of range for 16-bit
    let pk = RISTRETTO_BASEPOINT_POINT.mul(utils::u64_to_scalar(65536));
    let result = solver.solve(&pk);
    assert!(result.is_err());
    assert_eq!(result, Err(SolveError::OutOfRange));
}

#[test]
fn naive_truncated_doubled_from_tbsgs_k_shares_table() {
    let tbsgs_k = TruncatedBabyStepGiantStepK::<32>::from_precomputed_table(
        PrecomputedTables::TbsgsK32,
        &table_32(),
    )
    .unwrap();
    let naive = NaiveTruncatedDoubledLookup::from_tbsgs_k(&tbsgs_k);

    // Verify they share the same Arc (same pointer)
    assert!(Arc::ptr_eq(&tbsgs_k.table, &naive.table));

    // Test solving works
    for i in [0u64, 1, 100, 1000, 65535] {
        let pk = RISTRETTO_BASEPOINT_POINT.mul(utils::u64_to_scalar(i));
        let result = naive.solve(&pk).unwrap();
        assert_eq!(result, i, "failed for i={}", i);
    }
}

#[test]
fn naive_truncated_doubled_rejects_a_key_that_stands_for_another_point() {
    // Give the truncated key of baby step 3 to baby step 5 as well: the
    // point 3 * G then finds the value 5 under its key, which is not its
    // logarithm.
    let mut table = TruncatedBabyStepGiantStepKTable::generate(6).unwrap();
    let key3 = table.truncated_keys[3];
    table.truncated_keys[5] = key3;
    table.baby_steps = index_keys(&table.truncated_keys);
    let solver = NaiveTruncatedDoubledLookup { table: Arc::new(table) };
    for x in 0..8u64 {
        let pk = RistrettoPoint::mul_base(&utils::u64_to_scalar(x));
        let expected = if x == 3 || x == 5 {
            Err(SolveError::OutOfRange)
        } else {
            Ok(x)
        };
        assert_eq!(solver.solve(&pk), expected, "x={}", x);
    }
}

#[test]
fn naive_truncated_doubled_covers_half_the_bits_of_its_table() {
    // A table for 5 bits has 8 baby steps; the solver reports 2 bits and
    // answers below 4 only.
    let tbsgs_k = TruncatedBabyStepGiantStepK::<4>::new_and_compute_table(5).unwrap();
    let naive = NaiveTruncatedDoubledLookup::from_tbsgs_k(&tbsgs_k);
    assert_eq!(naive.max_num_bits(), 2);
    for x in 0..4u64 {
        let pk = RistrettoPoint::mul_base(&utils::u64_to_scalar(x));
        assert_eq!(naive.solve(&pk), Ok(x));
    }
    for x in [4u64, 5, 7, 8, 9, 63, 64] {
        let pk = RistrettoPoint::mul_base(&utils::u64_to_scalar(x));
        assert_eq!(naive.solve(&pk), Err(SolveError::OutOfRange));
    }
}

#[test]
fn naive_truncated_doubled_from_precomputed_table_rejects_other_tables() {
    let bytes = TruncatedBabyStepGiantStepKTable::generate(8).unwrap().to_bytes();
    assert!(matches!(
        NaiveTruncatedDoubledLookup::from_precomputed_table(PrecomputedTables::TbsgsK32, &bytes),
        Err(TableError::CorruptTable)
    ));
}

#[test]
fn naive_truncated_doubled_algorithm_name() {
    assert_eq!(
        NaiveTruncatedDoubledLookup::algorithm_name(),
        "NaiveTruncatedDoubledLookup"
    );
}
