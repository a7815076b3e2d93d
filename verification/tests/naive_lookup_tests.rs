//! The naive lookup.

use ristretto255_dlog::bsgs::precomputed_tables::PrecomputedTables;
use ristretto255_dlog::bsgs::BabyStepGiantStepTable;
use ristretto255_dlog::error::SolveError;
use ristretto255_dlog::error::TableError;
use ristretto255_dlog::naive_lookup::precomputed_tables::PrecomputedTables as NaiveTables;
use ristretto255_dlog::naive_lookup::NaiveLookup;
use ristretto255_dlog::naive_lookup::NaiveLookupTable;
use ristretto255_dlog::traits::DiscreteLogSolver;
use ristretto255_dlog::utils;

use curve25519_dalek::constants::RISTRETTO_BASEPOINT_POINT;
use curve25519_dalek::ristretto::RistrettoPoint;
use curve25519_dalek::traits::Identity;
use std::ops::Mul;

#[test]
fn naive_handles_identity_point() {
    let naive = NaiveLookup::new_and_compute_table(8).unwrap();

    // 0*G = identity
    let identity = RistrettoPoint::identity();
    let result = naive.solve(&identity).unwrap();
    assert_eq!(result, 0);
}

#[test]
fn naive_handles_generator() {
    let naive = NaiveLookup::new_and_compute_table(8).unwrap();

    // 1*G = generator
    let result = naive.solve(&RISTRETTO_BASEPOINT_POINT).unwrap();
    assert_eq!(result, 1);
}

#[test]
fn naive_handles_small_values() {
    let naive = NaiveLookup::new_and_compute_table(8).unwrap();

    for i in 0..=255u64 {
        let pk = RISTRETTO_BASEPOINT_POINT.mul(utils::u64_to_scalar(i));
        let result = naive.solve(&pk).unwrap();
        assert_eq!(result, i, "failed for i={}", i);
    }
}

#[test]
fn naive_from_bsgs_table() {
    let bytes = BabyStepGiantStepTable::generate(32).to_bytes();
    let naive = NaiveLookup::from_bsgs_precomputed_table(PrecomputedTables::Bsgs32, &bytes).unwrap();
    assert_eq!(naive.table.max_num_bits, 16);

    // Test a few values
    for i in [0u64, 1, 100, 1000, 65535] {
        let pk = RISTRETTO_BASEPOINT_POINT.mul(utils::u64_to_scalar(i));
        let result = naive.solve(&pk).unwrap();
        assert_eq!(result, i, "failed for i={}", i);
    }

    // 65536 should fail (out of range for 16-bit)
    let pk = RISTRETTO_BASEPOINT_POINT.mul(utils::u64_to_scalar(65536));
    assert!(naive.solve(&pk).is_err());
}

#[test]
fn naive_lookup_from_bsgs_solves_16_bit() {
    // Reuses BSGS 32-bit table's baby_steps for 16-bit lookups
    let bytes = BabyStepGiantStepTable::generate(32).to_bytes();
    let solver = NaiveLookup::from_bsgs_precomputed_table(PrecomputedTables::Bsgs32, &bytes).unwrap();

    let (sk, pk) = utils::generate_dlog_instance(16).unwrap();
    let sk_u64 = utils::scalar_to_u64(&sk);

    // Naive lookup is deterministic
    assert_eq!(solver.solve(&pk).unwrap(), sk_u64);
}

#[test]
fn naive_16_bit_solves_the_largest_logarithm() {
    let naive = NaiveLookup::new_and_compute_table(16).unwrap();
    let pk = RistrettoPoint::mul_base(&utils::u64_to_scalar(65535));
    assert_eq!(naive.solve(&pk), Ok(65535));
    let pk = RistrettoPoint::mul_base(&utils::u64_to_scalar(65536));
    assert_eq!(naive.solve(&pk), Err(SolveError::OutOfRange));
}

#[test]
fn naive_table_holds_the_points_of_the_range() {
    for ell in [1u8, 2, 5, 9] {
        let table = NaiveLookupTable::generate(ell);
        assert_eq!(table.max_num_bits, ell);
        assert_eq!(table.lookup.len(), 1usize << ell);
        let mut current = RistrettoPoint::identity();
        for i in 0..(1usize << ell) {
            assert_eq!(*table.lookup.key(i), current.compress().to_bytes());
            current += RISTRETTO_BASEPOINT_POINT;
        }
        // The first point beyond the range is not found, and no negative.
        assert_eq!(table.solve(&current), Err(SolveError::OutOfRange));
        assert_eq!(
            table.solve(&-RISTRETTO_BASEPOINT_POINT),
            Err(SolveError::OutOfRange)
        );
    }
}

#[test]
fn naive_from_bsgs_table_covers_the_baby_steps() {
    // 5 bits have 8 baby steps: a lookup for 3 bits.
    let naive = NaiveLookup::from_bsgs_table(BabyStepGiantStepTable::generate(5));
    assert_eq!(naive.table.max_num_bits, 3);
    assert_eq!(naive.max_num_bits(), 3);
    for x in 0..8u64 {
        let pk = RistrettoPoint::mul_base(&utils::u64_to_scalar(x));
        assert_eq!(naive.solve(&pk), Ok(x));
    }
    let pk = RistrettoPoint::mul_base(&utils::u64_to_scalar(8));
    assert_eq!(naive.solve(&pk), Err(SolveError::OutOfRange));
}

#[test]
fn naive_from_bsgs_precomputed_table_rejects_other_tables() {
    let bytes = BabyStepGiantStepTable::generate(8).to_bytes();
    assert!(matches!(
        NaiveLookup::from_bsgs_precomputed_table(PrecomputedTables::Bsgs32, &bytes),
        Err(TableError::CorruptTable)
    ));
    assert!(matches!(
        NaiveLookup::from_bsgs_precomputed_table(PrecomputedTables::Bsgs32, &bytes[3..]),
        Err(TableError::CorruptTable)
    ));
}

#[test]
fn naive_tables_made_ahead_of_time() {
    assert_eq!(NaiveTables::NaiveLookup16.max_num_bits(), 16);
    assert_eq!(NaiveTables::for_bits(16), Some(NaiveTables::NaiveLookup16));
    assert_eq!(NaiveTables::for_bits(32), None);
}

#[test]
fn naive_algorithm_name() {
    assert_eq!(NaiveLookup::algorithm_name(), "NaiveLookup");
}
