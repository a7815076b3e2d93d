use ristretto255_dlog::error::RandomScalarError;
use ristretto255_dlog::utils::generate_dlog_instance;
use ristretto255_dlog::utils::generate_random_scalar;
use ristretto255_dlog::utils::is_reduced;
use ristretto255_dlog::utils::low_bits;
use ristretto255_dlog::utils::scalar_from_random;
use ristretto255_dlog::utils::scalar_to_u64;
use ristretto255_dlog::utils::u64_to_scalar;

use curve25519_dalek::constants::RISTRETTO_BASEPOINT_POINT;
use curve25519_dalek::scalar::Scalar;

#[test]
fn test_generate_random_scalar_bounds() {
    // Test various bit sizes
    for bits in 1..=64 {
        let max_value = if bits == 64 {
            u64::MAX
        } else {
            (1u64 << bits) - 1
        };

        // Generate multiple samples to increase confidence
        for _ in 0..100 {
            let scalar = generate_random_scalar(bits).unwrap();
            let value = scalar_to_u64(&scalar);

            assert!(
                value <= max_value,
                "generate_random_scalar({}) produced value {} which exceeds max {}",
                bits,
                value,
                max_value
            );
        }
    }
}

#[test]
fn test_generate_random_scalar_zero_bits_edge_case() {
    // 0 bits should produce 0
    let scalar = generate_random_scalar(0).unwrap();
    assert_eq!(scalar_to_u64(&scalar), 0);
}

#[test]
fn test_scalar_to_u64_roundtrip() {
    // Test that u64_to_scalar and scalar_to_u64 are inverses
    let test_values: Vec<u64> = vec![
        0,
        1,
        42,
        255,
        256,
        65535,
        65536,
        u32::MAX as u64,
        u32::MAX as u64 + 1,
        u64::MAX / 2,
        u64::MAX - 1,
        u64::MAX,
    ];

    for value in test_values {
        let scalar = u64_to_scalar(value);
        let recovered = scalar_to_u64(&scalar);
        assert_eq!(
            value, recovered,
            "Roundtrip failed for value {}: got {}",
            value, recovered
        );
    }
}

#[test]
fn test_generate_random_scalar_rejects_large_bits() {
    // bits > 64 should fail
    assert!(generate_random_scalar(65).is_err());
    assert!(generate_random_scalar(128).is_err());
}

#[test]
fn random_scalar_error_names_the_cause() {
    assert_eq!(
        generate_random_scalar(65).unwrap_err(),
        RandomScalarError::TooManyBits
    );
    assert_eq!(
        generate_dlog_instance(200).unwrap_err(),
        RandomScalarError::TooManyBits
    );
}

#[test]
fn u64_to_scalar_is_the_scalar_of_the_integer() {
    assert_eq!(u64_to_scalar(0), Scalar::ZERO);
    assert_eq!(u64_to_scalar(1), Scalar::ONE);
    assert_eq!(u64_to_scalar(5), Scalar::ONE + Scalar::ONE + Scalar::ONE + Scalar::ONE + Scalar::ONE);
}

#[test]
fn scalar_to_u64_takes_the_low_64_bits() {
    // -1 modulo the group order is 2^252 + 27742317777372353535851937790883648492,
    // whose low 64 bits are 0x5812631a5cf5d3ec.
    let minus_one = -Scalar::ONE;
    assert_eq!(scalar_to_u64(&minus_one), 0x5812631a5cf5d3ec);
}

#[test]
fn low_bits_keeps_the_bits_asked_for() {
    assert_eq!(low_bits(0xffff_ffff_ffff_ffff, 0), 0);
    assert_eq!(low_bits(0xffff_ffff_ffff_ffff, 1), 1);
    assert_eq!(low_bits(0x1234_5678_9abc_def0, 16), 0xdef0);
    assert_eq!(low_bits(0x1234_5678_9abc_def0, 63), 0x1234_5678_9abc_def0);
    assert_eq!(low_bits(0xf234_5678_9abc_def0, 63), 0x7234_5678_9abc_def0);
    assert_eq!(low_bits(0xf234_5678_9abc_def0, 64), 0xf234_5678_9abc_def0);
}

#[test]
fn scalar_from_random_masks_the_random_integer() {
    assert_eq!(scalar_from_random(0xabcd, 8), Scalar::from(0xcdu64));
    assert_eq!(scalar_from_random(u64::MAX, 64), Scalar::from(u64::MAX));
    assert_eq!(scalar_from_random(u64::MAX, 0), Scalar::ZERO);
}

#[test]
fn dlog_instance_is_a_scalar_and_its_point() {
    for bits in [0u8, 1, 8, 16, 32, 64] {
        let (sk, pk) = generate_dlog_instance(bits).unwrap();
        assert_eq!(pk, RISTRETTO_BASEPOINT_POINT * sk);
        if bits < 64 {
            assert!(scalar_to_u64(&sk) < (1u64 << bits));
        }
        // The scalar is below 2^64: all bytes above the low eight are zero.
        assert!(sk.to_bytes()[8..].iter().all(|b| *b == 0));
    }
}

#[test]
#[allow(deprecated)]
fn a_scalar_that_holds_the_group_order_is_not_reduced() {
    let order = curve25519_dalek::constants::BASEPOINT_ORDER;
    assert!(!is_reduced(&order));
    // The low 64 bits of the group order, as the bytes hold it.
    assert_eq!(scalar_to_u64(&order), 6346243789798364141);
    for reduced in [Scalar::ZERO, Scalar::ONE, -Scalar::ONE, Scalar::from(u64::MAX)] {
        assert!(is_reduced(&reduced));
    }
    for bits in [0u8, 1, 17, 64] {
        assert!(is_reduced(&generate_random_scalar(bits).unwrap()));
    }
}
