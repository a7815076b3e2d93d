//! The solver of Bernstein and Lange.

use ristretto255_dlog::bl12::check_power_of_two;
use ristretto255_dlog::bl12::floor_log2_of;
use ristretto255_dlog::bl12::get_last_point_bytes;
use ristretto255_dlog::bl12::hash;
use ristretto255_dlog::bl12::is_distinguished;
use ristretto255_dlog::bl12::precomputed_tables::PrecomputedTables;
use ristretto255_dlog::bl12::presets::Presets;
use ristretto255_dlog::bl12::Bl12;
use ristretto255_dlog::bl12::Parameters;
use ristretto255_dlog::bl12::Table;
use ristretto255_dlog::error::SolveError;
use ristretto255_dlog::error::TableError;
use ristretto255_dlog::point_map::PointMap;
use ristretto255_dlog::traits::DiscreteLogSolver;
use ristretto255_dlog::utils;

use curve25519_dalek::constants::RISTRETTO_BASEPOINT_POINT;
use curve25519_dalek::ristretto::CompressedRistretto;
use curve25519_dalek::ristretto::RistrettoPoint;
use curve25519_dalek::scalar::Scalar;
use curve25519_dalek::traits::Identity;

fn point(x: u64) -> RistrettoPoint {
    RistrettoPoint::mul_base(&Scalar::from(x))
}

fn parameters(i: u64, w: u64, n: u64, r: u64, secret_size: u8) -> Parameters {
    Parameters { i, W: w, N: n, R: r, secret_size }
}

fn same(a: &Parameters, b: &Parameters) -> bool {
    a.i == b.i && a.W == b.W && a.N == b.N && a.R == b.R && a.secret_size == b.secret_size
}

/// The bytes of a table with the parameters of a preset, but with `points`
/// distinguished points only, for the time that making the table takes.
fn preset_table(preset: Presets, points: u64) -> Vec<u8> {
    let mut reduced = preset.parameters();
    let target = reduced.N;
    reduced.N = points;
    let mut solver = Bl12::from_parameters(reduced).unwrap();
    solver.parameters.N = target;
    solver.to_bytes()
}

#[test]
fn bl12_tests_it_solves_16_bit_dl() {
    let bl12_16 = Bl12::from_preset(Presets::Bl12_16, &preset_table(Presets::Bl12_16, 4000)).unwrap();

    let (sk, pk) = utils::generate_dlog_instance(16).unwrap();
    let sk_u64 = utils::scalar_to_u64(&sk);

    assert_eq!(bl12_16.solve_dlp(&pk, None).unwrap(), sk_u64);
}

#[test]
fn bl12_tests_it_solves_32_bit_dl() {
    let bl12_32 = Bl12::from_preset(Presets::Bl12_32, &preset_table(Presets::Bl12_32, 300)).unwrap();

    let (sk, pk) = utils::generate_dlog_instance(32).unwrap();
    let sk_u64 = utils::scalar_to_u64(&sk);

    assert_eq!(bl12_32.solve_dlp(&pk, None).unwrap(), sk_u64);
}

#[test]
fn bl12_solves_32_bit() {
    let bytes = preset_table(Presets::Bl12_32, 300);
    let bl12_32 = Bl12::from_precomputed_table(PrecomputedTables::BernsteinLange32, &bytes).unwrap();

    let (sk, pk) = utils::generate_dlog_instance(32).unwrap();
    let sk_u64 = utils::scalar_to_u64(&sk);

    assert_eq!(bl12_32.solve(&pk).unwrap(), sk_u64);
}

#[test]
fn bl12_solves_the_identity() {
    let solver = Bl12::new_and_compute_table(3).unwrap();
    assert_eq!(solver.solve(&RistrettoPoint::identity()), Ok(0));
    assert_eq!(solver.solve_dlp(&RistrettoPoint::identity(), Some(0)), Ok(0));
    assert_eq!(solver.max_num_bits(), 3);
}

#[test]
fn bl12_times_out_with_no_time() {
    let solver = Bl12::new_and_compute_table(4).unwrap();
    assert_eq!(
        solver.solve_dlp(&point(5), Some(0)),
        Err(SolveError::TimedOut)
    );
}

#[test]
fn bl12_times_out_on_a_point_out_of_range_and_is_never_wrong() {
    let solver = Bl12::new_and_compute_table(4).unwrap();
    // A point far out of the range: no walk from it meets the table.
    let far = -point(1_000_000);
    assert_eq!(solver.solve_dlp(&far, Some(50)), Err(SolveError::TimedOut));
    for x in 0..64u64 {
        match solver.solve_dlp(&point(x), Some(200)) {
            Ok(found) => assert_eq!(found, x),
            Err(e) => assert_eq!(e, SolveError::TimedOut),
        }
    }
}

#[test]
fn bl12_parameters_for_each_number_of_bits() {
    assert!(matches!(
        Parameters::for_secret_bits(0),
        Err(TableError::InvalidParameter)
    ));
    assert!(matches!(
        Parameters::for_secret_bits(65),
        Err(TableError::InvalidParameter)
    ));
    assert!(matches!(
        Parameters::for_secret_bits(255),
        Err(TableError::InvalidParameter)
    ));
    for bits in 1..=64u8 {
        let p = Parameters::for_secret_bits(bits).unwrap();
        assert_eq!(p.secret_size, bits);
        assert!(p.check());
        if bits < 8 {
            assert_eq!(p.i, 16);
            assert_eq!(p.W, if bits <= 3 { 2 } else { 4 });
            assert_eq!(p.N, 1 << bits);
            assert_eq!(p.R, if bits <= 4 { 4 } else { 8 });
        } else {
            assert_eq!(p.i, 8);
            let exponent = ((bits as u32 + 1) / 3).clamp(4, 20);
            assert_eq!(p.W, 1 << exponent);
            let n = match bits {
                8..=16 => 1000,
                17..=24 => 2000,
                25..=32 => 4000,
                33..=40 => 20000,
                41..=48 => 40000,
                _ => 80000,
            };
            assert_eq!(p.N, n);
            let r = match bits {
                8..=16 => 64,
                17..=32 => 128,
                _ => 256,
            };
            assert_eq!(p.R, r);
        }
    }
    assert!(same(&Parameters::for_secret_bits(1).unwrap(), &parameters(16, 2, 2, 4, 1)));
    assert!(same(&Parameters::for_secret_bits(7).unwrap(), &parameters(16, 4, 128, 8, 7)));
    assert!(same(&Parameters::for_secret_bits(8).unwrap(), &parameters(8, 16, 1000, 64, 8)));
    assert!(same(&Parameters::for_secret_bits(32).unwrap(), &parameters(8, 2048, 4000, 128, 32)));
    assert!(same(&Parameters::for_secret_bits(48).unwrap(), &parameters(8, 65536, 40000, 256, 48)));
    assert!(same(&Parameters::for_secret_bits(64).unwrap(), &parameters(8, 1 << 20, 80000, 256, 64)));
}

#[test]
fn bl12_preset_parameters() {
    assert!(same(&Presets::Bl12_16.parameters(), &parameters(8, 8, 8000, 64, 16)));
    assert!(same(&Presets::Bl12_32.parameters(), &parameters(8, 2048, 4000, 128, 32)));
    assert!(same(&Presets::Bl12_48.parameters(), &parameters(8, 65536, 40000, 128, 48)));
    for preset in [Presets::Bl12_16, Presets::Bl12_32, Presets::Bl12_48] {
        assert!(preset.parameters().check());
    }
    assert_eq!(PrecomputedTables::BernsteinLange32.max_num_bits(), 32);
    assert_eq!(
        PrecomputedTables::for_bits(32),
        Some(PrecomputedTables::BernsteinLange32)
    );
    assert_eq!(PrecomputedTables::for_bits(48), None);
}

#[test]
fn bl12_parameters_that_cannot_be_run_on() {
    assert!(parameters(8, 8, 100, 4, 16).check());
    assert!(parameters(1, 1, 0, 1, 1).check());
    assert!(!parameters(8, 8, 100, 4, 0).check());
    assert!(!parameters(8, 8, 100, 4, 65).check());
    assert!(!parameters(0, 8, 100, 4, 16).check());
    assert!(!parameters(8, 0, 100, 4, 16).check());
    assert!(!parameters(8, 12, 100, 4, 16).check());
    assert!(!parameters(8, 8, 100, 0, 16).check());
    assert!(!parameters(8, 8, 100, 6, 16).check());
    assert!(!parameters(8, 8, 1 << 32, 4, 16).check());
    assert!(!parameters(8, 8, 100, 1 << 32, 16).check());
    assert!(!parameters(1 << 40, 1 << 40, 100, 4, 16).check());
    assert!(parameters(1 << 23, 1 << 40, 100, 4, 16).check());
    for bad in [parameters(8, 12, 100, 4, 16), parameters(8, 8, 100, 4, 0)] {
        assert!(matches!(Table::generate(&bad), Err(TableError::InvalidParameter)));
        assert!(matches!(Bl12::from_parameters(bad), Err(TableError::InvalidParameter)));
    }
}

#[test]
fn bl12_powers_of_two_and_logarithms() {
    assert!(!check_power_of_two(0));
    for e in 0..64u32 {
        assert!(check_power_of_two(1 << e));
        assert_eq!(floor_log2_of(1 << e), e as u8);
        if e > 1 {
            assert!(!check_power_of_two((1 << e) - 1));
            assert!(!check_power_of_two((1 << e) + 1));
            assert_eq!(floor_log2_of((1 << e) - 1), e as u8 - 1);
            assert_eq!(floor_log2_of((1 << e) + 1), e as u8);
        }
    }
    assert_eq!(floor_log2_of(u64::MAX), 63);
    assert_eq!(floor_log2_of(1), 0);
    assert_eq!(floor_log2_of(3), 1);
    assert_eq!(floor_log2_of(1000), 9);
}

#[test]
fn bl12_step_scalar_sizes() {
    // Below 8 bits: the number of bits itself.
    for bits in 1..8u8 {
        assert_eq!(Parameters::for_secret_bits(bits).unwrap().step_scalar_size(), bits);
    }
    // 16 bits, W = 32: 2^16 / 4 / 32 = 512, of logarithm 9.
    assert_eq!(Parameters::for_secret_bits(16).unwrap().step_scalar_size(), 9);
    // 32 bits, W = 2048: 2^32 / 4 / 2^11 = 2^19.
    assert_eq!(Parameters::for_secret_bits(32).unwrap().step_scalar_size(), 19);
    // 64 bits count as 62: 2^62 / 4 / 2^20 = 2^40.
    assert_eq!(Parameters::for_secret_bits(64).unwrap().step_scalar_size(), 40);
    // The preset for 16 bits, W = 8: 2^16 / 4 / 8 = 2^11.
    assert_eq!(Presets::Bl12_16.parameters().step_scalar_size(), 11);
    // A quotient of 1 and a quotient of 0 both give 1.
    assert_eq!(parameters(8, 1 << 6, 10, 4, 8).step_scalar_size(), 1);
    assert_eq!(parameters(8, 1 << 7, 10, 4, 8).step_scalar_size(), 1);
    assert_eq!(parameters(8, 1 << 5, 10, 4, 8).step_scalar_size(), 1);
    assert_eq!(parameters(8, 1 << 4, 10, 4, 8).step_scalar_size(), 2);
}

#[test]
fn bl12_last_word_predicate_and_step_number() {
    let mut encoding = [0u8; 32];
    for (at, b) in encoding.iter_mut().enumerate() {
        *b = at as u8;
    }
    // The last eight bytes, most significant first.
    assert_eq!(get_last_point_bytes(&encoding), 0x1819_1a1b_1c1d_1e1f);
    let p = parameters(8, 16, 10, 8, 16);
    assert_eq!(hash(&encoding, &p), 7);
    assert!(!is_distinguished(&encoding, &p));
    encoding[31] = 0x10;
    assert_eq!(hash(&encoding, &p), 0);
    assert!(is_distinguished(&encoding, &p));
    encoding[31] = 0x08;
    assert!(!is_distinguished(&encoding, &p));
    assert!(is_distinguished(&encoding, &parameters(8, 8, 10, 8, 16)));
    // With W = 1 every point is distinguished; with R = 1 the step is 0.
    assert!(is_distinguished(&[0xff; 32], &parameters(8, 1, 10, 1, 16)));
    assert_eq!(hash(&[0xff; 32], &parameters(8, 1, 10, 1, 16)), 0);
    assert_eq!(get_last_point_bytes(&[0xff; 32]), u64::MAX);
}

#[test]
fn bl12_generated_table_is_sound() {
    for p in [
        parameters(16, 4, 16, 4, 4),
        parameters(8, 8, 200, 16, 12),
        Parameters::for_secret_bits(6).unwrap(),
    ] {
        let table = Table::generate(&p).unwrap();
        assert_eq!(table.step_scalars.len() as u64, p.R);
        assert_eq!(table.step_points.len() as u64, p.R);
        let bits = p.step_scalar_size();
        for (scalar, step) in table.step_scalars.iter().zip(table.step_points.iter()) {
            assert_eq!(*step, RISTRETTO_BASEPOINT_POINT * scalar);
            let value = utils::scalar_to_u64(scalar);
            assert_eq!(*scalar, Scalar::from(value));
            assert!(1 <= value && value <= 1 << bits);
        }
        let entries = table.distinguished_points.len();
        assert!(entries as u64 <= p.N);
        assert!(entries > 0);
        for at in 0..entries {
            let key = table.distinguished_points.key_at(at);
            let value = table.distinguished_points.value_at(at);
            // Every key is distinguished against the table's own W ...
            assert!(is_distinguished(key, &p));
            assert_eq!(get_last_point_bytes(key) & (p.W - 1), 0);
            // ... and is the point of the logarithm that the table gives.
            assert_eq!(*key, RistrettoPoint::mul_base(value).compress().to_bytes());
            // No key stands twice.
            assert_eq!(table.distinguished_points.position(key), Some(at));
        }
    }
}

#[test]
fn bl12_walk_ends_on_the_first_distinguished_point() {
    let p = parameters(8, 8, 50, 16, 12);
    let solver = Bl12::from_parameters(p).unwrap();
    for start in [0u64, 1, 77, 4000] {
        let mut w = point(start);
        let mut distance = Scalar::from(start);
        let mut expected = None;
        for _ in 0..64 {
            let encoding = w.compress().to_bytes();
            if get_last_point_bytes(&encoding) & 7 == 0 {
                expected = Some((encoding, distance));
                break;
            }
            let h = (get_last_point_bytes(&encoding) & 15) as usize;
            distance += solver.table.step_scalars[h];
            w += solver.table.step_points[h];
        }
        let walked = solver.table.walk_to_distinguished(
            &solver.parameters,
            &point(start),
            &Scalar::from(start),
        );
        assert_eq!(walked, expected);
        if let Some((encoding, distance)) = walked {
            assert_eq!(
                CompressedRistretto(encoding).decompress().unwrap(),
                RistrettoPoint::mul_base(&distance)
            );
        }
    }
}

#[test]
fn bl12_walk_from_gives_the_logarithm_or_nothing() {
    let solver = Bl12::new_and_compute_table(5).unwrap();
    assert_eq!(solver.offset_bits(), 1);
    let mut found = 0;
    for x in 0..32u64 {
        for offset in 0..2u64 {
            match solver.walk_from(&point(x), &Scalar::from(offset)) {
                Some(log) => {
                    assert_eq!(log, x);
                    found += 1;
                }
                None => {}
            }
            // The same walk gives the same result.
            assert_eq!(
                solver.walk_from(&point(x), &Scalar::from(offset)),
                solver.walk_from(&point(x), &Scalar::from(offset))
            );
        }
    }
    assert!(found > 0);
}

#[test]
fn bl12_offset_bits() {
    for (bits, expected) in [(1u8, 1u8), (8, 1), (9, 1), (10, 2), (16, 8), (32, 24), (64, 56)] {
        let solver = Bl12 {
            parameters: parameters(8, 8, 0, 4, bits),
            table: Table::generate(&parameters(8, 8, 0, 4, bits)).unwrap(),
        };
        assert_eq!(solver.offset_bits(), expected);
    }
}

#[test]
fn bl12_serialization_round_trip_solves_alike() {
    let solver = Bl12::from_parameters(parameters(8, 8, 300, 16, 12)).unwrap();
    let bytes = solver.to_bytes();
    let entries = solver.table.distinguished_points.len();
    assert_eq!(bytes.len(), 57 + 64 * 16 + 64 * entries);
    assert_eq!(&bytes[0..8], &8u64.to_le_bytes());
    assert_eq!(&bytes[8..16], &8u64.to_le_bytes());
    assert_eq!(&bytes[16..24], &300u64.to_le_bytes());
    assert_eq!(&bytes[24..32], &16u64.to_le_bytes());
    assert_eq!(bytes[32], 12);
    assert_eq!(&bytes[33..41], &16u64.to_le_bytes());
    assert_eq!(&bytes[41..73], &solver.table.step_scalars[0].to_bytes());
    assert_eq!(&bytes[553..561], &16u64.to_le_bytes());
    assert_eq!(&bytes[561..593], &solver.table.step_points[0].compress().to_bytes());
    assert_eq!(&bytes[1073..1081], &(entries as u64).to_le_bytes());
    assert_eq!(&bytes[1081..1113], solver.table.distinguished_points.key_at(0));
    assert_eq!(
        &bytes[1113..1145],
        &solver.table.distinguished_points.value_at(0).to_bytes()
    );

    let loaded = Bl12::from_bytes(&bytes).unwrap();
    assert!(same(&loaded.parameters, &solver.parameters));
    assert_eq!(loaded.table.step_scalars, solver.table.step_scalars);
    assert_eq!(loaded.table.step_points, solver.table.step_points);
    assert_eq!(loaded.table.distinguished_points.len(), entries);
    for at in 0..entries {
        assert_eq!(
            loaded.table.distinguished_points.key_at(at),
            solver.table.distinguished_points.key_at(at)
        );
        assert_eq!(
            loaded.table.distinguished_points.value_at(at),
            solver.table.distinguished_points.value_at(at)
        );
    }
    assert_eq!(loaded.to_bytes(), bytes);
    for x in (0..4096u64).step_by(7) {
        for offset in [0u64, 1, 5, 15] {
            assert_eq!(
                loaded.walk_from(&point(x), &Scalar::from(offset)),
                solver.walk_from(&point(x), &Scalar::from(offset))
            );
        }
    }
}

#[test]
fn bl12_from_bytes_rejects_what_is_no_solver() {
    let solver = Bl12::from_parameters(parameters(8, 8, 20, 4, 10)).unwrap();
    let bytes = solver.to_bytes();
    let rejected = |bytes: &[u8]| matches!(Bl12::from_bytes(bytes), Err(TableError::CorruptTable));
    assert!(!rejected(&bytes));
    assert!(rejected(&[]));
    assert!(rejected(&bytes[..56]));
    assert!(rejected(&bytes[..bytes.len() - 1]));
    let mut longer = bytes.clone();
    longer.push(0);
    assert!(rejected(&longer));
    // W is no power of two.
    let mut wrong = bytes.clone();
    wrong[8] = 7;
    assert!(rejected(&wrong));
    // The number of bits is 0.
    let mut wrong = bytes.clone();
    wrong[32] = 0;
    assert!(rejected(&wrong));
    // The list of step scalars is not R long.
    let mut wrong = bytes.clone();
    wrong[33] = 3;
    assert!(rejected(&wrong));
    // The list of step points is not R long.
    let mut wrong = bytes.clone();
    wrong[41 + 32 * 4] = 5;
    assert!(rejected(&wrong));
    // A step scalar is not below the group order.
    let mut wrong = bytes.clone();
    for b in &mut wrong[41..73] {
        *b = 0xff;
    }
    assert!(rejected(&wrong));
    // A step point encodes no group element.
    let mut wrong = bytes.clone();
    for b in &mut wrong[49 + 32 * 4..49 + 32 * 4 + 32] {
        *b = 0xff;
    }
    assert!(rejected(&wrong));
    // A logarithm is not below the group order.
    let at = 57 + 64 * 4;
    let mut wrong = bytes.clone();
    for b in &mut wrong[at + 32..at + 64] {
        *b = 0xff;
    }
    assert!(rejected(&wrong));
    // A preset takes what the bytes hold, whatever its own parameters are.
    let loaded = Bl12::from_preset(Presets::Bl12_16, &bytes).unwrap();
    assert!(same(&loaded.parameters, &solver.parameters));
    assert_eq!(loaded.to_bytes(), bytes);
    assert!(matches!(
        Bl12::from_preset(Presets::Bl12_16, &bytes[1..]),
        Err(TableError::CorruptTable)
    ));
    // Another number of bits than the tag's.
    assert!(matches!(
        Bl12::from_precomputed_table(PrecomputedTables::BernsteinLange32, &bytes),
        Err(TableError::CorruptTable)
    ));
}

#[test]
fn bl12_algorithm_name() {
    assert_eq!(Bl12::algorithm_name(), "BL12");
}

#[test]
fn bl12_solve_with_offsets_takes_the_first_walk_that_succeeds() {
    let solver = Bl12::new_and_compute_table(6).unwrap();
    let offsets: Vec<Scalar> = (0..8u64).map(Scalar::from).collect();
    assert_eq!(
        solver.solve_with_offsets(&RistrettoPoint::identity(), &Vec::new()),
        Ok(0)
    );
    for x in 1..64u64 {
        let walks: Vec<Option<u64>> = offsets
            .iter()
            .map(|offset| solver.walk_from(&point(x), offset))
            .collect();
        let expected = match walks.iter().flatten().next() {
            Some(found) => Ok(*found),
            None => Err(SolveError::TimedOut),
        };
        assert_eq!(solver.solve_with_offsets(&point(x), &offsets), expected);
        if let Ok(found) = expected {
            assert_eq!(found, x);
        }
        // The same offsets give the same result.
        assert_eq!(
            solver.solve_with_offsets(&point(x), &offsets),
            solver.solve_with_offsets(&point(x), &offsets)
        );
        assert_eq!(
            solver.solve_with_offsets(&point(x), &Vec::new()),
            Err(SolveError::TimedOut)
        );
    }
}

#[test]
fn bl12_solve_with_timeout_finds_the_logarithm_or_times_out() {
    let solver = Bl12::new_and_compute_table(5).unwrap();
    assert_eq!(solver.solve_with_timeout(&RistrettoPoint::identity(), 0), Ok(0));
    assert_eq!(
        solver.solve_with_timeout(&point(9), 0),
        Err(SolveError::TimedOut)
    );
    for x in 0..32u64 {
        assert_eq!(solver.solve_with_timeout(&point(x), 10_000), Ok(x));
    }
}

#[test]
fn bl12_record_walks_puts_the_ends_of_the_walks_into_the_map() {
    // A table with its steps and an empty map.
    let p = parameters(8, 8, 0, 16, 12);
    let mut table = Table::generate(&p).unwrap();
    assert_eq!(table.distinguished_points.len(), 0);
    let starts: Vec<Scalar> = (0..60u64).map(|r| Scalar::from(r * 67)).collect();

    // What the walks from the starts leave, one after the other.
    let mut expected: Vec<([u8; 32], Scalar)> = Vec::new();
    for start in &starts {
        let from = RistrettoPoint::mul_base(start);
        if let Some((key, value)) = table.walk_to_distinguished(&p, &from, start) {
            match expected.iter().position(|entry| entry.0 == key) {
                Some(at) => expected[at].1 = value,
                None => expected.push((key, value)),
            }
        }
    }
    assert!(!expected.is_empty());

    table.record_walks(&p, &starts);
    assert_eq!(table.distinguished_points.len(), expected.len());
    for (at, (key, value)) in expected.iter().enumerate() {
        assert_eq!(table.distinguished_points.key_at(at), key);
        assert_eq!(table.distinguished_points.value_at(at), value);
        assert_eq!(*key, RistrettoPoint::mul_base(value).compress().to_bytes());
    }

    // One more walk from a start that was walked from changes nothing.
    let before = table.distinguished_points.len();
    table.record_walk(&p, &starts[3]);
    assert_eq!(table.distinguished_points.len(), before);
    for (at, (key, value)) in expected.iter().enumerate() {
        assert_eq!(table.distinguished_points.key_at(at), key);
        assert_eq!(table.distinguished_points.value_at(at), value);
    }
}

#[test]
fn bl12_generate_stops_at_the_number_of_points_aimed_at() {
    // Every point is distinguished: each walk ends where it starts, and
    // four walks from distinct starts fill a table that aims at four points.
    let p = parameters(1, 1, 4, 1, 3);
    let table = Table::generate(&p).unwrap();
    assert_eq!(table.distinguished_points.len(), 4);
    for at in 0..4 {
        let value = table.distinguished_points.value_at(at);
        assert!(utils::scalar_to_u64(value) < 8);
        assert_eq!(
            *table.distinguished_points.key_at(at),
            RistrettoPoint::mul_base(value).compress().to_bytes()
        );
    }
    // With more points aimed at than the range has, the walks run out.
    let p = parameters(1, 1, 20, 1, 3);
    let table = Table::generate(&p).unwrap();
    assert_eq!(table.distinguished_points.len(), 8);
}

#[test]
#[allow(deprecated)]
fn bl12_try_solve_with_offsets_wants_reduced_offsets() {
    let solver = Bl12::new_and_compute_table(5).unwrap();
    let offsets: Vec<Scalar> = (0..4u64).map(Scalar::from).collect();
    for x in 0..32u64 {
        assert_eq!(
            solver.try_solve_with_offsets(&point(x), &offsets),
            Some(solver.solve_with_offsets(&point(x), &offsets))
        );
    }
    let mut with_order = offsets.clone();
    with_order.push(curve25519_dalek::constants::BASEPOINT_ORDER);
    assert_eq!(solver.try_solve_with_offsets(&point(7), &with_order), None);
    assert!(utils::are_reduced(&offsets));
    assert!(!utils::are_reduced(&with_order));
    assert!(utils::are_reduced(&Vec::new()));
}

#[test]
fn bl12_solve_with_no_time_times_out_at_once() {
    let solver = Bl12::new_and_compute_table(6).unwrap();
    for x in 1..64u64 {
        assert_eq!(solver.solve_dlp(&point(x), Some(0)), Err(SolveError::TimedOut));
        assert_eq!(solver.solve_with_timeout(&point(x), 0), Err(SolveError::TimedOut));
    }
    assert_eq!(solver.solve_dlp(&point(0), Some(0)), Ok(0));
}

#[test]
fn bl12_from_bytes_takes_the_later_of_two_entries_for_a_point() {
    let solver = Bl12::from_parameters(parameters(8, 8, 20, 4, 10)).unwrap();
    let n = solver.table.distinguished_points.len();
    assert!(n >= 3);
    let bytes = solver.to_bytes();
    let at = 57 + 64 * 4;
    // The second entry gets the point of the first.
    let mut repeated = bytes.clone();
    let first: Vec<u8> = repeated[at..at + 32].to_vec();
    repeated[at + 64..at + 96].copy_from_slice(&first);
    let loaded = Bl12::from_bytes(&repeated).unwrap();
    let map = &loaded.table.distinguished_points;
    assert_eq!(map.len(), n - 1);
    // The point keeps the place of its first entry and has the value of
    // its second.
    assert_eq!(map.key_at(0)[..], first[..]);
    assert_eq!(map.value_at(0).to_bytes()[..], repeated[at + 96..at + 128]);
    assert_ne!(map.value_at(0).to_bytes()[..], repeated[at + 32..at + 64]);
    // The other entries follow in their order.
    for k in 2..n {
        assert_eq!(map.key_at(k - 1)[..], bytes[at + 64 * k..at + 64 * k + 32]);
        assert_eq!(map.value_at(k - 1).to_bytes()[..], bytes[at + 64 * k + 32..at + 64 * k + 64]);
    }
    // Stored again, the solver has one entry less, and is read back as it is.
    let again = loaded.to_bytes();
    assert_eq!(again.len(), bytes.len() - 64);
    assert_eq!(Bl12::from_bytes(&again).unwrap().to_bytes(), again);
    // The last entry gets the point of the first: its value goes to the
    // first place.
    let mut repeated = bytes.clone();
    let last = at + 64 * (n - 1);
    repeated[last..last + 32].copy_from_slice(&first);
    let loaded = Bl12::from_bytes(&repeated).unwrap();
    let map = &loaded.table.distinguished_points;
    assert_eq!(map.len(), n - 1);
    assert_eq!(map.key_at(0)[..], first[..]);
    assert_eq!(map.value_at(0).to_bytes()[..], bytes[last + 32..last + 64]);
    assert_eq!(map.key_at(1)[..], bytes[at + 64..at + 96]);
}

#[test]
fn bl12_step_of_draw_is_the_draw_plus_one_and_its_point() {
    for (draw, bits) in [(0u64, 1u8), (1, 1), (5, 3), (7, 3), (1 << 29, 30), ((1 << 63) - 1, 63)] {
        let (scalar, step) = Table::step_of_draw(&Scalar::from(draw), bits);
        assert_eq!(scalar, Scalar::from(draw + 1));
        assert_eq!(step, point(draw + 1));
        assert!(utils::is_reduced(&scalar));
    }
}

#[test]
fn bl12_s_values_init_draws_steps_of_the_size_of_the_parameters() {
    // 2^16 / 4 / 16 = 2^10: the random part of a step has 10 bits.
    let p = parameters(8, 16, 100, 64, 16);
    assert_eq!(p.step_scalar_size(), 10);
    let (scalars, points) = Table::s_values_init(&p).unwrap();
    assert_eq!(scalars.len(), 64);
    assert_eq!(points.len(), 64);
    let mut above_one = false;
    for h in 0..64 {
        let value = utils::scalar_to_u64(&scalars[h]);
        assert_eq!(scalars[h], Scalar::from(value));
        assert!(1 <= value && value <= 1024);
        assert_eq!(points[h], point(value));
        above_one = above_one || value > 1;
    }
    assert!(above_one);
}

#[test]
fn bl12_limit_reached_where_there_is_a_limit_and_the_time_is_up() {
    assert!(!Bl12::limit_reached(0, None));
    assert!(!Bl12::limit_reached(u128::MAX, None));
    assert!(Bl12::limit_reached(0, Some(0)));
    assert!(!Bl12::limit_reached(4, Some(5)));
    assert!(Bl12::limit_reached(5, Some(5)));
    assert!(Bl12::limit_reached(6, Some(5)));
    assert!(!Bl12::limit_reached(u64::MAX as u128 - 1, Some(u64::MAX)));
    assert!(Bl12::limit_reached(u64::MAX as u128, Some(u64::MAX)));
    assert!(Bl12::limit_reached(u64::MAX as u128 + 1, Some(u64::MAX)));
}

#[test]
fn bl12_start_of_walk_is_the_point_moved_by_the_offset() {
    assert_eq!(Bl12::start_of_walk(&point(40), &Scalar::from(2u64)), point(42));
    assert_eq!(Bl12::start_of_walk(&point(0), &Scalar::from(0u64)), RistrettoPoint::identity());
    assert_eq!(Bl12::start_of_walk(&point(1), &-Scalar::from(1u64)), RistrettoPoint::identity());
}

#[test]
fn bl12_for_48_bits_finds_the_logarithm_where_a_walk_of_the_table_began() {
    // A table for 48 bits of a single walk, which starts on the point of
    // the instance moved by an offset: the solver's walk with that offset
    // goes the same way, ends on the table's point, and gives the logarithm.
    let p = Presets::Bl12_48.parameters();
    let (step_scalars, step_points) = Table::s_values_init(&p).unwrap();
    let mut table = Table { step_points, step_scalars, distinguished_points: PointMap::new() };
    let (sk, pk) = utils::generate_dlog_instance(48).unwrap();
    let sk_u64 = utils::scalar_to_u64(&sk);
    assert!(sk_u64 < 1 << 48);
    let mut offset = Scalar::from(1u64);
    for _ in 0..8 {
        table.record_walk(&p, &(sk + offset));
        if table.distinguished_points.len() > 0 {
            break;
        }
        offset += Scalar::from(1u64);
    }
    assert_eq!(table.distinguished_points.len(), 1);
    let solver = Bl12 { parameters: p, table };
    assert_eq!(solver.walk_from(&pk, &offset), Some(sk_u64));
    assert_eq!(solver.solve_with_offsets(&pk, &vec![offset]), Ok(sk_u64));
    // Stored and read back, the solver gives the same.
    let loaded = Bl12::from_preset(Presets::Bl12_48, &solver.to_bytes()).unwrap();
    assert_eq!(loaded.max_num_bits(), 48);
    assert_eq!(loaded.walk_from(&pk, &offset), Some(sk_u64));
}
