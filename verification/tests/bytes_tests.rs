//! Integers as bytes, and the shared parts of the serialization.

use ristretto255_dlog::bytes::bytes_eq;
use ristretto255_dlog::bytes::read_be_u64;
use ristretto255_dlog::bytes::read_le_u64;
use ristretto255_dlog::codec::get_bytes32;
use ristretto255_dlog::codec::get_keys;
use ristretto255_dlog::codec::get_points;
use ristretto255_dlog::codec::get_u64;
use ristretto255_dlog::codec::put_bytes32;
use ristretto255_dlog::codec::put_keys;
use ristretto255_dlog::codec::put_points;
use ristretto255_dlog::codec::put_u64;
use ristretto255_dlog::point_index::PointIndex;

fn counting() -> [u8; 32] {
    let mut bytes = [0u8; 32];
    for (at, b) in bytes.iter_mut().enumerate() {
        *b = at as u8 + 1;
    }
    bytes
}

#[test]
fn read_le_u64_reads_least_significant_byte_first() {
    let bytes = counting();
    assert_eq!(read_le_u64(&bytes, 0), 0x0807_0605_0403_0201);
    assert_eq!(read_le_u64(&bytes, 1), 0x0908_0706_0504_0302);
    assert_eq!(read_le_u64(&bytes, 24), 0x201f_1e1d_1c1b_1a19);
    assert_eq!(read_le_u64(&[0xff; 32], 7), u64::MAX);
    assert_eq!(read_le_u64(&[0; 32], 7), 0);
    for at in 0..=24 {
        assert_eq!(
            read_le_u64(&bytes, at),
            u64::from_le_bytes(bytes[at..at + 8].try_into().unwrap())
        );
    }
}

#[test]
fn read_be_u64_reads_most_significant_byte_first() {
    let bytes = counting();
    assert_eq!(read_be_u64(&bytes, 0), 0x0102_0304_0506_0708);
    assert_eq!(read_be_u64(&bytes, 24), 0x191a_1b1c_1d1e_1f20);
    assert_eq!(read_be_u64(&[0xff; 32], 3), u64::MAX);
    for at in 0..=24 {
        assert_eq!(
            read_be_u64(&bytes, at),
            u64::from_be_bytes(bytes[at..at + 8].try_into().unwrap())
        );
    }
}

#[test]
fn bytes_eq_compares_all_bytes() {
    let a = counting();
    let mut b = counting();
    assert!(bytes_eq(&a, &b));
    b[31] = 0;
    assert!(!bytes_eq(&a, &b));
    b[31] = a[31];
    b[0] = 0;
    assert!(!bytes_eq(&a, &b));
    assert!(bytes_eq(&[0; 32], &[0; 32]));
}

#[test]
fn put_u64_appends_eight_bytes_that_get_u64_reads_back() {
    let mut out = vec![0xaa];
    for x in [0u64, 1, 0xff, 0x100, 0x0102_0304_0506_0708, u64::MAX, 1 << 63] {
        let at = out.len();
        put_u64(&mut out, x);
        assert_eq!(out.len(), at + 8);
        assert_eq!(&out[at..], &x.to_le_bytes());
        assert_eq!(get_u64(&out, at), x);
    }
    assert_eq!(out[0], 0xaa);
    assert_eq!(get_u64(&out, 1), 0);
    assert_eq!(get_u64(&out, 2), 1 << 56);
}

#[test]
fn put_bytes32_appends_what_get_bytes32_reads_back() {
    let mut out = vec![1, 2, 3];
    put_bytes32(&mut out, &counting());
    put_bytes32(&mut out, &[0x77; 32]);
    assert_eq!(out.len(), 67);
    assert_eq!(&out[..3], &[1, 2, 3]);
    assert_eq!(get_bytes32(&out, 3), counting());
    assert_eq!(get_bytes32(&out, 35), [0x77; 32]);
    assert_eq!(get_bytes32(&out, 4)[..31], counting()[1..]);
    assert_eq!(get_bytes32(&out, 4)[31], 0x77);
}

#[test]
fn put_keys_and_get_keys_are_inverse() {
    let keys = vec![0u64, 1, u64::MAX, 0x1122_3344_5566_7788];
    let mut out = vec![9u8; 5];
    put_keys(&mut out, &keys);
    assert_eq!(out.len(), 5 + 32);
    assert_eq!(&out[5..13], &[0; 8]);
    assert_eq!(&out[29..37], &0x1122_3344_5566_7788u64.to_le_bytes());
    assert_eq!(get_keys(&out, 5, 4), keys);
    assert_eq!(get_keys(&out, 13, 2), vec![1, u64::MAX]);
    assert_eq!(get_keys(&out, 0, 0), Vec::<u64>::new());
    let before = out.clone();
    put_keys(&mut out, &Vec::new());
    assert_eq!(out, before);
}

#[test]
fn put_points_and_get_points_are_inverse() {
    let mut points = PointIndex::new();
    points.push(counting());
    points.push([5; 32]);
    points.push(counting());
    let mut out = vec![0u8; 2];
    put_points(&mut out, &points);
    assert_eq!(out.len(), 2 + 96);
    assert_eq!(&out[2..34], &counting());
    assert_eq!(&out[34..66], &[5; 32]);
    assert_eq!(&out[66..98], &counting());
    let read = get_points(&out, 2, 3);
    assert_eq!(read.len(), 3);
    for at in 0..3 {
        assert_eq!(read.key(at), points.key(at));
    }
    assert_eq!(read.find(&counting()), Some(2));
    assert_eq!(get_points(&out, 34, 1).find(&[5; 32]), Some(0));
    assert_eq!(get_points(&out, 0, 0).len(), 0);
}
