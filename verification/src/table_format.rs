//! The serialization that the tables of 32-byte baby steps share.
//!
//! A table is stored as its number of bits (one byte), the number `m` of
//! baby steps (eight bytes), the length of the list of baby steps (eight
//! bytes), the baby steps in order, 32 bytes each, and the 32 bytes of the
//! giant step. The value of a baby step is its place in the list.

use crate::baby_steps::baby_step_count;
use crate::baby_steps::baby_steps_for;
use crate::baby_steps::lemma_baby_steps_cover;
use crate::bytes::le_bytes;
use crate::bytes::le_u64;
use crate::bytes::lemma_le_bytes_round_trip;
use crate::bytes::lemma_le_u64_bound;
use crate::codec::concat32;
use crate::codec::get_bytes32;
use crate::codec::get_points;
use crate::codec::get_u64;
use crate::codec::lemma_split_concat;
use crate::codec::put_bytes32;
use crate::codec::put_points;
use crate::codec::put_u64;
use crate::codec::split32;
use crate::group::encodes;
use crate::group::group_order;
use crate::group::point_compress;
use crate::group::point_decompress;
use crate::group::point_log;
use crate::group::ristretto_encoding;
use crate::point_index::PointIndex;
use curve25519_dalek::ristretto::RistrettoPoint;
use vstd::prelude::*;

verus! {

/// The bytes that store a table.
pub open spec fn table_encoding(
    max_num_bits: u8,
    m: u64,
    points: Seq<Seq<u8>>,
    giant: Seq<u8>,
) -> Seq<u8> {
    seq![max_num_bits] + le_bytes(m) + le_bytes(points.len() as u64) + concat32(points) + giant
}

/// `bytes` store a table: a number of bits from 1 to 32, the number of baby
/// steps that belongs to it, as many baby steps, and a giant step that is
/// the encoding of a group element.
pub open spec fn decodable(bytes: Seq<u8>) -> bool {
    &&& bytes.len() >= 49
    &&& 1 <= bytes[0] <= 32
    &&& le_u64(bytes, 1) == baby_step_count(bytes[0])
    &&& le_u64(bytes, 9) == le_u64(bytes, 1)
    &&& bytes.len() == 49 + 32 * le_u64(bytes, 1)
    &&& exists|k: nat|
        k < group_order() && #[trigger] ristretto_encoding(k) == bytes.subrange(
            bytes.len() - 32,
            bytes.len() as int,
        )
}

/// The number of bits that `bytes` store.
pub open spec fn stored_bits(bytes: Seq<u8>) -> u8 {
    bytes[0]
}

/// The number of baby steps that `bytes` store.
pub open spec fn stored_count(bytes: Seq<u8>) -> u64 {
    le_u64(bytes, 1) as u64
}

/// The baby steps that `bytes` store.
pub open spec fn stored_points(bytes: Seq<u8>) -> Seq<Seq<u8>> {
    split32(bytes, 17, le_u64(bytes, 1))
}

/// The encoding of the giant step that `bytes` store.
pub open spec fn stored_giant(bytes: Seq<u8>) -> Seq<u8> {
    bytes.subrange(bytes.len() - 32, bytes.len() as int)
}

/// The bytes that store a table of valid shape can be decoded, and hold
/// what was stored.
pub proof fn lemma_encoding_decodes(max_num_bits: u8, points: Seq<Seq<u8>>, giant_log: nat)
    requires
        1 <= max_num_bits <= 32,
        points.len() == baby_step_count(max_num_bits),
        forall|j: int| 0 <= j < points.len() ==> (#[trigger] points[j]).len() == 32,
        giant_log < group_order(),
        ristretto_encoding(giant_log).len() == 32,
    ensures
        ({
            let bytes = table_encoding(
                max_num_bits,
                points.len() as u64,
                points,
                ristretto_encoding(giant_log),
            );
            &&& decodable(bytes)
            &&& stored_bits(bytes) == max_num_bits
            &&& stored_count(bytes) == points.len()
            &&& stored_points(bytes) == points
            &&& stored_giant(bytes) == ristretto_encoding(giant_log)
        }),
{
    lemma_baby_steps_cover(max_num_bits);
    let m = points.len() as u64;
    let giant = ristretto_encoding(giant_log);
    let head = seq![max_num_bits] + le_bytes(m) + le_bytes(m);
    let bytes = table_encoding(max_num_bits, m, points, giant);
    lemma_le_bytes_round_trip(m);
    assert(bytes =~= head + concat32(points) + giant);
    assert(head.len() == 17);
    assert(bytes.len() == 49 + 32 * m);
    assert(bytes[0] == max_num_bits);
    assert(le_u64(bytes, 1) == le_u64(le_bytes(m), 0)) by {
        assert forall|b: int| 0 <= b < 8 implies bytes[1 + b] == le_bytes(m)[b] by {
            assert(bytes[1 + b] == head[1 + b]);
        }
    }
    assert(le_u64(bytes, 9) == le_u64(le_bytes(m), 0)) by {
        assert forall|b: int| 0 <= b < 8 implies bytes[9 + b] == le_bytes(m)[b] by {
            assert(bytes[9 + b] == head[9 + b]);
        }
    }
    lemma_split_concat(head, points, giant);
    assert(stored_giant(bytes) =~= giant);
}

/// Stores a table.
pub fn encode_table(
    max_num_bits: u8,
    m: u64,
    points: &PointIndex,
    giant_step: &RistrettoPoint,
) -> (r: Vec<u8>)
    requires
        points@.len() <= u64::MAX,
    ensures
        r@ == table_encoding(
            max_num_bits,
            m,
            points@,
            ristretto_encoding(point_log(*giant_step)),
        ),
        encodes(ristretto_encoding(point_log(*giant_step)), point_log(*giant_step)),
        ristretto_encoding(point_log(*giant_step)).len() == 32,
{
    let mut out: Vec<u8> = Vec::new();
    out.push(max_num_bits);
    assert(out@ =~= seq![max_num_bits]);
    put_u64(&mut out, m);
    put_u64(&mut out, points.len() as u64);
    put_points(&mut out, points);
    let giant = point_compress(giant_step);
    put_bytes32(&mut out, &giant);
    out
}

/// Reads a table from the bytes that store it: the number of bits, the
/// number of baby steps, the baby steps and the giant step; `None` where
/// the bytes store no table.
pub fn decode_table(bytes: &[u8]) -> (r: Option<(u8, u64, PointIndex, RistrettoPoint)>)
    ensures
        r is Some <==> decodable(bytes@),
        r matches Some((max_num_bits, m, points, giant_step)) ==> {
            &&& points.wf()
            &&& max_num_bits == stored_bits(bytes@)
            &&& m == stored_count(bytes@)
            &&& points@ == stored_points(bytes@)
            &&& encodes(stored_giant(bytes@), point_log(giant_step))
        },
{
    let total: usize = bytes.len();
    if total < 49 {
        return None;
    }
    let max_num_bits: u8 = bytes[0];
    if max_num_bits < 1 || max_num_bits > 32 {
        return None;
    }
    proof {
        lemma_le_u64_bound(bytes@, 1);
        lemma_le_u64_bound(bytes@, 9);
    }
    let m: u64 = get_u64(bytes, 1);
    let count: u64 = get_u64(bytes, 9);
    if m != baby_steps_for(max_num_bits) || count != m {
        return None;
    }
    if (total - 49) as u64 != 32 * m {
        return None;
    }
    let points = get_points(bytes, 17, m as usize);
    let giant = get_bytes32(bytes, total - 32);
    match point_decompress(&giant) {
        Some(giant_step) => {
            assert(giant@ == stored_giant(bytes@));
            Some((max_num_bits, m, points, giant_step))
        },
        None => None,
    }
}

} // verus!
