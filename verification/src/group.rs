//! The Ristretto group as the verified code sees it.
//!
//! The group is cyclic of prime order, so each element is a multiple `k * G`
//! of the generator `G` for exactly one `k` below the order. The solvers are
//! stated over that `k`. What `curve25519-dalek` computes is taken on trust,
//! one function here for each of its operations that the solvers call; each
//! says what the operation does to the logarithms of its arguments.

use crate::bytes::le_u256;
use curve25519_dalek::constants::RISTRETTO_BASEPOINT_POINT;
use curve25519_dalek::ristretto::CompressedRistretto;
use curve25519_dalek::ristretto::RistrettoPoint;
use curve25519_dalek::scalar::Scalar;
use curve25519_dalek::traits::Identity;
use vstd::prelude::*;

verus! {

/// `RistrettoPoint`: an element of the group. What is inside a point is
/// hidden from the verifier; `ristretto_dlog` stands for the element.
#[verifier::external_type_specification]
#[verifier::external_body]
pub struct ExRistrettoPoint(curve25519_dalek::ristretto::RistrettoPoint);

/// `Scalar`: an integer modulo the group order. What is inside a scalar is
/// hidden from the verifier; `scalar_repr` stands for the integer.
#[verifier::external_type_specification]
#[verifier::external_body]
pub struct ExScalar(curve25519_dalek::scalar::Scalar);

/// The prime order of the Ristretto group, 2^252 + 27742317777372353535851937790883648493.
pub open spec fn group_order() -> nat {
    7237005577332262213973186563042994240857116359379907606001950938285454250989nat
}

/// The discrete logarithm of a group element to the base of the generator.
pub uninterp spec fn ristretto_dlog(p: RistrettoPoint) -> nat;

/// The integer that the 32 bytes of a scalar hold, which need not be below
/// the group order: see `reduced`.
pub uninterp spec fn scalar_repr(s: Scalar) -> nat;

/// The 32 bytes that encode the group element `k * G`.
pub uninterp spec fn ristretto_encoding(k: nat) -> Seq<u8>;

/// The group element that a point stands for, as its discrete logarithm.
///
/// It is read modulo the group order: that it lies below the order is then
/// known of every point, also of one that unverified code hands in.
pub open spec fn point_log(p: RistrettoPoint) -> nat {
    ristretto_dlog(p) % group_order()
}

/// The element of the integers modulo the group order that a scalar holds.
pub open spec fn scalar_value(s: Scalar) -> nat {
    scalar_repr(s) % group_order()
}

/// The scalar holds an integer below the group order.
pub open spec fn reduced(s: Scalar) -> bool {
    scalar_repr(s) < group_order()
}

/// `bytes` is the encoding of `k * G`, and of no other group element.
pub open spec fn encodes(bytes: Seq<u8>, k: nat) -> bool {
    &&& k < group_order()
    &&& bytes == ristretto_encoding(k)
    &&& forall|j: nat| j < group_order() && #[trigger] ristretto_encoding(j) == bytes ==> j == k
}

/// `bytes` is the encoding of some group element.
pub open spec fn is_encoding(bytes: Seq<u8>) -> bool {
    exists|k: nat| k < group_order() && #[trigger] ristretto_encoding(k) == bytes
}

/// `RistrettoPoint::identity`: the neutral element, `0 * G`.
#[verifier::external_body]
pub(crate) fn point_identity() -> (r: RistrettoPoint)
    ensures
        ristretto_dlog(r) == 0,
{
    RistrettoPoint::identity()
}

/// `RISTRETTO_BASEPOINT_POINT`: the generator `G`.
#[verifier::external_body]
pub(crate) fn point_generator() -> (r: RistrettoPoint)
    ensures
        ristretto_dlog(r) == 1,
{
    RISTRETTO_BASEPOINT_POINT
}

/// `&RistrettoPoint + &RistrettoPoint`: the sum in the group, whose
/// logarithm is the sum of the logarithms modulo the order.
#[verifier::external_body]
pub(crate) fn point_add(a: &RistrettoPoint, b: &RistrettoPoint) -> (r: RistrettoPoint)
    ensures
        ristretto_dlog(r) == (point_log(*a) + point_log(*b)) % group_order(),
{
    a + b
}

/// `RistrettoPoint == RistrettoPoint`: whether two points stand for the same
/// group element.
#[verifier::external_body]
pub(crate) fn point_eq(a: &RistrettoPoint, b: &RistrettoPoint) -> (r: bool)
    ensures
        r == (point_log(*a) == point_log(*b)),
{
    a == b
}

/// `RistrettoPoint::mul_base`: the multiple `s * G` of the generator, for
/// a scalar reduced or not.
#[verifier::external_body]
pub(crate) fn point_mul_base(s: &Scalar) -> (r: RistrettoPoint)
    ensures
        ristretto_dlog(r) == scalar_value(*s),
{
    RistrettoPoint::mul_base(s)
}

/// `RistrettoPoint::compress`: the canonical encoding of the group element,
/// which no other element shares.
#[verifier::external_body]
pub(crate) fn point_compress(p: &RistrettoPoint) -> (r: [u8; 32])
    ensures
        r@ == ristretto_encoding(point_log(*p)),
        encodes(r@, point_log(*p)),
{
    p.compress().to_bytes()
}

/// `RistrettoPoint::double_and_compress_batch`: for each point `P` of the
/// batch, the identity among them, the canonical encoding of `P + P`.
#[verifier::external_body]
pub(crate) fn double_and_compress_batch(points: &Vec<RistrettoPoint>) -> (r: Vec<[u8; 32]>)
    ensures
        r@.len() == points@.len(),
        forall|t: int|
            0 <= t < points@.len() ==> encodes(
                #[trigger] r@[t]@,
                (2 * point_log(points@[t])) % group_order(),
            ),
{
    let compressed = RistrettoPoint::double_and_compress_batch(points.iter());
    compressed.into_iter().map(|c| c.to_bytes()).collect()
}

/// `CompressedRistretto::decompress`: the point that 32 bytes encode, which
/// is the only group element with that encoding, or `None` where they are
/// the canonical encoding of no group element.
#[verifier::external_body]
pub(crate) fn point_decompress(bytes: &[u8; 32]) -> (r: Option<RistrettoPoint>)
    ensures
        match r {
            Some(p) => bytes@ == ristretto_encoding(point_log(p)) && encodes(bytes@, point_log(p)),
            None => forall|k: nat| k < group_order() ==> #[trigger] ristretto_encoding(k) != bytes@,
        },
{
    CompressedRistretto(*bytes).decompress()
}

/// `&Scalar + &Scalar`: the sum modulo the group order, for scalars that
/// are reduced. Of a sum with a scalar that is not, the source promises
/// nothing.
#[verifier::external_body]
pub(crate) fn scalar_add(a: &Scalar, b: &Scalar) -> (r: Scalar)
    requires
        reduced(*a),
        reduced(*b),
    ensures
        scalar_repr(r) == (scalar_repr(*a) + scalar_repr(*b)) % group_order(),
{
    a + b
}

/// `&Scalar - &Scalar`: the difference modulo the group order, for scalars
/// that are reduced.
#[verifier::external_body]
pub(crate) fn scalar_sub(a: &Scalar, b: &Scalar) -> (r: Scalar)
    requires
        reduced(*a),
        reduced(*b),
    ensures
        scalar_repr(r) == (scalar_repr(*a) + group_order() - scalar_repr(*b)) % (
        group_order() as int),
{
    a - b
}

/// `-&Scalar`: the negation modulo the group order, of a scalar reduced or
/// not.
#[verifier::external_body]
pub(crate) fn scalar_neg(a: &Scalar) -> (r: Scalar)
    ensures
        scalar_repr(r) == (group_order() - scalar_value(*a)) % (group_order() as int),
{
    -a
}

/// `Scalar::to_bytes`: the 32 bytes that hold the scalar's integer as it
/// is, reduced or not, least significant byte first.
#[verifier::external_body]
pub(crate) fn scalar_to_bytes(s: &Scalar) -> (r: [u8; 32])
    ensures
        le_u256(r@) == scalar_repr(*s),
{
    s.to_bytes()
}

/// `Scalar::from_canonical_bytes`: the scalar whose integer the 32 bytes
/// hold, least significant byte first, or `None` where that integer is not
/// below the group order.
#[verifier::external_body]
pub(crate) fn scalar_from_canonical_bytes(bytes: &[u8; 32]) -> (r: Option<Scalar>)
    ensures
        match r {
            Some(s) => scalar_repr(s) == le_u256(bytes@) && le_u256(bytes@) < group_order(),
            None => le_u256(bytes@) >= group_order(),
        },
{
    Scalar::from_canonical_bytes(*bytes).into()
}

} // verus!
