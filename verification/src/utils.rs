//! Scalars from and to integers, and random instances of the problem.

use crate::bytes::read_le_u64;
use crate::error::RandomScalarError;
use crate::group::point_log;
use crate::group::point_mul_base;
use crate::group::reduced;
use crate::group::scalar_from_canonical_bytes;
use crate::group::scalar_repr;
use crate::group::scalar_to_bytes;
use curve25519_dalek::ristretto::RistrettoPoint;
use curve25519_dalek::scalar::Scalar;
use rand_core::OsRng;
use rand_core::RngCore;
use vstd::arithmetic::power2::lemma2_to64;
use vstd::arithmetic::power2::lemma2_to64_rest;
use vstd::arithmetic::power2::pow2;
use vstd::bits::lemma_u64_shl_is_mul;
use vstd::prelude::*;

verus! {

/// Converts a u64 to a scalar.
///
/// `Scalar::from`: the scalar that holds the integer `value`.
#[verifier::external_body]
pub fn u64_to_scalar(value: u64) -> (r: Scalar)
    ensures
        scalar_repr(r) == value,
{
    Scalar::from(value)
}

/// `OsRng::try_fill_bytes`: eight bytes from the operating system's random
/// source, as an integer, or `None` where the source fails.
#[verifier::external_body]
fn os_random_u64() -> (r: Option<u64>) {
    let mut buffer = [0u8; 8];
    match OsRng.try_fill_bytes(&mut buffer) {
        Ok(()) => Some(u64::from_le_bytes(buffer)),
        Err(_) => None,
    }
}

/// Whether a scalar holds an integer below the group order.
pub fn is_reduced(scalar: &Scalar) -> (r: bool)
    ensures
        r == reduced(*scalar),
{
    let bytes = scalar_to_bytes(scalar);
    scalar_from_canonical_bytes(&bytes).is_some()
}

/// Each scalar of the list holds an integer below the group order.
pub open spec fn all_reduced(scalars: Seq<Scalar>) -> bool {
    forall|k: int| 0 <= k < scalars.len() ==> reduced(#[trigger] scalars[k])
}

/// Whether each scalar of a list holds an integer below the group order.
pub fn are_reduced(scalars: &Vec<Scalar>) -> (r: bool)
    ensures
        r == all_reduced(scalars@),
{
    let mut k: usize = 0;
    while k < scalars.len()
        invariant
            k <= scalars@.len(),
            forall|j: int| 0 <= j < k ==> reduced(#[trigger] scalars@[j]),
        decreases scalars@.len() - k,
    {
        if !is_reduced(&scalars[k]) {
            return false;
        }
        k += 1;
    }
    true
}

/// Converts a scalar to a u64: the low 64 bits of the integer it holds,
/// which is that integer where it is below 2^64.
pub fn scalar_to_u64(scalar: &Scalar) -> (r: u64)
    ensures
        r == scalar_repr(*scalar) % 0x1_0000_0000_0000_0000,
{
    let bytes = scalar_to_bytes(scalar);
    proof {
        crate::bytes::lemma_le_u64_bound(bytes@, 0);
        crate::bytes::lemma_low_word(bytes@);
    }
    read_le_u64(&bytes, 0)
}

/// The low `bits` bits of `raw`.
pub fn low_bits(raw: u64, bits: u8) -> (r: u64)
    requires
        bits <= 64,
    ensures
        r == (raw as nat) % pow2(bits as nat),
        r < pow2(bits as nat),
{
    proof {
        lemma2_to64();
        lemma2_to64_rest();
    }
    if bits == 64 {
        raw
    } else {
        proof {
            vstd::bits::lemma_u64_pow2_no_overflow(bits as nat);
            lemma_u64_shl_is_mul(1, bits as u64);
        }
        let modulus: u64 = 1u64 << (bits as u64);
        raw % modulus
    }
}

/// The scalar with `bits` random bits that the random integer `raw` gives:
/// its low `bits` bits.
pub fn scalar_from_random(raw: u64, bits: u8) -> (r: Scalar)
    requires
        bits <= 64,
    ensures
        scalar_repr(r) == (raw as nat) % pow2(bits as nat),
        scalar_repr(r) < pow2(bits as nat),
        reduced(r),
{
    proof {
        lemma2_to64_rest();
        if bits < 64 {
            vstd::arithmetic::power2::lemma_pow2_strictly_increases(bits as nat, 64);
        }
    }
    u64_to_scalar(low_bits(raw, bits))
}

/// Generates a random scalar in the range [0, 2^bits).
///
/// Fails where `bits` is above 64, and where the operating system gives no
/// random bytes.
pub fn generate_random_scalar(bits: u8) -> (r: Result<Scalar, RandomScalarError>)
    ensures
        bits > 64 ==> r == Err::<Scalar, RandomScalarError>(RandomScalarError::TooManyBits),
        bits <= 64 ==> r != Err::<Scalar, RandomScalarError>(RandomScalarError::TooManyBits),
        r matches Ok(s) ==> scalar_repr(s) < pow2(bits as nat) && reduced(s),
{
    if bits > 64 {
        return Err(RandomScalarError::TooManyBits);
    }
    match os_random_u64() {
        Some(raw) => Ok(scalar_from_random(raw, bits)),
        None => Err(RandomScalarError::RandomSource),
    }
}

/// Generates a random instance of the problem: a scalar `x` in the range
/// [0, 2^bits) and the point `x * G`.
pub fn generate_dlog_instance(bits: u8) -> (r: Result<(Scalar, RistrettoPoint), RandomScalarError>)
    ensures
        bits > 64 ==> r == Err::<(Scalar, RistrettoPoint), RandomScalarError>(
            RandomScalarError::TooManyBits,
        ),
        bits <= 64 ==> r != Err::<(Scalar, RistrettoPoint), RandomScalarError>(
            RandomScalarError::TooManyBits,
        ),
        r matches Ok((sk, pk)) ==> scalar_repr(sk) < pow2(bits as nat) && reduced(sk)
            && point_log(pk) == scalar_repr(sk),
{
    match generate_random_scalar(bits) {
        Ok(sk) => {
            let pk = point_mul_base(&sk);
            Ok((sk, pk))
        },
        Err(e) => Err(e),
    }
}

} // verus!
