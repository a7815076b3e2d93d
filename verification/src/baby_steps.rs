//! What the baby-step giant-step solvers share: the number of baby steps, the
//! giant step, the multiples of the generator, and the arithmetic of walking
//! down from a point in giant steps.

use crate::group::group_order;
use crate::group::point_add;
use crate::group::point_eq;
use crate::group::point_generator;
use crate::group::point_identity;
use crate::group::point_log;
use crate::group::point_mul_base;
use crate::group::scalar_neg;
use crate::utils::u64_to_scalar;
use curve25519_dalek::ristretto::RistrettoPoint;
use vstd::arithmetic::div_mod::lemma_add_mod_noop;
use vstd::arithmetic::div_mod::lemma_mod_multiples_vanish;
use vstd::arithmetic::power2::lemma2_to64;
use vstd::arithmetic::power2::lemma_pow2_adds;
use vstd::arithmetic::power2::lemma_pow2_strictly_increases;
use vstd::arithmetic::power2::pow2;
use vstd::bits::lemma_u64_shl_is_mul;
use vstd::prelude::*;

verus! {

/// The number of baby steps for logarithms of `max_num_bits` bits: 2 to the
/// power of half that number, rounded up.
pub open spec fn baby_step_count(max_num_bits: u8) -> nat {
    pow2(((max_num_bits + 1) / 2) as nat)
}

/// The logarithm of the giant step for `m` baby steps: that of `-m * G`.
pub open spec fn giant_step_log(m: nat) -> nat {
    ((group_order() - m) % (group_order() as int)) as nat
}

/// The logarithm of the point reached from one of logarithm `start` by
/// adding `steps` times a point of logarithm `giant`.
pub open spec fn after_giant_steps(start: nat, giant: nat, steps: nat) -> nat {
    (start + steps * giant) % group_order()
}

/// The logarithm of the double of a point of logarithm `k`.
pub open spec fn doubled(k: nat) -> nat {
    (2 * k) % group_order()
}

/// The square of the number of baby steps covers the range of the
/// logarithms.
pub proof fn lemma_baby_steps_cover(max_num_bits: u8)
    requires
        1 <= max_num_bits <= 32,
    ensures
        2 <= baby_step_count(max_num_bits) <= 65536,
        baby_step_count(max_num_bits) * baby_step_count(max_num_bits) >= pow2(max_num_bits as nat),
        pow2(max_num_bits as nat) >= 2,
{
    lemma_pow2_strictly_increases(0, max_num_bits as nat);
    let k = ((max_num_bits + 1) / 2) as nat;
    lemma2_to64();
    lemma_pow2_adds(k, k);
    if 1 < k {
        lemma_pow2_strictly_increases(1, k);
    }
    if k < 16 {
        lemma_pow2_strictly_increases(k, 16);
    }
    if (max_num_bits as nat) < 2 * k {
        lemma_pow2_strictly_increases(max_num_bits as nat, 2 * k);
    }
}

/// The number of baby steps for logarithms of `max_num_bits` bits.
pub fn baby_steps_for(max_num_bits: u8) -> (m: u64)
    requires
        1 <= max_num_bits <= 32,
    ensures
        m == baby_step_count(max_num_bits),
        2 <= m <= 65536,
{
    let half: u64 = ((max_num_bits + 1) / 2) as u64;
    proof {
        lemma_baby_steps_cover(max_num_bits);
        lemma_u64_shl_is_mul(1, half);
    }
    1u64 << half
}

/// A logarithm `y` below the square of `m` is reached after `y / m` giant
/// steps, a number below `m`.
pub proof fn lemma_quotient_is_a_step(y: nat, m: nat)
    requires
        0 < m,
        y < m * m,
    ensures
        y / m < m,
        (y / m) * m <= y < (y / m) * m + m,
{
    let i = y / m;
    assert(i < m && i * m <= y < i * m + m) by (nonlinear_arith)
        requires
            i == y / m,
            y < m * m,
            m > 0,
    ;
}

/// A logarithm made up of a number of giant steps below `m` and a baby step
/// below `m` is below the square of `m`.
pub proof fn lemma_steps_stay_below_square(i: int, j: int, m: int)
    requires
        0 <= i < m,
        0 <= j < m,
    ensures
        0 <= i * m + j < m * m,
        m <= 65536 ==> i * m + j < 0x1_0000_0000,
{
    assert(0 <= i * m + j < m * m) by (nonlinear_arith)
        requires
            0 <= i < m,
            0 <= j < m,
    ;
    assert(m <= 65536 ==> m * m <= 0x1_0000_0000) by (nonlinear_arith)
        requires
            0 <= m,
    ;
}

/// The number of logarithms of at most `bits` bits: 2^bits.
pub fn range_of(bits: u8) -> (r: u64)
    requires
        bits <= 32,
    ensures
        r == pow2(bits as nat),
        1 <= r <= 0x1_0000_0000,
{
    proof {
        lemma2_to64();
        if bits < 32 {
            lemma_pow2_strictly_increases(bits as nat, 32);
        }
        vstd::arithmetic::power2::lemma_pow2_pos(bits as nat);
        lemma_u64_shl_is_mul(1, bits as u64);
    }
    1u64 << (bits as u64)
}

/// One more giant step adds the giant step's logarithm.
pub proof fn lemma_one_more_giant_step(start: nat, giant: nat, steps: nat)
    ensures
        (after_giant_steps(start, giant, steps) + giant % group_order()) % group_order()
            == after_giant_steps(start, giant, steps + 1),
{
    let order = group_order() as int;
    assert((steps + 1) * giant == steps * giant + giant) by (nonlinear_arith);
    lemma_add_mod_noop((start + steps * giant) as int, giant as int, order);
}

/// After `i` giant steps of `-m * G` from `y * G`, with `i` below `m`, the
/// logarithm is below `m` exactly where `y` has the quotient `i` by `m`, and
/// it is then the remainder.
pub proof fn lemma_giant_steps_down(y: nat, m: nat, i: nat)
    requires
        y < group_order(),
        1 <= m <= 65536,
        i < m,
    ensures
        after_giant_steps(y, giant_step_log(m), i) < m <==> i * m <= y < i * m + m,
        after_giant_steps(y, giant_step_log(m), i) < m ==> after_giant_steps(
            y,
            giant_step_log(m),
            i,
        ) + i * m == y,
{
    let order = group_order() as int;
    let giant = giant_step_log(m);
    assert(giant == order - m);
    assert(i * giant == order * i - i * m) by (nonlinear_arith)
        requires
            giant == order - m,
    ;
    assert(0 <= i * m <= 65536 * 65536) by (nonlinear_arith)
        requires
            i < m,
            m <= 65536,
    ;
    lemma_mod_multiples_vanish(i as int, y - i * m, order);
    assert((y + i * giant) as int == order * i + (y - i * m));
    assert(after_giant_steps(y, giant, i) == (y - i * m) % order);
    if y >= i * m {
        assert((y - i * m) % order == y - i * m);
    } else {
        assert((y - i * m) % order == y - i * m + order);
    }
}

/// Doubling loses nothing: two group elements with the same double are the
/// same.
pub proof fn lemma_doubled_injective(a: nat, b: nat)
    requires
        a < group_order(),
        b < group_order(),
        doubled(a) == doubled(b),
    ensures
        a == b,
{
}

/// The giant step for `m` baby steps, `-m * G`.
pub fn giant_step_for(m: u64) -> (r: RistrettoPoint)
    ensures
        point_log(r) == giant_step_log(m as nat),
{
    let m_scalar = u64_to_scalar(m);
    let neg_m = scalar_neg(&m_scalar);
    point_mul_base(&neg_m)
}

/// The first `count` multiples of the generator, `0 * G` first, each from
/// the one before by one addition.
pub fn generator_multiples(count: usize) -> (r: Vec<RistrettoPoint>)
    ensures
        r@.len() == count,
        forall|j: int| 0 <= j < count ==> point_log(#[trigger] r@[j]) == j,
{
    let g = point_generator();
    let mut points: Vec<RistrettoPoint> = Vec::with_capacity(count);
    let mut current = point_identity();
    let mut j: usize = 0;
    while j < count
        invariant
            j <= count,
            points@.len() == j,
            point_log(g) == 1,
            point_log(current) == j,
            forall|k: int| 0 <= k < j ==> point_log(#[trigger] points@[k]) == k,
        decreases count - j,
    {
        points.push(current);
        current = point_add(&current, &g);
        j += 1;
    }
    points
}

/// Whether `x` is the logarithm of `pk`: whether `x * G` is `pk`.
pub fn is_dlog(x: u64, pk: &RistrettoPoint) -> (r: bool)
    ensures
        r == (point_log(*pk) == x),
{
    let candidate = point_mul_base(&u64_to_scalar(x));
    point_eq(&candidate, pk)
}

} // verus!
