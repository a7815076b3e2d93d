#![allow(non_snake_case)]

//! The solver of Bernstein and Lange ("Computing small discrete logarithms
//! faster", 2012).
//!
//! A walk goes from a point to the next by adding one of a few fixed step
//! points, chosen by the encoding of the point it stands on, until it stands
//! on a distinguished point: one whose encoding has its low bits zero. Two
//! walks that meet stay together and end at the same distinguished point.
//! The table holds distinguished points that walks from points of known
//! logarithm ended on, each with its logarithm. To solve `Y = x * G`, walks
//! start from `Y + r * G` for random `r`; a walk that ends on a point of the
//! table gives `x` as the table's logarithm less the distance walked.

pub mod precomputed_tables;
pub mod presets;
pub mod storage;

use crate::baby_steps::is_dlog;
use crate::bytes::be_u64;
use crate::bytes::lemma_le_u64_bound;
use crate::bytes::read_be_u64;
use crate::clock::elapsed_millis;
use crate::clock::now;
use crate::error::SolveError;
use crate::error::TableError;
use crate::group::encodes;
use crate::group::group_order;
use crate::group::point_add;
use crate::group::point_compress;
use crate::group::point_eq;
use crate::group::point_identity;
use crate::group::point_log;
use crate::group::point_mul_base;
use crate::group::reduced;
use crate::group::ristretto_encoding;
use crate::group::scalar_add;
use crate::group::scalar_repr;
use crate::group::scalar_sub;
use crate::group::scalar_value;
use crate::point_index::occurs;
use crate::point_map::PointMap;
use crate::traits::DiscreteLogSolver;
use crate::utils::all_reduced;
use crate::utils::are_reduced;
use crate::utils::generate_random_scalar;
use crate::utils::scalar_to_u64;
use crate::utils::u64_to_scalar;
use curve25519_dalek::ristretto::RistrettoPoint;
use curve25519_dalek::scalar::Scalar;
use vstd::arithmetic::power2::lemma2_to64;
use vstd::arithmetic::power2::lemma2_to64_rest;
use vstd::arithmetic::power2::lemma_pow2_adds;
use vstd::arithmetic::power2::lemma_pow2_pos;
use vstd::arithmetic::power2::lemma_pow2_strictly_increases;
use vstd::arithmetic::power2::pow2;
use vstd::bits::lemma_u64_shl_is_mul;
use vstd::prelude::*;

verus! {

/// The constants that the algorithm runs on.
pub struct Parameters {
    /// The number of steps allowed to a walk, in multiples of `W`.
    pub i: u64,
    /// One point in `W` is distinguished; a power of two.
    pub W: u64,
    /// The number of distinguished points that table generation aims at.
    pub N: u64,
    /// The number of step scalars and step points; a power of two.
    pub R: u64,
    /// The number of bits of the logarithms to look for.
    pub secret_size: u8,
}

/// The table of the solver.
pub struct Table {
    /// The step points: `step_points[h]` is `step_scalars[h] * G`.
    pub step_points: Vec<RistrettoPoint>,
    /// The step scalars, none of them zero.
    pub step_scalars: Vec<Scalar>,
    /// From each distinguished point collected to its logarithm.
    pub distinguished_points: PointMap<Scalar>,
}

/// The solver of Bernstein and Lange.
pub struct Bl12 {
    pub parameters: Parameters,
    pub table: Table,
}

/// `x` is a power of two.
pub open spec fn is_power_of_two(x: u64) -> bool {
    x != 0 && x & ((x - 1) as u64) == 0
}

/// The last eight bytes of an encoding as an integer, most significant byte
/// first.
pub open spec fn last_word(encoding: Seq<u8>) -> u64 {
    be_u64(encoding, 24) as u64
}

/// A point is distinguished where the low bits of the last word of its
/// encoding, as many as `w` has below its one bit, are zero.
pub open spec fn distinguished(encoding: Seq<u8>, w: u64) -> bool {
    last_word(encoding) & ((w - 1) as u64) == 0
}

/// The number of the step that a walk takes from a point: the low bits of
/// the last word of its encoding, as many as `r` has below its one bit.
pub open spec fn step_number(encoding: Seq<u8>, r: u64) -> u64 {
    last_word(encoding) & ((r - 1) as u64)
}

/// The number of bits of `r`, less one: the integer part of its logarithm to
/// the base 2.
pub open spec fn floor_log2(r: nat) -> nat
    decreases r,
{
    if r <= 1 {
        0
    } else {
        1 + floor_log2(r / 2)
    }
}

/// Whether `x` is a power of two.
pub fn check_power_of_two(x: u64) -> (r: bool)
    ensures
        r == is_power_of_two(x),
{
    x != 0 && x & (x - 1) == 0
}

/// The integer part of the logarithm of `r` to the base 2.
pub fn floor_log2_of(r: u64) -> (l: u8)
    requires
        r > 0,
    ensures
        l == floor_log2(r as nat),
        l <= 63,
{
    let mut rest: u64 = r;
    let mut l: u8 = 0;
    proof {
        lemma2_to64();
        lemma2_to64_rest();
    }
    while rest > 1
        invariant
            rest >= 1,
            l <= 63,
            rest < pow2((64 - l) as nat),
            floor_log2(r as nat) == l + floor_log2(rest as nat),
        decreases rest,
    {
        proof {
            lemma2_to64();
            lemma_pow2_adds(1, (63 - l) as nat);
        }
        rest = rest / 2;
        l += 1;
    }
    l
}

/// Gets the last eight bytes of a compressed point as an integer, most
/// significant byte first.
pub fn get_last_point_bytes(compressed_point: &[u8; 32]) -> (r: u64)
    ensures
        r == last_word(compressed_point@),
{
    proof {
        lemma_le_u64_bound(compressed_point@, 24);
    }
    read_be_u64(compressed_point, 24)
}

/// Whether a compressed point is distinguished.
pub fn is_distinguished(compressed_point: &[u8; 32], parameters: &Parameters) -> (r: bool)
    requires
        parameters.W >= 1,
    ensures
        r == distinguished(compressed_point@, parameters.W),
{
    let point_bytes: u64 = get_last_point_bytes(compressed_point);
    (point_bytes & (parameters.W - 1)) == 0
}

/// Gets the number of the step to take from a compressed point, which
/// serves as an index into the step scalars and step points. No hashing is
/// done; the name is the one that the authors of the algorithm use.
pub fn hash(compressed_point: &[u8; 32], parameters: &Parameters) -> (r: u64)
    requires
        parameters.R >= 1,
    ensures
        r == step_number(compressed_point@, parameters.R),
        r < parameters.R,
{
    let point_bytes: u64 = get_last_point_bytes(compressed_point);
    let mask: u64 = parameters.R - 1;
    assert(point_bytes & mask <= mask) by (bit_vector);
    point_bytes & mask
}

impl Parameters {
    /// The parameters can be run on: the number of bits is from 1 to 64, `W`
    /// and `R` are powers of two, a walk has at least one step and its
    /// number of steps fits 64 bits, and `N` and `R` fit 32 bits.
    pub open spec fn valid(&self) -> bool {
        &&& 1 <= self.secret_size <= 64
        &&& self.i >= 1
        &&& is_power_of_two(self.W)
        &&& is_power_of_two(self.R)
        &&& self.i * self.W <= u64::MAX
        &&& self.N <= u32::MAX
        &&& self.R <= u32::MAX
    }

    /// The exponent of `W` for at least 8 bits: a third of the number of
    /// bits plus one, kept between 4 and 20.
    pub open spec fn w_exponent(secret_bits: u8) -> nat {
        let third = (secret_bits + 1) / 3;
        if third < 4 {
            4
        } else if third > 20 {
            20
        } else {
            third as nat
        }
    }

    /// The parameters for a number of bits from 1 to 64.
    ///
    /// Below 8 bits the parameters are tiny, so that walks still take
    /// steps: one point in 2 or 4 is distinguished, the table aims at 2^bits
    /// points, and there are 4 or 8 steps. From 8 bits on, `W` grows with
    /// the number of bits, and `N` and `R` go by its range.
    pub open spec fn schedule(secret_bits: u8) -> Parameters {
        if secret_bits < 8 {
            Parameters {
                i: 16,
                W: if secret_bits <= 3 {
                    2
                } else {
                    4
                },
                N: pow2(secret_bits as nat) as u64,
                R: if secret_bits <= 4 {
                    4
                } else {
                    8
                },
                secret_size: secret_bits,
            }
        } else {
            Parameters {
                i: 8,
                W: pow2(Self::w_exponent(secret_bits)) as u64,
                N: if secret_bits <= 16 {
                    1000
                } else if secret_bits <= 24 {
                    2000
                } else if secret_bits <= 32 {
                    4000
                } else if secret_bits <= 40 {
                    20000
                } else if secret_bits <= 48 {
                    40000
                } else {
                    80000
                },
                R: if secret_bits <= 16 {
                    64
                } else if secret_bits <= 32 {
                    128
                } else {
                    256
                },
                secret_size: secret_bits,
            }
        }
    }

    /// The number of bits of the random part of a step scalar: the number of
    /// bits of the logarithms where that is below 8, else the integer part
    /// of the logarithm to the base 2 of a quarter of the range (the range
    /// taken as of 62 bits at most) divided by `W`; at least 1.
    pub open spec fn step_scalar_bits(&self) -> nat {
        if self.secret_size < 8 {
            if self.secret_size < 1 {
                1
            } else {
                self.secret_size as nat
            }
        } else {
            let shift = if self.secret_size < 62 {
                self.secret_size as nat
            } else {
                62
            };
            let ratio = pow2(shift) / 4 / (self.W as nat);
            if ratio > 0 && floor_log2(ratio) >= 1 {
                floor_log2(ratio)
            } else {
                1
            }
        }
    }

    /// Whether the parameters can be run on.
    pub fn check(&self) -> (r: bool)
        ensures
            r == self.valid(),
    {
        if self.secret_size < 1 || self.secret_size > 64 || self.i < 1 {
            return false;
        }
        if !check_power_of_two(self.W) || !check_power_of_two(self.R) {
            return false;
        }
        if self.N > 0xffff_ffff || self.R > 0xffff_ffff {
            return false;
        }
        self.i.checked_mul(self.W).is_some()
    }

    /// Creates the parameters for a number of bits; the number must be from
    /// 1 to 64.
    pub fn for_secret_bits(secret_bits: u8) -> (r: Result<Parameters, TableError>)
        ensures
            1 <= secret_bits <= 64 ==> r == Ok::<Parameters, TableError>(
                Self::schedule(secret_bits),
            ),
            !(1 <= secret_bits <= 64) ==> r == Err::<Parameters, TableError>(
                TableError::InvalidParameter,
            ),
            r matches Ok(parameters) ==> parameters.valid(),
    {
        if secret_bits < 1 || secret_bits > 64 {
            return Err(TableError::InvalidParameter);
        }
        proof {
            lemma2_to64();
        }
        if secret_bits < 8 {
            let w: u64 = if secret_bits <= 3 {
                2
            } else {
                4
            };
            let n: u64 = match secret_bits {
                1 => 2,
                2 => 4,
                3 => 8,
                4 => 16,
                5 => 32,
                6 => 64,
                _ => 128,
            };
            let r: u64 = if secret_bits <= 4 {
                4
            } else {
                8
            };
            assert(is_power_of_two(2) && is_power_of_two(4) && is_power_of_two(8)) by {
                assert(2u64 & 1u64 == 0) by (bit_vector);
                assert(4u64 & 3u64 == 0) by (bit_vector);
                assert(8u64 & 7u64 == 0) by (bit_vector);
            }
            return Ok(Parameters { i: 16, W: w, N: n, R: r, secret_size: secret_bits });
        }
        let third: u8 = (secret_bits + 1) / 3;
        let w_exp: u64 = if third < 4 {
            4
        } else if third > 20 {
            20
        } else {
            third as u64
        };
        proof {
            if w_exp < 20 {
                lemma_pow2_strictly_increases(w_exp as nat, 20);
            }
            lemma_pow2_pos(w_exp as nat);
            lemma_u64_shl_is_mul(1, w_exp);
        }
        let w: u64 = 1u64 << w_exp;
        assert(is_power_of_two(w)) by {
            assert((1u64 << w_exp) != 0 && (1u64 << w_exp) & (((1u64 << w_exp) - 1) as u64) == 0)
                by (bit_vector)
                requires
                    w_exp < 64,
            ;
        }
        let n: u64 = if secret_bits <= 16 {
            1000
        } else if secret_bits <= 24 {
            2000
        } else if secret_bits <= 32 {
            4000
        } else if secret_bits <= 40 {
            20000
        } else if secret_bits <= 48 {
            40000
        } else {
            80000
        };
        let r: u64 = if secret_bits <= 16 {
            64
        } else if secret_bits <= 32 {
            128
        } else {
            256
        };
        assert(is_power_of_two(64) && is_power_of_two(128) && is_power_of_two(256)) by {
            assert(64u64 & 63u64 == 0) by (bit_vector);
            assert(128u64 & 127u64 == 0) by (bit_vector);
            assert(256u64 & 255u64 == 0) by (bit_vector);
        }
        Ok(Parameters { i: 8, W: w, N: n, R: r, secret_size: secret_bits })
    }

    /// The number of bits of the random part of a step scalar.
    pub fn step_scalar_size(&self) -> (r: u8)
        requires
            self.valid(),
        ensures
            r == self.step_scalar_bits(),
            1 <= r <= 63,
    {
        if self.secret_size < 8 {
            self.secret_size
        } else {
            let shift: u64 = if self.secret_size < 62 {
                self.secret_size as u64
            } else {
                62
            };
            proof {
                lemma2_to64();
                lemma2_to64_rest();
                if shift < 62 {
                    lemma_pow2_strictly_increases(shift as nat, 62);
                }
                lemma_u64_shl_is_mul(1, shift);
            }
            let search_space: u64 = 1u64 << shift;
            let ratio: u64 = search_space / 4 / self.W;
            if ratio > 0 {
                let l: u8 = floor_log2_of(ratio);
                if l < 1 {
                    1
                } else {
                    l
                }
            } else {
                1
            }
        }
    }
}

impl Table {
    /// The table fits the parameters: there are `R` step scalars and `R`
    /// step points, the map of distinguished points is well formed, and
    /// every scalar is below the group order.
    pub open spec fn wf(&self, parameters: Parameters) -> bool {
        &&& parameters.valid()
        &&& self.step_scalars@.len() == parameters.R
        &&& self.step_points@.len() == parameters.R
        &&& self.distinguished_points.wf()
        &&& self.reduced_scalars()
    }

    /// Each step scalar and each logarithm of the map is below the group
    /// order.
    pub open spec fn reduced_scalars(&self) -> bool {
        &&& forall|h: int|
            0 <= h < self.step_scalars@.len() ==> reduced(#[trigger] self.step_scalars@[h])
        &&& forall|at: int|
            0 <= at < self.distinguished_points.values().len() ==> reduced(
                #[trigger] self.distinguished_points.values()[at],
            )
    }

    /// The table holds what `generate` computes: each step scalar is from 1
    /// to 2^`step_scalar_bits`, and its step point is the scalar times `G`;
    /// each point of the map is distinguished and has the logarithm that the
    /// map gives for it.
    pub open spec fn sound(&self, parameters: Parameters) -> bool {
        &&& forall|h: int|
            0 <= h < parameters.R ==> {
                &&& point_log(#[trigger] self.step_points@[h]) == scalar_value(
                    self.step_scalars@[h],
                )
                &&& 1 <= scalar_value(self.step_scalars@[h]) <= pow2(parameters.step_scalar_bits())
            }
        &&& forall|at: int|
            0 <= at < self.distinguished_points.keys().len() ==> {
                &&& distinguished(#[trigger] self.distinguished_points.keys()[at], parameters.W)
                &&& encodes(
                    self.distinguished_points.keys()[at],
                    scalar_value(self.distinguished_points.values()[at]),
                )
            }
    }

    /// Where a walk of at most `steps` steps ends that starts on the point
    /// `at * G` with the distance `distance` behind it: the logarithm of the
    /// first distinguished point on its way with the distance walked up to
    /// it, or `None` where it meets no distinguished point.
    pub open spec fn walk(
        &self,
        parameters: Parameters,
        at: nat,
        distance: nat,
        steps: nat,
    ) -> Option<(nat, nat)>
        decreases steps,
    {
        let encoding = ristretto_encoding(at);
        if steps == 0 {
            None
        } else if distinguished(encoding, parameters.W) {
            Some((at, distance))
        } else {
            let h = step_number(encoding, parameters.R) as int;
            self.walk(
                parameters,
                (at + point_log(self.step_points@[h])) % group_order(),
                (distance + scalar_value(self.step_scalars@[h])) % group_order(),
                (steps - 1) as nat,
            )
        }
    }

    /// The logarithm that a walk suggests for the point it started from, when
    /// it has ended on the point with the encoding `encoding` after the
    /// distance `distance`: where the table holds the point, the table's
    /// logarithm for it less the distance, of which the low 64 bits are
    /// taken.
    pub open spec fn candidate(&self, encoding: Seq<u8>, distance: nat) -> Option<u64> {
        let keys = self.distinguished_points.keys();
        let values = self.distinguished_points.values();
        if occurs(keys, encoding) {
            let at = choose|at: int| 0 <= at < keys.len() && keys[at] == encoding;
            Some(
                (((scalar_value(values[at]) + group_order() - distance) % (group_order() as int))
                    % 0x1_0000_0000_0000_0000) as u64,
            )
        } else {
            None
        }
    }

    /// Looks up the point on which a walk has ended, and returns the
    /// logarithm that the walk suggests for the point it started from.
    pub fn candidate_at(&self, encoding: &[u8; 32], distance: &Scalar) -> (r: Option<u64>)
        requires
            self.distinguished_points.wf(),
            self.reduced_scalars(),
            reduced(*distance),
        ensures
            r == self.candidate(encoding@, scalar_value(*distance)),
    {
        let ghost keys = self.distinguished_points.keys();
        match self.distinguished_points.position(encoding) {
            Some(at) => {
                proof {
                    self.distinguished_points.lemma_shape();
                    let chosen = choose|c: int| 0 <= c < keys.len() && keys[c] == encoding@;
                    if chosen < at {
                        assert(keys[chosen] != keys[at as int]);
                    }
                    if chosen > at {
                        assert(keys[at as int] != keys[chosen]);
                    }
                    assert(chosen == at);
                }
                let value = self.distinguished_points.value_at(at);
                assert(reduced(self.distinguished_points.values()[at as int]));
                let sk = scalar_sub(value, distance);
                Some(scalar_to_u64(&sk))
            },
            None => None,
        }
    }

    /// Where a walk ends depends on the step points and the step scalars of
    /// the table alone.
    pub proof fn lemma_walk_reads_steps_only(
        &self,
        other: &Table,
        parameters: Parameters,
        at: nat,
        distance: nat,
        steps: nat,
    )
        requires
            self.step_points@ == other.step_points@,
            self.step_scalars@ == other.step_scalars@,
        ensures
            self.walk(parameters, at, distance, steps) == other.walk(
                parameters,
                at,
                distance,
                steps,
            ),
        decreases steps,
    {
        let encoding = ristretto_encoding(at);
        if steps != 0 && !distinguished(encoding, parameters.W) {
            let h = step_number(encoding, parameters.R) as int;
            self.lemma_walk_reads_steps_only(
                other,
                parameters,
                (at + point_log(self.step_points@[h])) % group_order(),
                (distance + scalar_value(self.step_scalars@[h])) % group_order(),
                (steps - 1) as nat,
            );
        }
    }

    /// A walk that starts with the logarithm of its point as its distance
    /// ends, on a table whose step points fit its step scalars, on a
    /// distinguished point whose logarithm is the distance walked.
    pub proof fn lemma_walk_keeps_logarithm(&self, parameters: Parameters, at: nat, steps: nat)
        requires
            forall|h: int|
                0 <= h < parameters.R ==> point_log(#[trigger] self.step_points@[h])
                    == scalar_value(self.step_scalars@[h]),
            parameters.R >= 1,
            at < group_order(),
        ensures
            self.walk(parameters, at, at, steps) matches Some((end, distance)) ==> end == distance
                && end < group_order() && distinguished(ristretto_encoding(end), parameters.W),
        decreases steps,
    {
        let encoding = ristretto_encoding(at);
        if steps != 0 && !distinguished(encoding, parameters.W) {
            let word = last_word(encoding);
            let mask = (parameters.R - 1) as u64;
            assert(word & mask <= mask) by (bit_vector);
            let h = step_number(encoding, parameters.R) as int;
            self.lemma_walk_keeps_logarithm(
                parameters,
                (at + point_log(self.step_points@[h])) % group_order(),
                (steps - 1) as nat,
            );
        }
    }

    /// Walks from `start`, with the distance `start_distance` behind it, to
    /// the first distinguished point within `i * W` steps, and returns its
    /// encoding and the distance walked; `None` where there is none.
    #[verifier::rlimit(50)]
    pub fn walk_to_distinguished(
        &self,
        parameters: &Parameters,
        start: &RistrettoPoint,
        start_distance: &Scalar,
    ) -> (r: Option<([u8; 32], Scalar)>)
        requires
            self.wf(*parameters),
            reduced(*start_distance),
        ensures
            match self.walk(
                *parameters,
                point_log(*start),
                scalar_value(*start_distance),
                (parameters.i * parameters.W) as nat,
            ) {
                Some((end, distance)) => r matches Some((encoding, walked)) && encodes(
                    encoding@,
                    end,
                ) && scalar_value(walked) == distance && reduced(walked),
                None => r is None,
            },
    {
        let limit: u64 = parameters.i * parameters.W;
        let mut w: RistrettoPoint = *start;
        let mut wdist: Scalar = *start_distance;
        let mut steps: u64 = 0;
        while steps < limit
            invariant
                parameters.W >= 1,
                1 <= parameters.R <= u32::MAX,
                self.step_scalars@.len() == parameters.R,
                self.step_points@.len() == parameters.R,
                forall|k: int|
                    0 <= k < self.step_scalars@.len() ==> reduced(#[trigger] self.step_scalars@[k]),
                limit == parameters.i * parameters.W,
                steps <= limit,
                reduced(wdist),
                self.walk(
                    *parameters,
                    point_log(*start),
                    scalar_value(*start_distance),
                    limit as nat,
                ) == self.walk(
                    *parameters,
                    point_log(w),
                    scalar_value(wdist),
                    (limit - steps) as nat,
                ),
            decreases limit - steps,
        {
            let w_compressed = point_compress(&w);
            if is_distinguished(&w_compressed, parameters) {
                return Some((w_compressed, wdist));
            }
            let h: usize = hash(&w_compressed, parameters) as usize;
            let ghost next_distance = (scalar_value(wdist) + scalar_value(
                self.step_scalars@[h as int],
            )) % group_order();
            let ghost next_at = (point_log(w) + point_log(self.step_points@[h as int]))
                % group_order();
            assert(self.walk(*parameters, point_log(w), scalar_value(wdist), (limit - steps) as nat)
                == self.walk(*parameters, next_at, next_distance, (limit - steps - 1) as nat));
            assert(reduced(self.step_scalars@[h as int]));
            wdist = scalar_add(&wdist, &self.step_scalars[h]);
            w = point_add(&w, &self.step_points[h]);
            assert(scalar_value(wdist) == next_distance);
            assert(point_log(w) == next_at);
            steps += 1;
        }
        None
    }

    /// The step that a random draw of `bits` bits gives: the scalar that
    /// holds the draw plus one, and that scalar times `G`.
    pub fn step_of_draw(draw: &Scalar, bits: u8) -> (r: (Scalar, RistrettoPoint))
        requires
            reduced(*draw),
            bits <= 63,
            scalar_repr(*draw) < pow2(bits as nat),
        ensures
            scalar_repr(r.0) == scalar_repr(*draw) + 1,
            reduced(r.0),
            point_log(r.1) == scalar_repr(r.0),
    {
        proof {
            lemma2_to64_rest();
            if bits < 63 {
                lemma_pow2_strictly_increases(bits as nat, 63);
            }
        }
        let one = u64_to_scalar(1);
        let slog = scalar_add(draw, &one);
        let s = point_mul_base(&slog);
        (slog, s)
    }

    /// Generates the step scalars and step points: `R` steps, each that of
    /// a fresh random draw of `step_scalar_bits` bits.
    pub fn s_values_init(parameters: &Parameters) -> (r: Result<
        (Vec<Scalar>, Vec<RistrettoPoint>),
        TableError,
    >)
        requires
            parameters.valid(),
        ensures
            r matches Ok((scalars, points)) ==> {
                &&& scalars@.len() == parameters.R
                &&& points@.len() == parameters.R
                &&& forall|h: int|
                    0 <= h < parameters.R ==> {
                        &&& 1 <= scalar_value(#[trigger] scalars@[h]) <= pow2(
                            parameters.step_scalar_bits(),
                        )
                        &&& point_log(points@[h]) == scalar_value(scalars@[h])
                        &&& reduced(scalars@[h])
                    }
            },
            r matches Err(e) ==> e == TableError::RandomSource,
    {
        let slog_size: u8 = parameters.step_scalar_size();
        let count: usize = parameters.R as usize;
        let mut scalars: Vec<Scalar> = Vec::with_capacity(count);
        let mut points: Vec<RistrettoPoint> = Vec::with_capacity(count);
        let mut h: usize = 0;
        while h < count
            invariant
                h <= count,
                count == parameters.R,
                slog_size == parameters.step_scalar_bits(),
                slog_size <= 63,
                scalars@.len() == h,
                points@.len() == h,
                forall|k: int|
                    0 <= k < h ==> {
                        &&& 1 <= scalar_value(#[trigger] scalars@[k]) <= pow2(slog_size as nat)
                        &&& point_log(points@[k]) == scalar_value(scalars@[k])
                        &&& reduced(scalars@[k])
                    },
            decreases count - h,
        {
            let random_part = match generate_random_scalar(slog_size) {
                Ok(scalar) => scalar,
                Err(_) => {
                    return Err(TableError::RandomSource);
                },
            };
            let (slog, s) = Self::step_of_draw(&random_part, slog_size);
            scalars.push(slog);
            points.push(s);
            h += 1;
        }
        Ok((scalars, points))
    }

    /// The entries of the map: each distinguished point with the integer
    /// that the map gives for it.
    pub open spec fn entries(&self) -> Seq<(Seq<u8>, nat)> {
        entries_of(self.distinguished_points)
    }

    /// What `entries` become by one walk from `start * G`: where the walk
    /// ends on a distinguished point, the point is recorded with the
    /// distance walked; else they stay as they are.
    pub open spec fn after_walk(
        &self,
        parameters: Parameters,
        entries: Seq<(Seq<u8>, nat)>,
        start: nat,
    ) -> Seq<(Seq<u8>, nat)> {
        match self.walk(parameters, start, start, (parameters.i * parameters.W) as nat) {
            Some((end, distance)) => recorded(entries, ristretto_encoding(end), distance),
            None => entries,
        }
    }

    /// What `entries` become by one walk from each of `starts` in turn.
    pub open spec fn after_walks(
        &self,
        parameters: Parameters,
        entries: Seq<(Seq<u8>, nat)>,
        starts: Seq<nat>,
    ) -> Seq<(Seq<u8>, nat)>
        decreases starts.len(),
    {
        if starts.len() == 0 {
            entries
        } else {
            self.after_walk(
                parameters,
                self.after_walks(parameters, entries, starts.drop_last()),
                starts.last(),
            )
        }
    }

    /// The map is what walks from `starts` in turn leave of an empty map:
    /// at most `N * 1000` starts, each of at most `secret_size` bits, and as
    /// many as it takes to collect `N` points where fewer than `N * 1000`
    /// were made.
    pub open spec fn made_from(&self, parameters: Parameters, starts: Seq<nat>) -> bool {
        &&& starts.len() <= parameters.N * 1000
        &&& forall|k: int|
            0 <= k < starts.len() ==> #[trigger] starts[k] < pow2(parameters.secret_size as nat)
        &&& self.entries() == self.after_walks(
            parameters,
            Seq::<(Seq<u8>, nat)>::empty(),
            starts,
        )
        &&& (self.entries().len() >= parameters.N || starts.len() == parameters.N * 1000)
    }

    /// The map is what walks from some starts, as `generate` draws them,
    /// leave of an empty map.
    pub open spec fn made_by_walks(&self, parameters: Parameters) -> bool {
        exists|starts: Seq<nat>| #[trigger] self.made_from(parameters, starts)
    }

    /// What walks from `starts` leave depends on the step points and the
    /// step scalars of the table alone.
    pub proof fn lemma_walks_read_steps_only(
        &self,
        other: &Table,
        parameters: Parameters,
        entries: Seq<(Seq<u8>, nat)>,
        starts: Seq<nat>,
    )
        requires
            self.step_points@ == other.step_points@,
            self.step_scalars@ == other.step_scalars@,
        ensures
            self.after_walks(parameters, entries, starts) == other.after_walks(
                parameters,
                entries,
                starts,
            ),
        decreases starts.len(),
    {
        if starts.len() != 0 {
            self.lemma_walks_read_steps_only(other, parameters, entries, starts.drop_last());
            self.lemma_walk_reads_steps_only(
                other,
                parameters,
                starts.last(),
                starts.last(),
                (parameters.i * parameters.W) as nat,
            );
        }
    }

    /// Makes one walk from `start * G`, of at most `i * W` steps. Where it
    /// ends on a distinguished point, the point is put into the map with the
    /// distance walked, in place of what the map held for it.
    pub fn record_walk(&mut self, parameters: &Parameters, start: &Scalar)
        requires
            old(self).wf(*parameters),
            reduced(*start),
            old(self).distinguished_points.keys().len() <= u32::MAX,
        ensures
            final(self).wf(*parameters),
            final(self).step_points@ == old(self).step_points@,
            final(self).step_scalars@ == old(self).step_scalars@,
            final(self).entries() == old(self).after_walk(
                *parameters,
                old(self).entries(),
                scalar_value(*start),
            ),
            final(self).distinguished_points.keys().len() <= old(
                self,
            ).distinguished_points.keys().len() + 1,
            old(self).sound(*parameters) ==> final(self).sound(*parameters),
    {
        let w = point_mul_base(start);
        let ended = self.walk_to_distinguished(parameters, &w, start);
        proof {
            if self.sound(*parameters) {
                self.lemma_walk_keeps_logarithm(
                    *parameters,
                    scalar_value(*start),
                    (parameters.i * parameters.W) as nat,
                );
            }
        }
        match ended {
            Some((encoding, walked)) => {
                let ghost before = self.distinguished_points;
                let ghost first = self.entries();
                proof {
                    before.lemma_shape();
                }
                self.distinguished_points.insert(encoding, walked);
                proof {
                    let after = self.distinguished_points;
                    lemma_insert_records(before, after, encoding@, walked);
                    assert forall|at: int| 0 <= at < after.values().len() implies reduced(
                        #[trigger] after.values()[at],
                    ) by {
                        if at < before.values().len() {
                            assert(reduced(before.values()[at]));
                        }
                    }
                    if old(self).sound(*parameters) {
                        assert forall|at: int| 0 <= at < after.keys().len() implies {
                            &&& distinguished(#[trigger] after.keys()[at], parameters.W)
                            &&& encodes(after.keys()[at], scalar_value(after.values()[at]))
                        } by {
                            if at < before.keys().len() {
                                assert(distinguished(before.keys()[at], parameters.W));
                            }
                        }
                    }
                }
            },
            None => {},
        }
    }

    /// Makes one walk from `start * G` for each of `starts` in turn, and
    /// puts the distinguished points on which the walks end into the map.
    pub fn record_walks(&mut self, parameters: &Parameters, starts: &Vec<Scalar>)
        requires
            old(self).wf(*parameters),
            all_reduced(starts@),
            old(self).distinguished_points.keys().len() + starts@.len() <= u32::MAX,
        ensures
            final(self).wf(*parameters),
            final(self).step_points@ == old(self).step_points@,
            final(self).step_scalars@ == old(self).step_scalars@,
            final(self).entries() == old(self).after_walks(
                *parameters,
                old(self).entries(),
                start_values(starts@),
            ),
            old(self).sound(*parameters) ==> final(self).sound(*parameters),
    {
        let ghost values = start_values(starts@);
        let mut k: usize = 0;
        while k < starts.len()
            invariant
                k <= starts@.len(),
                values == start_values(starts@),
                self.wf(*parameters),
                self.step_points@ == old(self).step_points@,
                self.step_scalars@ == old(self).step_scalars@,
                self.distinguished_points.keys().len() <= old(
                    self,
                ).distinguished_points.keys().len() + k,
                old(self).distinguished_points.keys().len() + starts@.len() <= u32::MAX,
                all_reduced(starts@),
                self.entries() == old(self).after_walks(
                    *parameters,
                    old(self).entries(),
                    values.take(k as int),
                ),
                old(self).sound(*parameters) ==> self.sound(*parameters),
            decreases starts@.len() - k,
        {
            let ghost earlier = *self;
            self.record_walk(parameters, &starts[k]);
            proof {
                let start = scalar_value(starts@[k as int]);
                assert(values.take(k + 1).drop_last() =~= values.take(k as int));
                assert(values.take(k + 1).last() == start);
                earlier.lemma_walk_reads_steps_only(
                    old(self),
                    *parameters,
                    start,
                    start,
                    (parameters.i * parameters.W) as nat,
                );
            }
            k += 1;
        }
        assert(values.take(starts@.len() as int) =~= values);
    }

    /// Generates the table: the step scalars and step points, and then
    /// distinguished points, until there are `N` of them or `N * 1000` walks
    /// have been made. Each walk starts on `r * G` for a random `r` of
    /// `secret_size` bits and takes at most `i * W` steps; where it ends on
    /// a distinguished point, the point is put into the map with its
    /// logarithm, in place of what the map held for it.
    pub fn generate(parameters: &Parameters) -> (r: Result<Table, TableError>)
        ensures
            !parameters.valid() ==> (r matches Err(e) && e == TableError::InvalidParameter),
            parameters.valid() ==> (r matches Err(e) ==> e == TableError::RandomSource),
            r matches Ok(table) ==> table.wf(*parameters) && table.sound(*parameters)
                && table.distinguished_points.keys().len() <= parameters.N,
            r matches Ok(table) ==> table.made_by_walks(*parameters),
    {
        if !parameters.check() {
            return Err(TableError::InvalidParameter);
        }
        let (step_scalars, step_points) = match Self::s_values_init(parameters) {
            Ok(values) => values,
            Err(e) => {
                return Err(e);
            },
        };
        let mut table = Table { step_points, step_scalars, distinguished_points: PointMap::new() };
        let target: usize = parameters.N as usize;
        let max_attempts: u64 = parameters.N * 1000;
        let mut attempts: u64 = 0;
        let ghost mut starts: Seq<nat> = Seq::empty();
        assert(table.entries() =~= Seq::<(Seq<u8>, nat)>::empty());
        while table.distinguished_points.len() < target && attempts < max_attempts
            invariant
                table.wf(*parameters),
                table.sound(*parameters),
                target == parameters.N,
                max_attempts == parameters.N * 1000,
                table.distinguished_points.keys().len() <= target,
                attempts <= max_attempts,
                starts.len() == attempts,
                forall|k: int|
                    0 <= k < starts.len() ==> #[trigger] starts[k] < pow2(
                        parameters.secret_size as nat,
                    ),
                table.entries() == table.after_walks(
                    *parameters,
                    Seq::<(Seq<u8>, nat)>::empty(),
                    starts,
                ),
            decreases max_attempts - attempts,
        {
            attempts += 1;
            let wlog = match generate_random_scalar(parameters.secret_size) {
                Ok(scalar) => scalar,
                Err(_) => {
                    return Err(TableError::RandomSource);
                },
            };
            let ghost earlier = table;
            table.record_walk(parameters, &wlog);
            proof {
                let start = scalar_value(wlog);
                let grown = starts.push(start);
                let empty = Seq::<(Seq<u8>, nat)>::empty();
                assert(grown.drop_last() =~= starts);
                table.lemma_walks_read_steps_only(&earlier, *parameters, empty, starts);
                table.lemma_walk_reads_steps_only(
                    &earlier,
                    *parameters,
                    start,
                    start,
                    (parameters.i * parameters.W) as nat,
                );
                assert(table.after_walks(*parameters, empty, grown) == table.after_walk(
                    *parameters,
                    table.after_walks(*parameters, empty, starts),
                    start,
                ));
                starts = grown;
            }
        }
        assert(table.made_from(*parameters, starts));
        assert(table.made_by_walks(*parameters));
        Ok(table)
    }
}

/// The integers that a list of scalars holds.
pub open spec fn start_values(starts: Seq<Scalar>) -> Seq<nat> {
    Seq::new(starts.len(), |k: int| scalar_value(starts[k]))
}

/// `entries` hold an entry for the point `key`.
pub open spec fn holds(entries: Seq<(Seq<u8>, nat)>, key: Seq<u8>) -> bool {
    exists|p: int| 0 <= p < entries.len() && (#[trigger] entries[p]).0 == key
}

/// `entries` with the value `value` for the point `key`: in the entry that
/// they hold for the point, or else in a new entry at the end.
pub open spec fn recorded(entries: Seq<(Seq<u8>, nat)>, key: Seq<u8>, value: nat) -> Seq<
    (Seq<u8>, nat),
> {
    if holds(entries, key) {
        let p = choose|p: int| 0 <= p < entries.len() && (#[trigger] entries[p]).0 == key;
        entries.update(p, (key, value))
    } else {
        entries.push((key, value))
    }
}

/// The entries of a map after an insertion are the entries before it with
/// the point recorded.
pub proof fn lemma_insert_records(
    before: PointMap<Scalar>,
    after: PointMap<Scalar>,
    key: Seq<u8>,
    value: Scalar,
)
    requires
        before.wf(),
        after.holds_after_insert(before, key, value),
    ensures
        entries_of(after) == recorded(entries_of(before), key, scalar_value(value)),
{
    before.lemma_shape();
    let first = entries_of(before);
    let second = entries_of(after);
    if occurs(before.keys(), key) {
        let at = choose|at: int|
            0 <= at < before.keys().len() && before.keys()[at] == key && after.values()
                == before.values().update(at, value);
        assert(first[at].0 == key);
        let p = choose|p: int| 0 <= p < first.len() && (#[trigger] first[p]).0 == key;
        if p < at {
            assert(before.keys()[p] != before.keys()[at]);
        }
        if at < p {
            assert(before.keys()[at] != before.keys()[p]);
        }
        assert(second =~= first.update(at, (key, scalar_value(value))));
    } else {
        if holds(first, key) {
            let p = choose|p: int| 0 <= p < first.len() && (#[trigger] first[p]).0 == key;
            assert(before.keys()[p] == key);
        }
        assert(second =~= first.push((key, scalar_value(value))));
    }
}

/// The entries of a map: each point with the integer that the map gives for
/// it.
pub open spec fn entries_of(map: PointMap<Scalar>) -> Seq<(Seq<u8>, nat)> {
    Seq::new(map.keys().len(), |p: int| (map.keys()[p], scalar_value(map.values()[p])))
}

impl Bl12 {
    /// The solver's table fits its parameters.
    pub open spec fn wf(&self) -> bool {
        self.table.wf(self.parameters)
    }

    /// What a walk gives that starts on `(y + offset) * G`: where it ends on
    /// a point of the table, the table's logarithm for that point less the
    /// distance walked, of which the low 64 bits are taken, if that is `y`;
    /// else nothing.
    pub open spec fn walk_result(&self, y: nat, offset: nat) -> Option<u64> {
        match self.table.walk(
            self.parameters,
            (y + offset) % group_order(),
            offset,
            (self.parameters.i * self.parameters.W) as nat,
        ) {
            Some((end, distance)) => match self.table.candidate(
                ristretto_encoding(end),
                distance,
            ) {
                Some(x) => if x == y {
                    Some(x)
                } else {
                    None
                },
                None => None,
            },
            None => None,
        }
    }

    /// Generates the table for the parameters and makes a solver of it.
    pub fn from_parameters(parameters: Parameters) -> (r: Result<Bl12, TableError>)
        ensures
            !parameters.valid() ==> (r matches Err(e) && e == TableError::InvalidParameter),
            parameters.valid() ==> (r matches Err(e) ==> e == TableError::RandomSource),
            r matches Ok(solver) ==> solver.wf() && solver.table.sound(solver.parameters)
                && solver.parameters == parameters,
            r matches Ok(solver) ==> solver.table.made_by_walks(parameters),
    {
        match Table::generate(&parameters) {
            Ok(table) => Ok(Bl12 { parameters, table }),
            Err(e) => Err(e),
        }
    }

    /// The point `pk + offset * G`, from which a walk of the solver starts.
    pub fn start_of_walk(pk: &RistrettoPoint, offset: &Scalar) -> (r: RistrettoPoint)
        ensures
            point_log(r) == (point_log(*pk) + scalar_value(*offset)) % group_order(),
    {
        let shift = point_mul_base(offset);
        point_add(pk, &shift)
    }

    /// Makes one walk from `pk + offset * G` and returns the logarithm of
    /// `pk` if the walk ends on a point of the table: the table's logarithm
    /// for that point less the distance walked. The logarithm found counts
    /// only if it is that of `pk`.
    pub fn walk_from(&self, pk: &RistrettoPoint, offset: &Scalar) -> (r: Option<u64>)
        requires
            self.wf(),
            reduced(*offset),
        ensures
            r == self.walk_result(point_log(*pk), scalar_value(*offset)),
            r matches Some(x) ==> x == point_log(*pk),
    {
        let w = Self::start_of_walk(pk, offset);
        let ended = self.table.walk_to_distinguished(&self.parameters, &w, offset);
        let ghost walked = self.table.walk(
            self.parameters,
            (point_log(*pk) + scalar_value(*offset)) % group_order(),
            scalar_value(*offset),
            (self.parameters.i * self.parameters.W) as nat,
        );
        match ended {
            Some((encoding, wdist)) => {
                assert(walked matches Some((end, distance)) && encoding@ == ristretto_encoding(end)
                    && scalar_value(wdist) == distance);
                match self.table.candidate_at(&encoding, &wdist) {
                    Some(x) => {
                        if is_dlog(x, pk) {
                            Some(x)
                        } else {
                            None
                        }
                    },
                    None => None,
                }
            },
            None => {
                assert(walked is None);
                None
            },
        }
    }

    /// `r` is what solving with the offsets `offsets` gives for the point
    /// `y * G`: 0 for the neutral element; else the logarithm, where the walk
    /// from one of the offsets gives it, or that the search timed out, where
    /// none does.
    pub open spec fn solved_with(
        &self,
        y: nat,
        offsets: Seq<Scalar>,
        r: Result<u64, SolveError>,
    ) -> bool {
        if y == 0 {
            r == Ok::<u64, SolveError>(0)
        } else {
            match r {
                Ok(x) => x == y && exists|k: int|
                    0 <= k < offsets.len() && #[trigger] self.walk_result(
                        y,
                        scalar_value(offsets[k]),
                    ) == Some(x),
                Err(e) => e == SolveError::TimedOut && forall|k: int|
                    0 <= k < offsets.len() ==> #[trigger] self.walk_result(
                        y,
                        scalar_value(offsets[k]),
                    ) is None,
            }
        }
    }

    /// Solves as `solve_with_offsets` does, with offsets of which nothing is
    /// known: `None` where one of them is not below the group order.
    pub fn try_solve_with_offsets(&self, pk: &RistrettoPoint, offsets: &Vec<Scalar>) -> (r: Option<
        Result<u64, SolveError>,
    >)
        requires
            self.wf(),
        ensures
            r is Some <==> all_reduced(offsets@),
            r matches Some(inner) ==> self.solved_with(point_log(*pk), offsets@, inner),
    {
        if are_reduced(offsets) {
            Some(self.solve_with_offsets(pk, offsets))
        } else {
            None
        }
    }

    /// Solves `pk = x * G` for `x` with the offsets of the walks given: the
    /// neutral element gives 0; for any other point, one walk is made from
    /// `pk + r * G` for each offset `r` in turn until one gives the
    /// logarithm. The search ends as timed out where none does.
    pub fn solve_with_offsets(&self, pk: &RistrettoPoint, offsets: &Vec<Scalar>) -> (r: Result<
        u64,
        SolveError,
    >)
        requires
            self.wf(),
            all_reduced(offsets@),
        ensures
            self.solved_with(point_log(*pk), offsets@, r),
    {
        let identity = point_identity();
        if point_eq(pk, &identity) {
            return Ok(0);
        }
        let mut k: usize = 0;
        while k < offsets.len()
            invariant
                self.wf(),
                k <= offsets@.len(),
                all_reduced(offsets@),
                point_log(*pk) != 0,
                forall|j: int|
                    0 <= j < k ==> #[trigger] self.walk_result(
                        point_log(*pk),
                        scalar_value(offsets@[j]),
                    ) is None,
            decreases offsets@.len() - k,
        {
            match self.walk_from(pk, &offsets[k]) {
                Some(x) => {
                    return Ok(x);
                },
                None => {},
            }
            k += 1;
        }
        Err(SolveError::TimedOut)
    }

    /// The number of bits of the random offset that a walk of the solver
    /// starts with: eight less than the number of bits of the logarithms, at
    /// least one.
    pub open spec fn offset_size(&self) -> u8 {
        if self.parameters.secret_size > 9 {
            (self.parameters.secret_size - 8) as u8
        } else {
            1u8
        }
    }

    /// The search for the logarithm of `y * G` made walks from the offsets
    /// `offsets` in turn and ended with `r`: each offset has `offset_size`
    /// bits, no walk but the last gave the logarithm, and the last one gave it
    /// if and only if `r` is a logarithm. A search without a limit of time
    /// ends as timed out only after 2^64 - 1 walks.
    pub open spec fn searched(
        &self,
        y: nat,
        max_time: Option<u64>,
        offsets: Seq<nat>,
        r: Result<u64, SolveError>,
    ) -> bool {
        &&& offsets.len() <= u64::MAX
        &&& forall|k: int|
            0 <= k < offsets.len() ==> #[trigger] offsets[k] < pow2(self.offset_size() as nat)
        &&& forall|k: int|
            0 <= k < offsets.len() - 1 ==> #[trigger] self.walk_result(y, offsets[k]) is None
        &&& match r {
            Ok(x) => offsets.len() >= 1 && self.walk_result(y, offsets.last()) == Some(x),
            Err(e) => {
                &&& offsets.len() >= 1 ==> self.walk_result(y, offsets.last()) is None
                &&& e == SolveError::TimedOut || e == SolveError::RandomSource
                &&& e == SolveError::TimedOut && max_time is None ==> offsets.len() == u64::MAX
            },
        }
    }

    /// `r` is what a search for the logarithm of `y * G` can end with: 0
    /// for the neutral element, else what walks from some offsets give, as
    /// `searched` says.
    pub open spec fn search_ends(
        &self,
        y: nat,
        max_time: Option<u64>,
        r: Result<u64, SolveError>,
    ) -> bool {
        if y == 0 {
            r == Ok::<u64, SolveError>(0)
        } else {
            exists|offsets: Seq<nat>| #[trigger] self.searched(y, max_time, offsets, r)
        }
    }

    /// The number of bits of the random offset that a walk of the solver
    /// starts with.
    pub fn offset_bits(&self) -> (r: u8)
        ensures
            r == self.offset_size(),
    {
        if self.parameters.secret_size > 9 {
            self.parameters.secret_size - 8
        } else {
            1
        }
    }

    /// Whether the search is out of time when a walk is to start: there is
    /// a limit, and the milliseconds that have passed have reached it.
    pub fn limit_reached(elapsed_ms: u128, max_time: Option<u64>) -> (r: bool)
        ensures
            r == (max_time matches Some(limit) && elapsed_ms >= limit),
    {
        match max_time {
            Some(limit) => elapsed_ms >= limit as u128,
            None => false,
        }
    }

    /// Solves `pk = x * G` for `x`: the neutral element gives 0; for any
    /// other point, walks are made from `pk + r * G` with fresh random `r`
    /// until one gives the logarithm. With a time limit in milliseconds, the
    /// search ends as timed out once the limit has passed when a walk is to
    /// start. Without a limit it ends without the logarithm only where the
    /// random source fails, or after 2^64 - 1 walks of which none gave it.
    pub fn solve_dlp(&self, pk: &RistrettoPoint, max_time: Option<u64>) -> (r: Result<
        u64,
        SolveError,
    >)
        requires
            self.wf(),
        ensures
            r matches Ok(x) ==> x == point_log(*pk),
            point_log(*pk) == 0 ==> r == Ok::<u64, SolveError>(0),
            r matches Err(e) ==> e == SolveError::TimedOut || e == SolveError::RandomSource,
            max_time == Some(0u64) && point_log(*pk) != 0 ==> r == Err::<u64, SolveError>(
                SolveError::TimedOut,
            ),
            self.search_ends(point_log(*pk), max_time, r),
    {
        let identity = point_identity();
        if point_eq(pk, &identity) {
            return Ok(0);
        }
        let start_time = now();
        let wdist_bits: u8 = self.offset_bits();
        let mut walks: u64 = 0;
        let ghost y = point_log(*pk);
        let ghost mut offsets: Seq<nat> = Seq::empty();
        while walks < u64::MAX
            invariant
                self.wf(),
                wdist_bits == self.offset_size(),
                wdist_bits <= 64,
                y == point_log(*pk),
                y != 0,
                offsets.len() == walks,
                forall|k: int|
                    0 <= k < offsets.len() ==> #[trigger] offsets[k] < pow2(
                        self.offset_size() as nat,
                    ),
                forall|k: int|
                    0 <= k < offsets.len() ==> #[trigger] self.walk_result(y, offsets[k]) is None,
            decreases u64::MAX - walks,
        {
            if Self::limit_reached(elapsed_millis(&start_time), max_time) {
                let r = Err(SolveError::TimedOut);
                assert(self.searched(y, max_time, offsets, r));
                return r;
            }
            let offset = match generate_random_scalar(wdist_bits) {
                Ok(scalar) => scalar,
                Err(_) => {
                    let r = Err(SolveError::RandomSource);
                    assert(self.searched(y, max_time, offsets, r));
                    return r;
                },
            };
            let ghost grown = offsets.push(scalar_value(offset));
            match self.walk_from(pk, &offset) {
                Some(x) => {
                    let r = Ok(x);
                    assert(self.searched(y, max_time, grown, r));
                    return r;
                },
                None => {},
            }
            proof {
                offsets = grown;
            }
            walks += 1;
        }
        let r = Err(SolveError::TimedOut);
        assert(self.searched(y, max_time, offsets, r));
        r
    }

    /// Solves `pk = x * G` for `x` with no limit of time.
    pub fn solve(&self, pk: &RistrettoPoint) -> (r: Result<u64, SolveError>)
        requires
            self.wf(),
        ensures
            r matches Ok(x) ==> x == point_log(*pk),
            point_log(*pk) == 0 ==> r == Ok::<u64, SolveError>(0),
            r matches Err(e) ==> e == SolveError::TimedOut || e == SolveError::RandomSource,
            self.search_ends(point_log(*pk), None, r),
    {
        self.solve_dlp(pk, None)
    }

    /// Solves `pk = x * G` for `x` within `max_time` milliseconds.
    pub fn solve_with_timeout(&self, pk: &RistrettoPoint, max_time: u64) -> (r: Result<
        u64,
        SolveError,
    >)
        requires
            self.wf(),
        ensures
            r matches Ok(x) ==> x == point_log(*pk),
            point_log(*pk) == 0 ==> r == Ok::<u64, SolveError>(0),
            r matches Err(e) ==> e == SolveError::TimedOut || e == SolveError::RandomSource,
            max_time == 0 && point_log(*pk) != 0 ==> r == Err::<u64, SolveError>(
                SolveError::TimedOut,
            ),
            self.search_ends(point_log(*pk), Some(max_time), r),
    {
        self.solve_dlp(pk, Some(max_time))
    }
}

impl DiscreteLogSolver for Bl12 {
    open spec fn wf(&self) -> bool {
        self.table.wf(self.parameters)
    }

    open spec fn genuine(&self) -> bool {
        self.table.sound(self.parameters)
    }

    open spec fn bits(&self) -> u8 {
        self.parameters.secret_size
    }

    open spec fn accepts(max_num_bits: u8) -> bool {
        1 <= max_num_bits <= 64
    }

    open spec fn deterministic() -> bool {
        false
    }

    /// The solver makes random choices: nothing is said of its result
    /// through this function.
    open spec fn answer(&self, y: nat) -> Result<u64, SolveError> {
        Err(SolveError::TimedOut)
    }

    fn algorithm_name() -> (name: &'static str)
        ensures
            name@ == "BL12"@,
    {
        "BL12"
    }

    /// Generates the table for the parameters that belong to the number
    /// of bits.
    fn new_and_compute_table(max_num_bits: u8) -> (r: Result<Self, TableError>)
        ensures
            r matches Err(e) ==> e == TableError::RandomSource,
            r matches Ok(solver) ==> solver.parameters == Parameters::schedule(max_num_bits)
                && solver.table.sound(solver.parameters) && solver.table.made_by_walks(
                solver.parameters,
            ),
    {
        match Parameters::for_secret_bits(max_num_bits) {
            Ok(parameters) => Bl12::from_parameters(parameters),
            Err(e) => Err(e),
        }
    }

    fn load_table(bytes: &[u8]) -> (r: Result<Self, TableError>)
        ensures
            r is Ok <==> crate::bl12::storage::decodable(bytes@),
            r matches Ok(solver) ==> solver.stored_in(bytes@),
    {
        Bl12::from_bytes(bytes)
    }

    fn solve(&self, pk: &RistrettoPoint) -> (r: Result<u64, SolveError>)
        ensures
            r matches Ok(x) ==> x == point_log(*pk),
            r matches Err(e) ==> e == SolveError::TimedOut || e == SolveError::RandomSource,
            self.search_ends(point_log(*pk), None, r),
    {
        self.solve_dlp(pk, None)
    }

    fn max_num_bits(&self) -> (r: u8) {
        self.parameters.secret_size
    }
}

} // verus!
