//! The serialization of the solver of Bernstein and Lange.
//!
//! A solver is stored as its parameters `i`, `W`, `N` and `R` (eight bytes
//! each) and the number of bits (one byte); the length of the list of step
//! scalars (eight bytes) and the step scalars, 32 bytes each; the length of
//! the list of step points and the step points, 32 bytes each; and the
//! number of distinguished points with, for each, its 32 bytes followed by
//! the 32 bytes of its logarithm.
//!
//! On reading, the map of distinguished points is built by putting the
//! entries into it in order: of a point that stands twice, the later
//! logarithm counts.

use crate::bl12::distinguished;
use crate::bl12::entries_of;
use crate::bl12::holds;
use crate::bl12::last_word;
use crate::bl12::lemma_insert_records;
use crate::bl12::precomputed_tables::PrecomputedTables;
use crate::bl12::presets::Presets;
use crate::bl12::recorded;
use crate::bl12::step_number;
use crate::bl12::Bl12;
use crate::bl12::Parameters;
use crate::bl12::Table;
use crate::bytes::le_bytes;
use crate::bytes::le_u256;
use crate::bytes::le_u64;
use crate::bytes::lemma_le_bytes_round_trip;
use crate::bytes::lemma_le_u64_bound;
use crate::codec::get_bytes32;
use crate::codec::get_u64;
use crate::codec::put_bytes32;
use crate::codec::put_u64;
use crate::error::TableError;
use crate::group::encodes;
use crate::group::group_order;
use crate::group::is_encoding;
use crate::group::point_compress;
use crate::group::point_decompress;
use crate::group::point_log;
use crate::group::reduced;
use crate::group::ristretto_encoding;
use crate::group::scalar_from_canonical_bytes;
use crate::group::scalar_to_bytes;
use crate::group::scalar_value;
use crate::point_map::PointMap;
use curve25519_dalek::ristretto::RistrettoPoint;
use curve25519_dalek::scalar::Scalar;
use vstd::prelude::*;

verus! {

/// The 32 bytes of `bytes` that are item `k` of a list that starts at `at`.
pub open spec fn item32(bytes: Seq<u8>, at: int, k: int) -> Seq<u8> {
    bytes.subrange(at + 32 * k, at + 32 * k + 32)
}

/// The parameters that `bytes` store.
pub open spec fn stored_parameters(bytes: Seq<u8>) -> Parameters {
    Parameters {
        i: le_u64(bytes, 0) as u64,
        W: le_u64(bytes, 8) as u64,
        N: le_u64(bytes, 16) as u64,
        R: le_u64(bytes, 24) as u64,
        secret_size: bytes[32],
    }
}

/// Where the step points stand in `bytes`.
pub open spec fn points_at(bytes: Seq<u8>) -> int {
    49 + 32 * (le_u64(bytes, 24) as int)
}

/// Where the distinguished points stand in `bytes`.
pub open spec fn entries_at(bytes: Seq<u8>) -> int {
    57 + 64 * (le_u64(bytes, 24) as int)
}

/// The number of distinguished points that `bytes` store.
pub open spec fn stored_entries(bytes: Seq<u8>) -> nat {
    le_u64(bytes, entries_at(bytes) - 8)
}

/// `bytes` have the layout of a stored solver: parameters that can be run
/// on, `R` step scalars from byte 41 on and `R` step points after them, and
/// at most 2^32 distinguished points, with nothing before, between or after
/// them.
pub open spec fn has_layout(bytes: Seq<u8>) -> bool {
    let r = le_u64(bytes, 24);
    &&& bytes.len() >= 57
    &&& stored_parameters(bytes).valid()
    &&& bytes.len() >= 57 + 64 * r
    &&& le_u64(bytes, 33) == r
    &&& le_u64(bytes, points_at(bytes) - 8) == r
    &&& stored_entries(bytes) <= 0x1_0000_0000
    &&& bytes.len() == 57 + 64 * r + 64 * stored_entries(bytes)
}

/// Each of the `count` 32-byte items from `at` on holds an integer below the
/// group order.
pub open spec fn scalars_stand(bytes: Seq<u8>, at: int, count: int) -> bool {
    forall|k: int| 0 <= k < count ==> le_u256(#[trigger] item32(bytes, at, k)) < group_order()
}

/// The second half of each of the `count` 64-byte entries from `at` on
/// holds an integer below the group order.
pub open spec fn values_stand(bytes: Seq<u8>, at: int, count: int) -> bool {
    forall|p: int|
        0 <= p < count ==> le_u256(#[trigger] item32(bytes, at, 2 * p + 1)) < group_order()
}

/// Each of the `count` 32-byte items from `at` on encodes a group element.
pub open spec fn points_stand(bytes: Seq<u8>, at: int, count: int) -> bool {
    forall|k: int| 0 <= k < count ==> is_encoding(#[trigger] item32(bytes, at, k))
}

/// `bytes` store a solver: they have the layout of one, each scalar is
/// below the group order, and each step point is the encoding of a group
/// element.
pub open spec fn decodable(bytes: Seq<u8>) -> bool {
    &&& has_layout(bytes)
    &&& scalars_stand(bytes, 41, le_u64(bytes, 24) as int)
    &&& points_stand(bytes, points_at(bytes), le_u64(bytes, 24) as int)
    &&& values_stand(bytes, entries_at(bytes), stored_entries(bytes) as int)
}

/// The `count` 64-byte entries that stand in `bytes` from `at` on: each
/// point with the integer that follows it.
pub open spec fn entry_list(bytes: Seq<u8>, at: int, count: nat) -> Seq<(Seq<u8>, nat)> {
    Seq::new(
        count,
        |p: int| (item32(bytes, at, 2 * p), le_u256(item32(bytes, at, 2 * p + 1))),
    )
}

/// The entries of the map that putting `entries` into an empty map in order
/// gives: a point that stands again keeps its place and takes the later
/// value.
pub open spec fn rebuilt(entries: Seq<(Seq<u8>, nat)>) -> Seq<(Seq<u8>, nat)>
    decreases entries.len(),
{
    if entries.len() == 0 {
        Seq::empty()
    } else {
        recorded(rebuilt(entries.drop_last()), entries.last().0, entries.last().1)
    }
}

/// Entries of which no two have the same point are rebuilt as they are.
pub proof fn lemma_rebuilt_as_they_are(entries: Seq<(Seq<u8>, nat)>)
    requires
        forall|a: int, b: int|
            0 <= a < b < entries.len() ==> (#[trigger] entries[a]).0 != (#[trigger] entries[b]).0,
    ensures
        rebuilt(entries) == entries,
    decreases entries.len(),
{
    if entries.len() == 0 {
        assert(entries =~= Seq::<(Seq<u8>, nat)>::empty());
    } else {
        let init = entries.drop_last();
        let last = entries.last();
        lemma_rebuilt_as_they_are(init);
        if holds(init, last.0) {
            let p = choose|p: int| 0 <= p < init.len() && (#[trigger] init[p]).0 == last.0;
            assert(entries[p].0 != entries[entries.len() - 1].0);
        }
        assert(init.push((last.0, last.1)) =~= entries);
    }
}

/// Entry `p` of `entries` is the last of them that holds its point.
pub open spec fn is_last_entry(entries: Seq<(Seq<u8>, nat)>, p: int) -> bool {
    &&& 0 <= p < entries.len()
    &&& forall|l: int| p < l < entries.len() ==> (#[trigger] entries[l]).0 != entries[p].0
}

/// What rebuilding gives holds each point of the entries once, with the
/// value of the last of the entries that hold the point.
pub proof fn lemma_rebuilt_takes_the_later(entries: Seq<(Seq<u8>, nat)>)
    ensures
        forall|a: int, b: int|
            0 <= a < b < rebuilt(entries).len() ==> (#[trigger] rebuilt(entries)[a]).0 != (
            #[trigger] rebuilt(entries)[b]).0,
        forall|q: int|
            0 <= q < rebuilt(entries).len() ==> holds(entries, (#[trigger] rebuilt(entries)[q]).0),
        forall|p: int| #[trigger]
            is_last_entry(entries, p) ==> exists|q: int|
                0 <= q < rebuilt(entries).len() && #[trigger] rebuilt(entries)[q] == entries[p],
    decreases entries.len(),
{
    if entries.len() != 0 {
        let init = entries.drop_last();
        let last = entries.last();
        let made = rebuilt(init);
        let whole = rebuilt(entries);
        lemma_rebuilt_takes_the_later(init);
        assert(whole == recorded(made, last.0, last.1));
        let at = if holds(made, last.0) {
            let c = choose|c: int| 0 <= c < made.len() && (#[trigger] made[c]).0 == last.0;
            assert(whole == made.update(c, (last.0, last.1)));
            c
        } else {
            assert(whole == made.push((last.0, last.1)));
            made.len() as int
        };
        assert(whole[at] == last);
        assert forall|q: int| 0 <= q < whole.len() && q != at implies whole[q] == made[q] by {}
        assert forall|a: int, b: int| 0 <= a < b < whole.len() implies (#[trigger] whole[a]).0 != (
        #[trigger] whole[b]).0 by {
            if a != at && b != at {
                assert(made[a].0 != made[b].0);
            } else if holds(made, last.0) {
                if a == at {
                    assert(made[a].0 != made[b].0);
                } else {
                    assert(made[a].0 != made[b].0);
                }
            } else {
                assert(b == at);
                assert(made[a].0 != last.0);
            }
        }
        assert forall|q: int| 0 <= q < whole.len() implies holds(
            entries,
            (#[trigger] whole[q]).0,
        ) by {
            if q == at {
                assert(entries[entries.len() - 1].0 == last.0);
            } else {
                assert(holds(init, made[q].0));
                let l = choose|l: int| 0 <= l < init.len() && (#[trigger] init[l]).0 == made[q].0;
                assert(entries[l].0 == made[q].0);
            }
        }
        assert forall|p: int| #[trigger] is_last_entry(entries, p) implies exists|q: int|
            0 <= q < whole.len() && #[trigger] whole[q] == entries[p] by {
            if p == entries.len() - 1 {
                assert(whole[at] == entries[p]);
            } else {
                assert(init[p] == entries[p]);
                assert forall|l: int| p < l < init.len() implies (#[trigger] init[l]).0
                    != init[p].0 by {
                    assert(entries[l].0 != entries[p].0);
                }
                assert(is_last_entry(init, p));
                let q = choose|q: int| 0 <= q < made.len() && #[trigger] made[q] == init[p];
                assert(entries[entries.len() - 1].0 != entries[p].0);
                assert(q != at);
                assert(whole[q] == entries[p]);
            }
        }
    }
}

/// The scalars are those that stand in `bytes` from `at` on.
pub open spec fn scalars_stored(scalars: Seq<Scalar>, bytes: Seq<u8>, at: int) -> bool {
    forall|k: int|
        0 <= k < scalars.len() ==> scalar_value(#[trigger] scalars[k]) == le_u256(
            item32(bytes, at, k),
        )
}

/// The points are those that stand in `bytes` from `at` on.
pub open spec fn points_stored(points: Seq<RistrettoPoint>, bytes: Seq<u8>, at: int) -> bool {
    forall|k: int|
        0 <= k < points.len() ==> encodes(item32(bytes, at, k), point_log(#[trigger] points[k]))
}

/// The entries are those that stand in `bytes` from `at` on.
pub open spec fn entries_stored(
    keys: Seq<Seq<u8>>,
    values: Seq<Scalar>,
    bytes: Seq<u8>,
    at: int,
) -> bool {
    &&& values.len() == keys.len()
    &&& forall|p: int| 0 <= p < keys.len() ==> #[trigger] keys[p] == item32(bytes, at, 2 * p)
    &&& forall|p: int|
        0 <= p < keys.len() ==> scalar_value(#[trigger] values[p]) == le_u256(
            item32(bytes, at, 2 * p + 1),
        )
}

/// The entries of a map that stand in bytes, each at its place, are what
/// rebuilding the stored entries gives.
pub proof fn lemma_entries_rebuild(map: PointMap<Scalar>, bytes: Seq<u8>, at: int)
    requires
        map.wf(),
        entries_stored(map.keys(), map.values(), bytes, at),
    ensures
        entries_of(map) == rebuilt(entry_list(bytes, at, map.keys().len())),
{
    map.lemma_shape();
    let entries = entries_of(map);
    assert(entry_list(bytes, at, map.keys().len()) =~= entries);
    assert forall|a: int, b: int| 0 <= a < b < entries.len() implies (#[trigger] entries[a]).0 != (
    #[trigger] entries[b]).0 by {
        assert(map.keys()[a] != map.keys()[b]);
    }
    lemma_rebuilt_as_they_are(entries);
}

/// What stands in a byte string stands in it still when more is put before
/// and after it.
pub proof fn lemma_item_in_place(before: Seq<u8>, part: Seq<u8>, after: Seq<u8>, k: int)
    requires
        0 <= k,
        32 * k + 32 <= part.len(),
    ensures
        item32(before + part + after, before.len() as int, k) == item32(part, 0, k),
{
    assert(item32(before + part + after, before.len() as int, k) =~= item32(part, 0, k));
}

/// An integer that stands in a byte string stands in it still when more is
/// appended.
pub proof fn lemma_u64_kept(before: Seq<u8>, added: Seq<u8>, at: int)
    requires
        0 <= at,
        at + 8 <= before.len(),
    ensures
        le_u64(before + added, at) == le_u64(before, at),
{
}

/// An item of a list stands in the list still when more is appended.
pub proof fn lemma_item_kept(before: Seq<u8>, added: Seq<u8>, k: int)
    requires
        0 <= k,
        32 * k + 32 <= before.len(),
    ensures
        item32(before + added, 0, k) == item32(before, 0, k),
{
    assert(item32(before + added, 0, k) =~= item32(before, 0, k));
}

/// Two items appended to a list of `2 * p` items are its items `2 * p` and
/// `2 * p + 1`.
pub proof fn lemma_items_appended(before: Seq<u8>, first: Seq<u8>, second: Seq<u8>, p: int)
    requires
        0 <= p,
        before.len() == 64 * p,
        first.len() == 32,
        second.len() == 32,
    ensures
        item32(before + first + second, 0, 2 * p) == first,
        item32(before + first + second, 0, 2 * p + 1) == second,
{
    assert(item32(before + first + second, 0, 2 * p) =~= first);
    assert(item32(before + first + second, 0, 2 * p + 1) =~= second);
}

/// An integer that stands in a byte string stands in it still when more is
/// put before and after it.
pub proof fn lemma_u64_in_place(before: Seq<u8>, x: u64, after: Seq<u8>)
    ensures
        le_u64(before + le_bytes(x) + after, before.len() as int) == x,
{
    lemma_le_bytes_round_trip(x);
    let bytes = before + le_bytes(x) + after;
    assert forall|b: int| 0 <= b < 8 implies bytes[before.len() + b] == le_bytes(x)[b] by {}
}

/// The bytes of a list of scalars, 32 bytes each.
pub fn scalars_bytes(scalars: &Vec<Scalar>) -> (r: Vec<u8>)
    requires
        forall|k: int| 0 <= k < scalars@.len() ==> reduced(#[trigger] scalars@[k]),
    ensures
        r@.len() == 32 * scalars@.len(),
        scalars_stored(scalars@, r@, 0),
{
    let mut out: Vec<u8> = Vec::new();
    let mut h: usize = 0;
    while h < scalars.len()
        invariant
            h <= scalars@.len(),
            forall|k: int| 0 <= k < scalars@.len() ==> reduced(#[trigger] scalars@[k]),
            out@.len() == 32 * h,
            forall|k: int|
                0 <= k < h ==> scalar_value(#[trigger] scalars@[k]) == le_u256(
                    item32(out@, 0, k),
                ),
        decreases scalars@.len() - h,
    {
        let ghost before = out@;
        let item = scalar_to_bytes(&scalars[h]);
        put_bytes32(&mut out, &item);
        proof {
            assert(item32(out@, 0, h as int) =~= item@);
            assert forall|k: int| 0 <= k < h implies item32(out@, 0, k) == item32(before, 0, k) by {
                assert(item32(out@, 0, k) =~= item32(before, 0, k));
            }
        }
        h += 1;
    }
    out
}

/// The bytes of a list of points, 32 bytes each.
pub fn points_bytes(points: &Vec<RistrettoPoint>) -> (r: Vec<u8>)
    ensures
        r@.len() == 32 * points@.len(),
        points_stored(points@, r@, 0),
{
    let mut out: Vec<u8> = Vec::new();
    let mut h: usize = 0;
    while h < points.len()
        invariant
            h <= points@.len(),
            out@.len() == 32 * h,
            forall|k: int|
                0 <= k < h ==> encodes(item32(out@, 0, k), point_log(#[trigger] points@[k])),
        decreases points@.len() - h,
    {
        let ghost before = out@;
        let item = point_compress(&points[h]);
        put_bytes32(&mut out, &item);
        proof {
            assert(item32(out@, 0, h as int) =~= item@);
            assert forall|k: int| 0 <= k < h implies item32(out@, 0, k) == item32(before, 0, k) by {
                assert(item32(out@, 0, k) =~= item32(before, 0, k));
            }
        }
        h += 1;
    }
    out
}

/// The bytes of the entries of a map: each point followed by its value.
pub fn entries_bytes(entries: &PointMap<Scalar>) -> (r: Vec<u8>)
    requires
        entries.wf(),
        forall|k: int| 0 <= k < entries.values().len() ==> reduced(#[trigger] entries.values()[k]),
    ensures
        r@.len() == 64 * entries.keys().len(),
        entries_stored(entries.keys(), entries.values(), r@, 0),
{
    let number: usize = entries.len();
    let ghost keys = entries.keys();
    let ghost values = entries.values();
    proof {
        entries.lemma_shape();
    }
    let mut out: Vec<u8> = Vec::new();
    let mut p: usize = 0;
    while p < number
        invariant
            p <= number,
            entries.wf(),
            keys == entries.keys(),
            values == entries.values(),
            number == keys.len(),
            number == values.len(),
            forall|k: int| 0 <= k < values.len() ==> reduced(#[trigger] values[k]),
            forall|a: int| 0 <= a < keys.len() ==> (#[trigger] keys[a]).len() == 32,
            out@.len() == 64 * p,
            forall|k: int| 0 <= k < p ==> #[trigger] keys[k] == item32(out@, 0, 2 * k),
            forall|k: int|
                0 <= k < p ==> scalar_value(#[trigger] values[k]) == le_u256(
                    item32(out@, 0, 2 * k + 1),
                ),
        decreases number - p,
    {
        let ghost before = out@;
        put_bytes32(&mut out, entries.key_at(p));
        let item = scalar_to_bytes(entries.value_at(p));
        put_bytes32(&mut out, &item);
        proof {
            let key = keys[p as int];
            assert(out@ == before + key + item@);
            lemma_items_appended(before, key, item@, p as int);
            assert forall|k: int| 0 <= k < p implies #[trigger] keys[k] == item32(
                out@,
                0,
                2 * k,
            ) by {
                lemma_item_kept(before, key + item@, 2 * k);
                assert(out@ =~= before + (key + item@));
            }
            assert forall|k: int| 0 <= k < p implies scalar_value(#[trigger] values[k])
                == le_u256(item32(out@, 0, 2 * k + 1)) by {
                lemma_item_kept(before, key + item@, 2 * k + 1);
                assert(out@ =~= before + (key + item@));
            }
        }
        p += 1;
    }
    out
}

/// Reads the `count` scalars that stand in `bytes` from `at` on; `None`
/// where one of them is not below the group order.
pub fn get_scalars(bytes: &[u8], at: usize, count: usize) -> (r: Option<Vec<Scalar>>)
    requires
        at + 32 * count <= bytes@.len(),
    ensures
        r is Some <==> scalars_stand(bytes@, at as int, count as int),
        r matches Some(scalars) ==> scalars@.len() == count && scalars_stored(
            scalars@,
            bytes@,
            at as int,
        ) && forall|k: int| 0 <= k < count ==> reduced(#[trigger] scalars@[k]),
{
    let total: usize = bytes.len();
    let mut scalars: Vec<Scalar> = Vec::with_capacity(count);
    let mut h: usize = 0;
    while h < count
        invariant
            h <= count,
            bytes@.len() == total,
            at + 32 * count <= total,
            scalars@.len() == h,
            forall|k: int| 0 <= k < h ==> reduced(#[trigger] scalars@[k]),
            forall|k: int|
                0 <= k < h ==> scalar_value(#[trigger] scalars@[k]) == le_u256(
                    item32(bytes@, at as int, k),
                ),
            forall|k: int|
                0 <= k < h ==> le_u256(#[trigger] item32(bytes@, at as int, k)) < group_order(),
        decreases count - h,
    {
        let item = get_bytes32(bytes, at + 32 * h);
        assert(item@ == item32(bytes@, at as int, h as int));
        match scalar_from_canonical_bytes(&item) {
            Some(scalar) => {
                scalars.push(scalar);
            },
            None => {
                return None;
            },
        }
        h += 1;
    }
    Some(scalars)
}

/// Reads the `count` points that stand in `bytes` from `at` on; `None`
/// where one of them encodes no group element.
pub fn get_step_points(bytes: &[u8], at: usize, count: usize) -> (r: Option<Vec<RistrettoPoint>>)
    requires
        at + 32 * count <= bytes@.len(),
    ensures
        r is Some <==> points_stand(bytes@, at as int, count as int),
        r matches Some(points) ==> points@.len() == count && points_stored(
            points@,
            bytes@,
            at as int,
        ),
{
    let total: usize = bytes.len();
    let mut points: Vec<RistrettoPoint> = Vec::with_capacity(count);
    let mut h: usize = 0;
    while h < count
        invariant
            h <= count,
            bytes@.len() == total,
            at + 32 * count <= total,
            points@.len() == h,
            forall|k: int|
                0 <= k < h ==> encodes(
                    item32(bytes@, at as int, k),
                    point_log(#[trigger] points@[k]),
                ),
            forall|k: int| 0 <= k < h ==> is_encoding(#[trigger] item32(bytes@, at as int, k)),
        decreases count - h,
    {
        let item = get_bytes32(bytes, at + 32 * h);
        assert(item@ == item32(bytes@, at as int, h as int));
        match point_decompress(&item) {
            Some(point) => {
                assert(ristretto_encoding(point_log(point)) == item@);
                points.push(point);
            },
            None => {
                assert(!is_encoding(item32(bytes@, at as int, h as int)));
                return None;
            },
        }
        h += 1;
    }
    Some(points)
}

/// Reads the `count` entries that stand in `bytes` from `at` on and puts
/// them into a map in order; `None` where a value is not below the group
/// order.
pub fn get_entries(bytes: &[u8], at: usize, count: usize) -> (r: Option<PointMap<Scalar>>)
    requires
        at + 64 * count <= bytes@.len(),
        count <= 0x1_0000_0000,
    ensures
        r is Some <==> values_stand(bytes@, at as int, count as int),
        r matches Some(entries) ==> entries.wf() && entries.keys().len() <= count && entries_of(
            entries,
        ) == rebuilt(entry_list(bytes@, at as int, count as nat)) && forall|k: int|
            0 <= k < entries.values().len() ==> reduced(#[trigger] entries.values()[k]),
{
    let total: usize = bytes.len();
    let mut entries: PointMap<Scalar> = PointMap::new();
    let mut p: usize = 0;
    assert(entry_list(bytes@, at as int, 0) =~= Seq::<(Seq<u8>, nat)>::empty());
    assert(entries_of(entries) =~= Seq::<(Seq<u8>, nat)>::empty());
    while p < count
        invariant
            p <= count,
            count <= 0x1_0000_0000,
            bytes@.len() == total,
            at + 64 * count <= total,
            entries.wf(),
            entries.keys().len() <= p,
            forall|k: int| 0 <= k < entries.values().len() ==> reduced(#[trigger] entries.values()[k]),
            entries_of(entries) == rebuilt(entry_list(bytes@, at as int, p as nat)),
            forall|k: int|
                0 <= k < p ==> le_u256(#[trigger] item32(bytes@, at as int, 2 * k + 1))
                    < group_order(),
        decreases count - p,
    {
        let key = get_bytes32(bytes, at + 64 * p);
        let item = get_bytes32(bytes, at + 64 * p + 32);
        assert(key@ == item32(bytes@, at as int, 2 * p));
        assert(item@ == item32(bytes@, at as int, 2 * p + 1));
        let value = match scalar_from_canonical_bytes(&item) {
            Some(scalar) => scalar,
            None => {
                return None;
            },
        };
        let ghost before = entries;
        proof {
            before.lemma_shape();
        }
        entries.insert(key, value);
        proof {
            lemma_insert_records(before, entries, key@, value);
            let grown = entry_list(bytes@, at as int, (p + 1) as nat);
            assert(grown.drop_last() =~= entry_list(bytes@, at as int, p as nat));
            assert(grown.last() == (key@, scalar_value(value)));
            assert forall|k: int| 0 <= k < entries.values().len() implies reduced(
                #[trigger] entries.values()[k],
            ) by {
                if k < before.values().len() {
                    assert(reduced(before.values()[k]));
                }
            }
        }
        p += 1;
    }
    Some(entries)
}

/// The parameters and the number of step scalars that stand at the start
/// of `bytes`, where the parameters can be run on and the bytes are as long
/// as their lists of step scalars and step points ask.
pub fn get_head(bytes: &[u8]) -> (r: Option<Parameters>)
    ensures
        r is Some <==> bytes@.len() >= 57 && stored_parameters(bytes@).valid() && bytes@.len()
            >= 57 + 64 * le_u64(bytes@, 24) && le_u64(bytes@, 33) == le_u64(bytes@, 24),
        r matches Some(parameters) ==> parameters == stored_parameters(bytes@),
{
    let total: usize = bytes.len();
    if total < 57 {
        return None;
    }
    proof {
        lemma_le_u64_bound(bytes@, 0);
        lemma_le_u64_bound(bytes@, 8);
        lemma_le_u64_bound(bytes@, 16);
        lemma_le_u64_bound(bytes@, 24);
        lemma_le_u64_bound(bytes@, 33);
    }
    let parameters = Parameters {
        i: get_u64(bytes, 0),
        W: get_u64(bytes, 8),
        N: get_u64(bytes, 16),
        R: get_u64(bytes, 24),
        secret_size: bytes[32],
    };
    if !parameters.check() {
        return None;
    }
    if (total as u64) < 57 + 64 * parameters.R || get_u64(bytes, 33) != parameters.R {
        return None;
    }
    Some(parameters)
}

impl Bl12 {
    /// `bytes` store a solver, and this solver holds what they store: their
    /// parameters, step scalars and step points, and the map that putting
    /// their distinguished points into an empty map in order gives.
    pub open spec fn stored_in(&self, bytes: Seq<u8>) -> bool {
        &&& decodable(bytes)
        &&& self.parameters == stored_parameters(bytes)
        &&& self.table.step_scalars@.len() == self.parameters.R
        &&& self.table.step_points@.len() == self.parameters.R
        &&& scalars_stored(self.table.step_scalars@, bytes, 41)
        &&& points_stored(self.table.step_points@, bytes, points_at(bytes))
        &&& self.table.entries() == rebuilt(
            entry_list(bytes, entries_at(bytes), stored_entries(bytes)),
        )
    }

    /// Reads a solver from the bytes that store it. The bytes are corrupt
    /// where they have not the layout of a solver, where the parameters
    /// cannot be run on, where a scalar is not below the group order, or
    /// where a step point encodes no group element. Of a distinguished point
    /// that stands twice, the later logarithm counts.
    #[verifier::rlimit(50)]
    pub fn from_bytes(bytes: &[u8]) -> (r: Result<Bl12, TableError>)
        ensures
            r is Ok <==> decodable(bytes@),
            r matches Ok(solver) ==> solver.wf() && solver.stored_in(bytes@),
            r matches Err(e) ==> e == TableError::CorruptTable,
    {
        let total: usize = bytes.len();
        let parameters = match get_head(bytes) {
            Some(parameters) => parameters,
            None => {
                return Err(TableError::CorruptTable);
            },
        };
        let count: usize = parameters.R as usize;
        proof {
            lemma_le_u64_bound(bytes@, 41 + 32 * count);
            lemma_le_u64_bound(bytes@, 49 + 64 * count);
        }
        if get_u64(bytes, 41 + 32 * count) != parameters.R {
            return Err(TableError::CorruptTable);
        }
        let entries: u64 = get_u64(bytes, 49 + 64 * count);
        if entries > 0x1_0000_0000 {
            return Err(TableError::CorruptTable);
        }
        if (total as u64) != 57 + 64 * parameters.R + 64 * entries {
            return Err(TableError::CorruptTable);
        }
        assert(has_layout(bytes@));
        let step_scalars = match get_scalars(bytes, 41, count) {
            Some(scalars) => scalars,
            None => {
                return Err(TableError::CorruptTable);
            },
        };
        let step_points = match get_step_points(bytes, 49 + 32 * count, count) {
            Some(points) => points,
            None => {
                return Err(TableError::CorruptTable);
            },
        };
        let distinguished_points = match get_entries(bytes, 57 + 64 * count, entries as usize) {
            Some(map) => map,
            None => {
                return Err(TableError::CorruptTable);
            },
        };
        Ok(
            Bl12 {
                parameters,
                table: Table { step_points, step_scalars, distinguished_points },
            },
        )
    }

    /// Stores the solver as bytes. `from_bytes` reads it back.
    pub fn to_bytes(&self) -> (r: Vec<u8>)
        requires
            self.wf(),
        ensures
            self.stored_in(r@),
    {
        let count: u64 = self.parameters.R;
        let number: usize = self.table.distinguished_points.len();
        proof {
            self.table.distinguished_points.lemma_shape();
        }
        let mut out: Vec<u8> = Vec::new();
        put_u64(&mut out, self.parameters.i);
        put_u64(&mut out, self.parameters.W);
        put_u64(&mut out, self.parameters.N);
        put_u64(&mut out, self.parameters.R);
        out.push(self.parameters.secret_size);
        put_u64(&mut out, count);
        let ghost head = out@;
        let mut scalars = scalars_bytes(&self.table.step_scalars);
        let ghost scalars_part = scalars@;
        out.append(&mut scalars);
        put_u64(&mut out, count);
        let mut points = points_bytes(&self.table.step_points);
        let ghost points_part = points@;
        out.append(&mut points);
        put_u64(&mut out, number as u64);
        let mut entries = entries_bytes(&self.table.distinguished_points);
        let ghost entries_part = entries@;
        out.append(&mut entries);
        proof {
            lemma_le_bytes_round_trip(self.parameters.i);
            lemma_le_bytes_round_trip(self.parameters.W);
            lemma_le_bytes_round_trip(self.parameters.N);
            lemma_le_bytes_round_trip(count);
            assert(head.len() == 41);
            assert(stored_parameters(head) == self.parameters);
            assert(le_u64(head, 33) == count);
            lemma_stored(
                self.parameters,
                head,
                scalars_part,
                points_part,
                number as u64,
                entries_part,
                self.table.step_scalars@,
                self.table.step_points@,
                self.table.distinguished_points.keys(),
                self.table.distinguished_points.values(),
            );
            assert(out@ =~= head + scalars_part + le_bytes(count) + points_part + le_bytes(
                number as u64,
            ) + entries_part);
            lemma_entries_rebuild(self.table.distinguished_points, out@, entries_at(out@));
        }
        out
    }
}

impl Bl12 {
    /// Makes a solver of a table that was made ahead of time, from the
    /// bytes that store it. The preset names the table; the solver holds
    /// what the bytes store, its parameters among it, whatever the preset's
    /// are. The bytes are corrupt where they store no solver.
    pub fn from_preset(preset: Presets, bytes: &[u8]) -> (r: Result<Bl12, TableError>)
        ensures
            r is Ok <==> decodable(bytes@),
            r matches Ok(solver) ==> solver.wf() && solver.stored_in(bytes@),
            r matches Err(e) ==> e == TableError::CorruptTable,
    {
        Bl12::from_bytes(bytes)
    }

    /// Makes a solver of a table that was made ahead of time, from the
    /// bytes that store it. The bytes are corrupt where they store no
    /// solver, or one for another number of bits than `table` stands for.
    pub fn from_precomputed_table(table: PrecomputedTables, bytes: &[u8]) -> (r: Result<
        Bl12,
        TableError,
    >)
        ensures
            r is Ok <==> decodable(bytes@) && bytes@[32] == 32,
            r matches Ok(solver) ==> solver.wf() && solver.stored_in(bytes@),
            r matches Err(e) ==> e == TableError::CorruptTable,
    {
        match Bl12::from_bytes(bytes) {
            Ok(solver) => {
                if solver.parameters.secret_size == table.max_num_bits() {
                    Ok(solver)
                } else {
                    Err(TableError::CorruptTable)
                }
            },
            Err(e) => Err(e),
        }
    }
}

/// Two tables with the same parameters, whose step points and step scalars
/// stand for the same group elements and integers, walk alike.
pub proof fn lemma_walks_alike(
    first: &Table,
    second: &Table,
    parameters: Parameters,
    at: nat,
    distance: nat,
    steps: nat,
)
    requires
        parameters.R >= 1,
        first.step_points@.len() == parameters.R,
        second.step_points@.len() == parameters.R,
        first.step_scalars@.len() == parameters.R,
        second.step_scalars@.len() == parameters.R,
        forall|h: int|
            0 <= h < parameters.R ==> point_log(#[trigger] first.step_points@[h]) == point_log(
                second.step_points@[h],
            ),
        forall|h: int|
            0 <= h < parameters.R ==> scalar_value(#[trigger] first.step_scalars@[h])
                == scalar_value(second.step_scalars@[h]),
    ensures
        first.walk(parameters, at, distance, steps) == second.walk(parameters, at, distance, steps),
    decreases steps,
{
    let encoding = ristretto_encoding(at);
    if steps != 0 && !distinguished(encoding, parameters.W) {
        let word = last_word(encoding);
        let mask = (parameters.R - 1) as u64;
        assert(word & mask <= mask) by (bit_vector);
        let h = step_number(encoding, parameters.R) as int;
        lemma_walks_alike(
            first,
            second,
            parameters,
            (at + point_log(first.step_points@[h])) % group_order(),
            (distance + scalar_value(first.step_scalars@[h])) % group_order(),
            (steps - 1) as nat,
        );
    }
}

/// Two solvers that the same bytes store solve alike: a solver that was
/// stored and read back gives, for every point and every random offset of a
/// walk, what the first one gives.
pub proof fn lemma_stored_solver_solves_alike(
    first: &Bl12,
    second: &Bl12,
    bytes: Seq<u8>,
    y: nat,
    offset: nat,
)
    requires
        first.wf(),
        second.wf(),
        first.stored_in(bytes),
        second.stored_in(bytes),
    ensures
        second.walk_result(y, offset) == first.walk_result(y, offset),
        second.parameters == first.parameters,
{
    let parameters = first.parameters;
    assert(parameters.R >= 1);
    assert forall|h: int| 0 <= h < parameters.R implies point_log(
        #[trigger] first.table.step_points@[h],
    ) == point_log(second.table.step_points@[h]) by {
        assert(encodes(
            item32(bytes, points_at(bytes), h),
            point_log(first.table.step_points@[h]),
        ));
        assert(encodes(
            item32(bytes, points_at(bytes), h),
            point_log(second.table.step_points@[h]),
        ));
    }
    lemma_walks_alike(
        &first.table,
        &second.table,
        parameters,
        (y + offset) % group_order(),
        offset,
        (parameters.i * parameters.W) as nat,
    );
    let entries = first.table.entries();
    let keys = first.table.distinguished_points.keys();
    let others = second.table.distinguished_points.keys();
    assert(second.table.entries() == entries);
    assert(others.len() == entries.len());
    assert forall|p: int| 0 <= p < keys.len() implies keys[p] == others[p] by {
        assert(first.table.entries()[p].0 == second.table.entries()[p].0);
    }
    assert(keys =~= others);
    assert forall|p: int| 0 <= p < keys.len() implies scalar_value(
        first.table.distinguished_points.values()[p],
    ) == scalar_value(#[trigger] second.table.distinguished_points.values()[p]) by {
        assert(first.table.entries()[p].1 == second.table.entries()[p].1);
    }
}

/// Where the parts of a stored solver stand in the bytes made up of them.
#[verifier::rlimit(50)]
pub proof fn lemma_parts_in_place(
    head: Seq<u8>,
    scalars_part: Seq<u8>,
    r: u64,
    points_part: Seq<u8>,
    number: u64,
    entries_part: Seq<u8>,
)
    requires
        head.len() == 41,
        scalars_part.len() == 32 * r,
        points_part.len() == 32 * r,
        entries_part.len() == 64 * number,
    ensures
        ({
            let bytes = head + scalars_part + le_bytes(r) + points_part + le_bytes(number)
                + entries_part;
            &&& bytes.len() == 57 + 64 * r + 64 * number
            &&& bytes[32] == head[32]
            &&& le_u64(bytes, 0) == le_u64(head, 0)
            &&& le_u64(bytes, 8) == le_u64(head, 8)
            &&& le_u64(bytes, 16) == le_u64(head, 16)
            &&& le_u64(bytes, 24) == le_u64(head, 24)
            &&& le_u64(bytes, 33) == le_u64(head, 33)
            &&& le_u64(bytes, 41 + 32 * r) == r
            &&& le_u64(bytes, 49 + 64 * r) == number
            &&& forall|k: int|
                0 <= k < r ==> #[trigger] item32(bytes, 41, k) == item32(scalars_part, 0, k)
            &&& forall|k: int|
                0 <= k < r ==> #[trigger] item32(bytes, 49 + 32 * r, k) == item32(
                    points_part,
                    0,
                    k,
                )
            &&& forall|k: int|
                0 <= k < 2 * number ==> #[trigger] item32(bytes, 57 + 64 * r, k) == item32(
                    entries_part,
                    0,
                    k,
                )
        }),
{
    let c1 = le_bytes(r);
    let c2 = le_bytes(number);
    let first = head + scalars_part;
    let second = first + c1 + points_part;
    let bytes = second + c2 + entries_part;
    let tail3 = c2 + entries_part;
    let tail2 = points_part + tail3;
    let tail1 = c1 + tail2;
    let rest = scalars_part + tail1;
    let empty = Seq::<u8>::empty();
    lemma_le_bytes_round_trip(r);
    lemma_le_bytes_round_trip(number);
    lemma_joined_in_turn(second, c2, entries_part);
    lemma_joined_in_turn(first + c1, points_part, tail3);
    lemma_joined_in_turn(first, c1, tail2);
    lemma_joined_in_turn(head, scalars_part, tail1);
    assert(bytes == head + rest);
    assert(bytes == first + c1 + tail2);
    assert(bytes == (first + c1) + points_part + tail3);
    assert(bytes =~= (second + c2) + entries_part + empty);
    lemma_u64_kept(head, rest, 0);
    lemma_u64_kept(head, rest, 8);
    lemma_u64_kept(head, rest, 16);
    lemma_u64_kept(head, rest, 24);
    lemma_u64_kept(head, rest, 33);
    assert(bytes[32] == head[32]);
    lemma_u64_in_place(first, r, tail2);
    lemma_u64_in_place(second, number, entries_part);
    lemma_items_in_place(head, scalars_part, tail1, r as int);
    lemma_items_in_place(first + c1, points_part, tail3, r as int);
    lemma_items_in_place(second + c2, entries_part, empty, 2 * number);
}

/// Three byte strings joined are the same whichever two are joined first.
pub proof fn lemma_joined_in_turn(a: Seq<u8>, b: Seq<u8>, c: Seq<u8>)
    ensures
        (a + b) + c == a + (b + c),
{
    assert((a + b) + c =~= a + (b + c));
}

/// The items of a list stand in it still when more is put before and after
/// it.
pub proof fn lemma_items_in_place(before: Seq<u8>, part: Seq<u8>, after: Seq<u8>, count: int)
    requires
        32 * count <= part.len(),
    ensures
        forall|k: int|
            0 <= k < count ==> #[trigger] item32(before + part + after, before.len() as int, k)
                == item32(part, 0, k),
{
    assert forall|k: int| 0 <= k < count implies #[trigger] item32(
        before + part + after,
        before.len() as int,
        k,
    ) == item32(part, 0, k) by {
        lemma_item_in_place(before, part, after, k);
    }
}

/// The bytes made up of the parts of a stored solver store that solver.
#[verifier::rlimit(80)]
pub proof fn lemma_stored(
    parameters: Parameters,
    head: Seq<u8>,
    scalars_part: Seq<u8>,
    points_part: Seq<u8>,
    number: u64,
    entries_part: Seq<u8>,
    scalars: Seq<Scalar>,
    points: Seq<RistrettoPoint>,
    keys: Seq<Seq<u8>>,
    values: Seq<Scalar>,
)
    requires
        parameters.valid(),
        head.len() == 41,
        stored_parameters(head) == parameters,
        le_u64(head, 33) == parameters.R,
        scalars.len() == parameters.R,
        points.len() == parameters.R,
        scalars_part.len() == 32 * parameters.R,
        points_part.len() == 32 * parameters.R,
        entries_part.len() == 64 * number,
        number <= 0x1_0000_0000,
        keys.len() == number,
        scalars_stored(scalars, scalars_part, 0),
        points_stored(points, points_part, 0),
        entries_stored(keys, values, entries_part, 0),
    ensures
        ({
            let bytes = head + scalars_part + le_bytes(parameters.R) + points_part + le_bytes(
                number,
            ) + entries_part;
            &&& decodable(bytes)
            &&& stored_parameters(bytes) == parameters
            &&& stored_entries(bytes) == number
            &&& scalars_stored(scalars, bytes, 41)
            &&& points_stored(points, bytes, points_at(bytes))
            &&& entries_stored(keys, values, bytes, entries_at(bytes))
        }),
{
    let r = parameters.R;
    let bytes = head + scalars_part + le_bytes(r) + points_part + le_bytes(number) + entries_part;
    lemma_parts_in_place(head, scalars_part, r, points_part, number, entries_part);
    assert(stored_parameters(bytes) == parameters) by {
        assert(bytes[32] == head[32]);
    }
    assert(points_at(bytes) == 49 + 32 * r);
    assert(entries_at(bytes) == 57 + 64 * r);
    assert(has_layout(bytes));
    assert forall|k: int| 0 <= k < r implies le_u256(#[trigger] item32(bytes, 41, k))
        < group_order() by {
        assert(scalar_value(scalars[k]) == le_u256(item32(scalars_part, 0, k)));
    }
    assert forall|k: int| 0 <= k < r implies is_encoding(
        #[trigger] item32(bytes, 49 + 32 * r, k),
    ) by {
        assert(encodes(item32(points_part, 0, k), point_log(points[k])));
        assert(ristretto_encoding(point_log(points[k])) == item32(bytes, 49 + 32 * r, k));
    }
    assert forall|k: int| 0 <= k < number implies le_u256(
        #[trigger] item32(bytes, 57 + 64 * r, 2 * k + 1),
    ) < group_order() by {
        assert(scalar_value(values[k]) == le_u256(item32(entries_part, 0, 2 * k + 1)));
    }
    assert forall|k: int| 0 <= k < scalars.len() implies scalar_value(#[trigger] scalars[k])
        == le_u256(item32(bytes, 41, k)) by {
        assert(item32(bytes, 41, k) == item32(scalars_part, 0, k));
    }
    assert forall|k: int| 0 <= k < points.len() implies encodes(
        item32(bytes, 49 + 32 * r, k),
        point_log(#[trigger] points[k]),
    ) by {
        assert(item32(bytes, 49 + 32 * r, k) == item32(points_part, 0, k));
    }
    assert forall|p: int| 0 <= p < keys.len() implies #[trigger] keys[p] == item32(
        bytes,
        57 + 64 * r,
        2 * p,
    ) by {
        assert(item32(bytes, 57 + 64 * r, 2 * p) == item32(entries_part, 0, 2 * p));
    }
    assert forall|p: int| 0 <= p < keys.len() implies scalar_value(#[trigger] values[p])
        == le_u256(item32(bytes, 57 + 64 * r, 2 * p + 1)) by {
        assert(item32(bytes, 57 + 64 * r, 2 * p + 1) == item32(entries_part, 0, 2 * p + 1));
    }
}

} // verus!
