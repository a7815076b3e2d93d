//! The compact serialization of tables: integers as eight bytes, least
//! significant byte first; points and scalars as their 32 bytes; a list as
//! its length followed by its items in order.

use crate::bytes::le_bytes;
use crate::bytes::le_u64;
use crate::bytes::lemma_le_bytes_round_trip;
use crate::bytes::lemma_le_u64_bound;
use crate::point_index::PointIndex;
use vstd::prelude::*;

verus! {

/// The bytes of a list of 32-byte items, one item after the other.
pub open spec fn concat32(items: Seq<Seq<u8>>) -> Seq<u8> {
    Seq::new(32 * items.len(), |i: int| items[i / 32][i % 32])
}

/// The list of the `count` 32-byte items that stand in `bytes` from `at` on.
pub open spec fn split32(bytes: Seq<u8>, at: int, count: nat) -> Seq<Seq<u8>> {
    Seq::new(count, |j: int| bytes.subrange(at + 32 * j, at + 32 * j + 32))
}

/// Splitting what was joined gives back the items.
pub proof fn lemma_split_concat(before: Seq<u8>, items: Seq<Seq<u8>>, after: Seq<u8>)
    requires
        forall|j: int| 0 <= j < items.len() ==> (#[trigger] items[j]).len() == 32,
    ensures
        split32(before + concat32(items) + after, before.len() as int, items.len()) == items,
{
    let bytes = before + concat32(items) + after;
    let parts = split32(bytes, before.len() as int, items.len());
    assert forall|j: int| 0 <= j < items.len() implies #[trigger] parts[j] == items[j] by {
        let part = bytes.subrange(before.len() + 32 * j, before.len() + 32 * j + 32);
        assert forall|b: int| 0 <= b < 32 implies part[b] == items[j][b] by {
            assert(bytes[before.len() + 32 * j + b] == concat32(items)[32 * j + b]);
            assert((32 * j + b) / 32 == j);
            assert((32 * j + b) % 32 == b);
        }
        assert(part =~= items[j]);
    }
    assert(parts =~= items);
}

/// Appends the eight bytes of `x`, least significant byte first.
pub fn put_u64(out: &mut Vec<u8>, x: u64)
    ensures
        final(out)@ == old(out)@ + le_bytes(x),
{
    let ghost start = out@;
    out.push((x % 0x100) as u8);
    out.push((x / 0x100 % 0x100) as u8);
    out.push((x / 0x1_0000 % 0x100) as u8);
    out.push((x / 0x100_0000 % 0x100) as u8);
    out.push((x / 0x1_0000_0000 % 0x100) as u8);
    out.push((x / 0x100_0000_0000 % 0x100) as u8);
    out.push((x / 0x1_0000_0000_0000 % 0x100) as u8);
    out.push((x / 0x100_0000_0000_0000 % 0x100) as u8);
    assert(out@ =~= start + le_bytes(x));
}

/// Appends 32 bytes.
pub fn put_bytes32(out: &mut Vec<u8>, item: &[u8; 32])
    ensures
        final(out)@ == old(out)@ + item@,
{
    let ghost start = out@;
    let mut b: usize = 0;
    while b < 32
        invariant
            b <= 32,
            out@ == start + item@.take(b as int),
        decreases 32 - b,
    {
        out.push(item[b]);
        assert(out@ =~= start + item@.take(b + 1));
        b += 1;
    }
    assert(item@.take(32) =~= item@);
}

/// Reads the integer that the eight bytes from `at` on hold, least
/// significant byte first.
pub fn get_u64(bytes: &[u8], at: usize) -> (r: u64)
    requires
        at + 8 <= bytes@.len(),
    ensures
        r == le_u64(bytes@, at as int),
{
    let b0: u64 = bytes[at] as u64;
    let b1: u64 = bytes[at + 1] as u64;
    let b2: u64 = bytes[at + 2] as u64;
    let b3: u64 = bytes[at + 3] as u64;
    let b4: u64 = bytes[at + 4] as u64;
    let b5: u64 = bytes[at + 5] as u64;
    let b6: u64 = bytes[at + 6] as u64;
    let b7: u64 = bytes[at + 7] as u64;
    b0 + 0x100 * b1 + 0x1_0000 * b2 + 0x100_0000 * b3 + 0x1_0000_0000 * b4 + 0x100_0000_0000 * b5
        + 0x1_0000_0000_0000 * b6 + 0x100_0000_0000_0000 * b7
}

/// Reads the 32 bytes from `at` on.
pub fn get_bytes32(bytes: &[u8], at: usize) -> (r: [u8; 32])
    requires
        at + 32 <= bytes@.len(),
    ensures
        r@ == bytes@.subrange(at as int, at + 32),
{
    let total: usize = bytes.len();
    let mut item: [u8; 32] = [0u8; 32];
    let mut b: usize = 0;
    while b < 32
        invariant
            b <= 32,
            at + 32 <= bytes@.len(),
            bytes@.len() == total,
            forall|k: int| 0 <= k < b ==> item@[k] == bytes@[at + k],
        decreases 32 - b,
    {
        item[b] = bytes[at + b];
        b += 1;
    }
    assert(item@ =~= bytes@.subrange(at as int, at + 32));
    item
}

/// Appends the points of a list, one after the other.
pub fn put_points(out: &mut Vec<u8>, points: &PointIndex)
    ensures
        final(out)@ == old(out)@ + concat32(points@),
{
    let ghost start = out@;
    let count: usize = points.len();
    let mut j: usize = 0;
    proof {
        points.lemma_entries_are_32_bytes();
    }
    while j < count
        invariant
            j <= count,
            count == points@.len(),
            forall|k: int| 0 <= k < points@.len() ==> (#[trigger] points@[k]).len() == 32,
            out@ == start + concat32(points@.take(j as int)),
        decreases count - j,
    {
        let ghost before = out@;
        put_bytes32(out, points.key(j));
        proof {
            let grown = concat32(points@.take(j + 1));
            assert(out@.len() == start.len() + grown.len());
            assert forall|i: int| 0 <= i < out@.len() implies out@[i] == (start + grown)[i] by {
                if i >= start.len() {
                    let n = i - start.len();
                    if n < 32 * j {
                        assert(before[i] == concat32(points@.take(j as int))[n]);
                        assert(n / 32 < j);
                    } else {
                        assert(n / 32 == j);
                        assert(out@[i] == points@[j as int][n - 32 * j]);
                    }
                }
            }
            assert(out@ =~= start + grown);
        }
        j += 1;
    }
    assert(points@.take(count as int) =~= points@);
}

/// Reads the `count` points that stand in `bytes` from `at` on into a list.
pub fn get_points(bytes: &[u8], at: usize, count: usize) -> (r: PointIndex)
    requires
        at + 32 * count <= bytes@.len(),
        count <= u32::MAX,
    ensures
        r.wf(),
        r@ == split32(bytes@, at as int, count as nat),
{
    let total: usize = bytes.len();
    let mut points = PointIndex::new();
    let mut j: usize = 0;
    while j < count
        invariant
            j <= count,
            count <= u32::MAX,
            at + 32 * count <= bytes@.len(),
            bytes@.len() == total,
            points.wf(),
            points@ == split32(bytes@, at as int, j as nat),
        decreases count - j,
    {
        let item = get_bytes32(bytes, at + 32 * j);
        points.push(item);
        assert(points@ =~= split32(bytes@, at as int, (j + 1) as nat));
        j += 1;
    }
    points
}

/// The bytes of a list of integers, eight bytes each, one after the other.
pub open spec fn concat8(items: Seq<u64>) -> Seq<u8> {
    Seq::new(8 * items.len(), |i: int| le_bytes(items[i / 8])[i % 8])
}

/// The list of the `count` integers that stand in `bytes` from `at` on,
/// eight bytes each.
pub open spec fn split8(bytes: Seq<u8>, at: int, count: nat) -> Seq<u64> {
    Seq::new(count, |j: int| le_u64(bytes, at + 8 * j) as u64)
}

/// Splitting what was joined gives back the integers.
pub proof fn lemma_split_concat8(before: Seq<u8>, items: Seq<u64>, after: Seq<u8>)
    ensures
        split8(before + concat8(items) + after, before.len() as int, items.len()) == items,
{
    let bytes = before + concat8(items) + after;
    let parts = split8(bytes, before.len() as int, items.len());
    assert forall|j: int| 0 <= j < items.len() implies #[trigger] parts[j] == items[j] by {
        let at = before.len() + 8 * j;
        assert forall|b: int| 0 <= b < 8 implies bytes[at + b] == le_bytes(items[j])[b] by {
            assert(bytes[at + b] == concat8(items)[8 * j + b]);
            assert((8 * j + b) / 8 == j);
            assert((8 * j + b) % 8 == b);
        }
        lemma_le_bytes_round_trip(items[j]);
        assert(le_u64(bytes, at) == le_u64(le_bytes(items[j]), 0));
    }
    assert(parts =~= items);
}

/// Appends the integers of a list, eight bytes each.
pub fn put_keys(out: &mut Vec<u8>, keys: &Vec<u64>)
    ensures
        final(out)@ == old(out)@ + concat8(keys@),
{
    let ghost start = out@;
    let count: usize = keys.len();
    let mut j: usize = 0;
    while j < count
        invariant
            j <= count,
            count == keys@.len(),
            out@ == start + concat8(keys@.take(j as int)),
        decreases count - j,
    {
        let ghost before = out@;
        put_u64(out, keys[j]);
        proof {
            let grown = concat8(keys@.take(j + 1));
            assert(out@.len() == start.len() + grown.len());
            assert forall|i: int| 0 <= i < out@.len() implies out@[i] == (start + grown)[i] by {
                if i >= start.len() {
                    let n = i - start.len();
                    if n < 8 * j {
                        assert(before[i] == concat8(keys@.take(j as int))[n]);
                        assert(n / 8 < j);
                    } else {
                        assert(n / 8 == j);
                        assert(out@[i] == le_bytes(keys@[j as int])[n - 8 * j]);
                    }
                }
            }
            assert(out@ =~= start + grown);
        }
        j += 1;
    }
    assert(keys@.take(count as int) =~= keys@);
}

/// Reads the `count` integers that stand in `bytes` from `at` on, eight
/// bytes each.
pub fn get_keys(bytes: &[u8], at: usize, count: usize) -> (r: Vec<u64>)
    requires
        at + 8 * count <= bytes@.len(),
    ensures
        r@ == split8(bytes@, at as int, count as nat),
{
    let total: usize = bytes.len();
    let mut keys: Vec<u64> = Vec::with_capacity(count);
    let mut j: usize = 0;
    while j < count
        invariant
            j <= count,
            at + 8 * count <= bytes@.len(),
            bytes@.len() == total,
            keys@ == split8(bytes@, at as int, j as nat),
        decreases count - j,
    {
        proof {
            lemma_le_u64_bound(bytes@, at + 8 * j);
        }
        let key: u64 = get_u64(bytes, at + 8 * j);
        keys.push(key);
        assert(keys@ =~= split8(bytes@, at as int, (j + 1) as nat));
        j += 1;
    }
    keys
}

} // verus!
