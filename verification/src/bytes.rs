//! Integers read from and written to byte strings.

use vstd::prelude::*;

verus! {

/// The integer held by the eight bytes of `bytes` that start at `at`, least
/// significant byte first.
pub open spec fn le_u64(bytes: Seq<u8>, at: int) -> nat
    recommends
        0 <= at,
        at + 8 <= bytes.len(),
{
    (bytes[at] as nat + 0x100 * (bytes[at + 1] as nat) + 0x1_0000 * (bytes[at + 2] as nat)
        + 0x100_0000 * (bytes[at + 3] as nat) + 0x1_0000_0000 * (bytes[at + 4] as nat)
        + 0x100_0000_0000 * (bytes[at + 5] as nat) + 0x1_0000_0000_0000 * (bytes[at + 6] as nat)
        + 0x100_0000_0000_0000 * (bytes[at + 7] as nat)) as nat
}

/// The integer held by the eight bytes of `bytes` that start at `at`, most
/// significant byte first.
pub open spec fn be_u64(bytes: Seq<u8>, at: int) -> nat
    recommends
        0 <= at,
        at + 8 <= bytes.len(),
{
    (bytes[at + 7] as nat + 0x100 * (bytes[at + 6] as nat) + 0x1_0000 * (bytes[at + 5] as nat)
        + 0x100_0000 * (bytes[at + 4] as nat) + 0x1_0000_0000 * (bytes[at + 3] as nat)
        + 0x100_0000_0000 * (bytes[at + 2] as nat) + 0x1_0000_0000_0000 * (bytes[at + 1] as nat)
        + 0x100_0000_0000_0000 * (bytes[at] as nat)) as nat
}

/// The integer held by a string of 32 bytes, least significant byte first.
pub open spec fn le_u256(bytes: Seq<u8>) -> nat
    recommends
        bytes.len() == 32,
{
    (le_u64(bytes, 0) + 0x1_0000_0000_0000_0000 * le_u64(bytes, 8)
        + 0x1_0000_0000_0000_0000_0000_0000_0000_0000 * le_u64(bytes, 16)
        + 0x1_0000_0000_0000_0000_0000_0000_0000_0000_0000_0000_0000_0000nat * le_u64(bytes, 24)) as nat
}

/// The eight bytes that hold `x`, least significant byte first.
pub open spec fn le_bytes(x: u64) -> Seq<u8> {
    seq![
        (x % 0x100) as u8,
        (x / 0x100 % 0x100) as u8,
        (x / 0x1_0000 % 0x100) as u8,
        (x / 0x100_0000 % 0x100) as u8,
        (x / 0x1_0000_0000 % 0x100) as u8,
        (x / 0x100_0000_0000 % 0x100) as u8,
        (x / 0x1_0000_0000_0000 % 0x100) as u8,
        (x / 0x100_0000_0000_0000 % 0x100) as u8,
    ]
}

/// Eight bytes hold an integer below 2^64.
pub proof fn lemma_le_u64_bound(bytes: Seq<u8>, at: int)
    requires
        0 <= at,
        at + 8 <= bytes.len(),
    ensures
        le_u64(bytes, at) <= u64::MAX,
        be_u64(bytes, at) <= u64::MAX,
{
}

/// The quotients of `x` by the powers of 256, each from the one before.
proof fn lemma_u64_digits(x: u64)
    ensures
        x / 0x1_0000 == x / 0x100 / 0x100,
        x / 0x100_0000 == x / 0x1_0000 / 0x100,
        x / 0x1_0000_0000 == x / 0x100_0000 / 0x100,
        x / 0x100_0000_0000 == x / 0x1_0000_0000 / 0x100,
        x / 0x1_0000_0000_0000 == x / 0x100_0000_0000 / 0x100,
        x / 0x100_0000_0000_0000 == x / 0x1_0000_0000_0000 / 0x100,
        x / 0x100_0000_0000_0000 < 0x100,
{
    assert(x / 0x1_0000 == x / 0x100 / 0x100);
    assert(x / 0x100_0000 == x / 0x1_0000 / 0x100);
    assert(x / 0x1_0000_0000 == x / 0x100_0000 / 0x100);
    assert(x / 0x100_0000_0000 == x / 0x1_0000_0000 / 0x100);
    assert(x / 0x1_0000_0000_0000 == x / 0x100_0000_0000 / 0x100);
    assert(x / 0x100_0000_0000_0000 == x / 0x1_0000_0000_0000 / 0x100);
}

/// Reading back the bytes of `x` gives `x`.
pub proof fn lemma_le_bytes_round_trip(x: u64)
    ensures
        le_bytes(x).len() == 8,
        le_u64(le_bytes(x), 0) == x,
{
    lemma_u64_digits(x);
    let x1 = x / 0x100;
    let x2 = x / 0x1_0000;
    let x3 = x / 0x100_0000;
    let x4 = x / 0x1_0000_0000;
    let x5 = x / 0x100_0000_0000;
    let x6 = x / 0x1_0000_0000_0000;
    let x7 = x / 0x100_0000_0000_0000;
    assert(x == x % 0x100 + 0x100 * x1);
    assert(x1 == x1 % 0x100 + 0x100 * x2);
    assert(x2 == x2 % 0x100 + 0x100 * x3);
    assert(x3 == x3 % 0x100 + 0x100 * x4);
    assert(x4 == x4 % 0x100 + 0x100 * x5);
    assert(x5 == x5 % 0x100 + 0x100 * x6);
    assert(x6 == x6 % 0x100 + 0x100 * x7);
    assert(x7 == x7 % 0x100);
    let b = le_bytes(x);
    assert(b[0] == x % 0x100);
    assert(b[1] == x1 % 0x100);
    assert(b[2] == x2 % 0x100);
    assert(b[3] == x3 % 0x100);
    assert(b[4] == x4 % 0x100);
    assert(b[5] == x5 % 0x100);
    assert(b[6] == x6 % 0x100);
    assert(b[7] == x7 % 0x100);
}

/// The low 64 bits of the integer that 32 bytes hold are the integer that
/// the first eight bytes hold.
pub proof fn lemma_low_word(bytes: Seq<u8>)
    requires
        bytes.len() == 32,
    ensures
        le_u256(bytes) % 0x1_0000_0000_0000_0000 == le_u64(bytes, 0),
{
    lemma_le_u64_bound(bytes, 0);
    let low = le_u64(bytes, 0);
    let high = le_u64(bytes, 8) + 0x1_0000_0000_0000_0000 * le_u64(bytes, 16)
        + 0x1_0000_0000_0000_0000_0000_0000_0000_0000 * le_u64(bytes, 24);
    assert(le_u256(bytes) == low + 0x1_0000_0000_0000_0000 * high);
    vstd::arithmetic::div_mod::lemma_mod_multiples_vanish(
        high as int,
        low as int,
        0x1_0000_0000_0000_0000,
    );
}

/// Reads the eight bytes of a 32-byte string that start at `at` as an
/// integer, least significant byte first.
pub fn read_le_u64(bytes: &[u8; 32], at: usize) -> (r: u64)
    requires
        at + 8 <= 32,
    ensures
        r == le_u64(bytes@, at as int),
{
    let b0: u64 = bytes[at] as u64;
    let b1: u64 = bytes[at + 1] as u64;
    let b2: u64 = bytes[at + 2] as u64;
    let b3: u64 = bytes[at + 3] as u64;
    let b4: u64 = bytes[at + 4] as u64;
    let b5: u64 = bytes[at + 5] as u64;
    let b6: u64 = bytes[at + 6] as u64;
    let b7: u64 = bytes[at + 7] as u64;
    b0 + 0x100 * b1 + 0x1_0000 * b2 + 0x100_0000 * b3 + 0x1_0000_0000 * b4 + 0x100_0000_0000 * b5
        + 0x1_0000_0000_0000 * b6 + 0x100_0000_0000_0000 * b7
}

/// Reads the eight bytes of a 32-byte string that start at `at` as an
/// integer, most significant byte first.
pub fn read_be_u64(bytes: &[u8; 32], at: usize) -> (r: u64)
    requires
        at + 8 <= 32,
    ensures
        r == be_u64(bytes@, at as int),
{
    let b0: u64 = bytes[at] as u64;
    let b1: u64 = bytes[at + 1] as u64;
    let b2: u64 = bytes[at + 2] as u64;
    let b3: u64 = bytes[at + 3] as u64;
    let b4: u64 = bytes[at + 4] as u64;
    let b5: u64 = bytes[at + 5] as u64;
    let b6: u64 = bytes[at + 6] as u64;
    let b7: u64 = bytes[at + 7] as u64;
    b7 + 0x100 * b6 + 0x1_0000 * b5 + 0x100_0000 * b4 + 0x1_0000_0000 * b3 + 0x100_0000_0000 * b2
        + 0x1_0000_0000_0000 * b1 + 0x100_0000_0000_0000 * b0
}

/// Whether two 32-byte strings are the same.
pub fn bytes_eq(a: &[u8; 32], b: &[u8; 32]) -> (r: bool)
    ensures
        r == (a@ == b@),
{
    let mut i: usize = 0;
    while i < 32
        invariant
            i <= 32,
            forall|k: int| 0 <= k < i ==> a@[k] == b@[k],
        decreases 32 - i,
    {
        if a[i] != b[i] {
            return false;
        }
        i += 1;
    }
    assert(a@ =~= b@);
    true
}

} // verus!
