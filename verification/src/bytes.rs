//! Numbers as bytes, and parts of byte strings.

use vstd::prelude::*;

verus! {

/// A number below 2^32 as four bytes, the least significant first.
pub open spec fn le32(n: int) -> Seq<u8> {
    seq![
        (n % 256) as u8,
        ((n / 256) % 256) as u8,
        ((n / 65536) % 256) as u8,
        ((n / 16777216) % 256) as u8,
    ]
}

/// A number below 2^32 as four bytes, the most significant first.
pub open spec fn be32(n: int) -> Seq<u8> {
    seq![
        ((n / 16777216) % 256) as u8,
        ((n / 65536) % 256) as u8,
        ((n / 256) % 256) as u8,
        (n % 256) as u8,
    ]
}

/// A number below 2^64 as eight bytes, the least significant first.
pub open spec fn le64(n: int) -> Seq<u8> {
    le32(n % 4294967296) + le32(n / 4294967296)
}

/// The number that four bytes write, the least significant first.
pub open spec fn le32_value(bytes: Seq<u8>) -> int {
    bytes[0] + 256 * bytes[1] + 65536 * bytes[2] + 16777216 * bytes[3]
}

/// The number that four bytes write, the most significant first.
pub open spec fn be32_value(bytes: Seq<u8>) -> int {
    16777216 * bytes[0] + 65536 * bytes[1] + 256 * bytes[2] + bytes[3]
}

/// Four bytes give back the number that they were made of.
pub proof fn le32_round_trip(n: int)
    requires
        0 <= n < 4294967296,
    ensures
        le32_value(le32(n)) == n,
        le32(n).len() == 4,
{
}

/// Four bytes give back the number that they were made of.
pub proof fn be32_round_trip(n: int)
    requires
        0 <= n < 4294967296,
    ensures
        be32_value(be32(n)) == n,
        be32(n).len() == 4,
{
}

/// Puts a number at the end of some bytes, the least significant byte first.
pub fn put_le32(out: &mut Vec<u8>, n: u32)
    ensures
        final(out)@ == old(out)@ + le32(n as int),
{
    out.push((n % 256) as u8);
    out.push(((n / 256) % 256) as u8);
    out.push(((n / 65536) % 256) as u8);
    out.push(((n / 16777216) % 256) as u8);
    assert(out@ =~= old(out)@ + le32(n as int));
}

/// Puts a number at the end of some bytes, the most significant byte first.
pub fn put_be32(out: &mut Vec<u8>, n: u32)
    ensures
        final(out)@ == old(out)@ + be32(n as int),
{
    out.push(((n / 16777216) % 256) as u8);
    out.push(((n / 65536) % 256) as u8);
    out.push(((n / 256) % 256) as u8);
    out.push((n % 256) as u8);
    assert(out@ =~= old(out)@ + be32(n as int));
}

/// Puts a number at the end of some bytes, the least significant byte first.
pub fn put_le64(out: &mut Vec<u8>, n: u64)
    ensures
        final(out)@ == old(out)@ + le64(n as int),
{
    let low: u32 = (n % 4294967296) as u32;
    let high: u32 = (n / 4294967296) as u32;
    put_le32(out, low);
    put_le32(out, high);
    assert(out@ =~= old(out)@ + le64(n as int));
}

/// The number that the four bytes from `at` on write, the least significant first.
pub fn get_le32(bytes: &[u8], at: usize) -> (n: u32)
    requires
        at + 4 <= bytes@.len(),
    ensures
        n == le32_value(bytes@.subrange(at as int, at + 4)),
{
    bytes[at] as u32 + 256 * (bytes[at + 1] as u32) + 65536 * (bytes[at + 2] as u32) + 16777216 * (
    bytes[at + 3] as u32)
}

/// The number that the four bytes from `at` on write, the most significant first.
pub fn get_be32(bytes: &[u8], at: usize) -> (n: u32)
    requires
        at + 4 <= bytes@.len(),
    ensures
        n == be32_value(bytes@.subrange(at as int, at + 4)),
{
    16777216 * (bytes[at] as u32) + 65536 * (bytes[at + 1] as u32) + 256 * (bytes[at + 2] as u32)
        + bytes[at + 3] as u32
}

/// Sixteen bytes from `at` on.
pub fn take16(bytes: &[u8], at: usize) -> (part: [u8; 16])
    requires
        at + 16 <= bytes@.len(),
    ensures
        part@ == bytes@.subrange(at as int, at + 16),
{
    let len: usize = bytes.len();
    let mut part: [u8; 16] = [0u8; 16];
    let mut i: usize = 0;
    while i < 16
        invariant
            i <= 16,
            len == bytes@.len(),
            at + 16 <= len,
            forall|k: int| 0 <= k < i ==> #[trigger] part@[k] == bytes@[at + k],
        decreases 16 - i,
    {
        part[i] = bytes[at + i];
        i = i + 1;
    }
    assert(part@ =~= bytes@.subrange(at as int, at + 16));
    part
}

/// Twenty-four bytes from `at` on.
pub fn take24(bytes: &[u8], at: usize) -> (part: [u8; 24])
    requires
        at + 24 <= bytes@.len(),
    ensures
        part@ == bytes@.subrange(at as int, at + 24),
{
    let len: usize = bytes.len();
    let mut part: [u8; 24] = [0u8; 24];
    let mut i: usize = 0;
    while i < 24
        invariant
            i <= 24,
            len == bytes@.len(),
            at + 24 <= len,
            forall|k: int| 0 <= k < i ==> #[trigger] part@[k] == bytes@[at + k],
        decreases 24 - i,
    {
        part[i] = bytes[at + i];
        i = i + 1;
    }
    assert(part@ =~= bytes@.subrange(at as int, at + 24));
    part
}

/// Thirty-two bytes from `at` on.
pub fn take32(bytes: &[u8], at: usize) -> (part: [u8; 32])
    requires
        at + 32 <= bytes@.len(),
    ensures
        part@ == bytes@.subrange(at as int, at + 32),
{
    let len: usize = bytes.len();
    let mut part: [u8; 32] = [0u8; 32];
    let mut i: usize = 0;
    while i < 32
        invariant
            i <= 32,
            len == bytes@.len(),
            at + 32 <= len,
            forall|k: int| 0 <= k < i ==> #[trigger] part@[k] == bytes@[at + k],
        decreases 32 - i,
    {
        part[i] = bytes[at + i];
        i = i + 1;
    }
    assert(part@ =~= bytes@.subrange(at as int, at + 32));
    part
}

/// Four bytes with the most significant first add up to the number that they were
/// made of, each counting 256 times the one behind it.
pub proof fn be32_is(n: int)
    requires
        0 <= n < 4294967296,
    ensures
        be32(n).len() == 4,
        16777216 * be32(n)[0] + 65536 * be32(n)[1] + 256 * be32(n)[2] + be32(n)[3] == n,
{
}

/// Four bytes with the least significant first add up to the number that they were
/// made of, each counting 256 times the one before it.
pub proof fn le32_is(n: int)
    requires
        0 <= n < 4294967296,
    ensures
        le32(n).len() == 4,
        le32(n)[0] + 256 * le32(n)[1] + 65536 * le32(n)[2] + 16777216 * le32(n)[3] == n,
{
}

/// Eight bytes with the least significant first add up to the number that they were
/// made of.
pub proof fn le64_is(n: int)
    requires
        0 <= n <= u64::MAX,
    ensures
        le64(n).len() == 8,
        le64(n)[0] + 256 * le64(n)[1] + 65536 * le64(n)[2] + 16777216 * le64(n)[3] + 4294967296 * (
        le64(n)[4] + 256 * le64(n)[5] + 65536 * le64(n)[6] + 16777216 * le64(n)[7]) == n,
{
    le32_is(n % 4294967296);
    le32_is(n / 4294967296);
}

/// The numbers that four bytes write count each byte 256 times the next less
/// significant one.
pub proof fn written_numbers(bytes: Seq<u8>)
    requires
        bytes.len() == 4,
    ensures
        be32_value(bytes) == 16777216 * bytes[0] + 65536 * bytes[1] + 256 * bytes[2] + bytes[3],
        le32_value(bytes) == 16777216 * bytes[3] + 65536 * bytes[2] + 256 * bytes[1] + bytes[0],
{
}

} // verus!
