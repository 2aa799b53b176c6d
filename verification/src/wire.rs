//! Little-endian integers as they stand in segment records and blob envelopes.

use byteorder::ByteOrder;
use byteorder::LittleEndian;
use vstd::prelude::*;
use vstd::slice::slice_subrange;

verus! {

/// The number that two bytes spell, least significant byte first.
pub open spec fn le_u16(b: Seq<u8>) -> int
    recommends
        b.len() >= 2,
{
    b[0] as int + 256 * (b[1] as int)
}

/// The number that four bytes spell, least significant byte first.
pub open spec fn le_u32(b: Seq<u8>) -> int
    recommends
        b.len() >= 4,
{
    b[0] as int + 256 * (b[1] as int) + 65536 * (b[2] as int) + 16777216 * (b[3] as int)
}

/// The four bytes that spell `v`, least significant byte first.
pub open spec fn le_u32_bytes(v: int) -> Seq<u8>
    recommends
        0 <= v < 4294967296,
{
    seq![
        (v % 256) as u8,
        ((v / 256) % 256) as u8,
        ((v / 65536) % 256) as u8,
        ((v / 16777216) % 256) as u8,
    ]
}

/// Reading back the bytes of a number gives the number.
pub proof fn lemma_le_u32_round_trip(v: int)
    requires
        0 <= v < 4294967296,
    ensures
        le_u32_bytes(v).len() == 4,
        le_u32(le_u32_bytes(v)) == v,
{
}

/// `byteorder::LittleEndian::read_u16`: the first two bytes of `buf` as a
/// little-endian number. The crate panics on a shorter buffer, hence the
/// precondition; bytes after the second are not looked at.
#[verifier::external_body]
pub(crate) fn read_u16_le(buf: &[u8]) -> (v: u16)
    requires
        buf@.len() >= 2,
    ensures
        v as int == le_u16(buf@),
{
    LittleEndian::read_u16(buf)
}

/// `byteorder::LittleEndian::read_u32`: the first four bytes of `buf` as a
/// little-endian number. The crate panics on a shorter buffer, hence the
/// precondition; bytes after the fourth are not looked at.
#[verifier::external_body]
pub(crate) fn read_u32_le(buf: &[u8]) -> (v: u32)
    requires
        buf@.len() >= 4,
    ensures
        v as int == le_u32(buf@),
{
    LittleEndian::read_u32(buf)
}

/// The little-endian `u16` that starts at `at`.
pub fn u16_at(data: &[u8], at: usize) -> (v: u16)
    requires
        at + 2 <= data@.len(),
    ensures
        v as int == le_u16(data@.subrange(at as int, at + 2)),
{
    let len: usize = data.len();
    assert(at + 2 <= len);
    read_u16_le(slice_subrange(data, at, at + 2))
}

/// The little-endian `u32` that starts at `at`.
pub fn u32_at(data: &[u8], at: usize) -> (v: u32)
    requires
        at + 4 <= data@.len(),
    ensures
        v as int == le_u32(data@.subrange(at as int, at + 4)),
{
    let len: usize = data.len();
    assert(at + 4 <= len);
    read_u32_le(slice_subrange(data, at, at + 4))
}

/// Whether `data` starts with the bytes of `prefix`.
pub fn starts_with(data: &[u8], prefix: &[u8]) -> (r: bool)
    ensures
        r == (prefix@.len() <= data@.len() && data@.subrange(0, prefix@.len() as int)
            == prefix@),
{
    let n: usize = prefix.len();
    if data.len() < n {
        return false;
    }
    let mut i: usize = 0;
    while i < n
        invariant
            i <= n == prefix@.len() <= data@.len(),
            forall|j: int| 0 <= j < i ==> data@[j] == prefix@[j],
        decreases n - i,
    {
        if data[i] != prefix[i] {
            assert(data@.subrange(0, n as int)[i as int] != prefix@[i as int]);
            return false;
        }
        i += 1;
    }
    assert(data@.subrange(0, n as int) =~= prefix@);
    true
}

} // verus!
