//! Unsigned integers in a row of bytes.

use crate::num::single::Single;
use vstd::prelude::*;

verus! {

/// The four bytes of `x`, least significant first.
pub open spec fn u32_le(x: u32) -> Seq<u8> {
    seq![
        (x % 0x100) as u8,
        (x / 0x100 % 0x100) as u8,
        (x / 0x1_0000 % 0x100) as u8,
        (x / 0x100_0000) as u8,
    ]
}

/// The number in the first four bytes of `b`, least significant first.
pub open spec fn u32_of_le(b: Seq<u8>) -> u32 {
    (b[0] + 0x100 * b[1] + 0x1_0000 * b[2] + 0x100_0000 * b[3]) as u32
}

/// The number in the first two bytes of `b`, least significant first.
pub open spec fn u16_of_le(b: Seq<u8>) -> u16 {
    (b[0] + 0x100 * b[1]) as u16
}

/// The number in the first eight bytes of `b`, least significant first.
pub open spec fn u64_of_le(b: Seq<u8>) -> u64 {
    (u32_of_le(b) + 0x1_0000_0000 * u32_of_le(b.skip(4))) as u64
}

/// Reading four bytes undoes writing them.
pub proof fn lemma_u32_le_round_trip(x: u32)
    ensures
        u32_of_le(u32_le(x)) == x,
        u32_le(x).len() == 4,
{
    assert(x == x % 0x100 + 0x100 * (x / 0x100 % 0x100) + 0x1_0000 * (x / 0x1_0000 % 0x100)
        + 0x100_0000 * (x / 0x100_0000));
}

/// Appends the bytes of a binary32 value, least significant first.
pub fn put_single(out: &mut Vec<u8>, v: Single)
    ensures
        final(out)@ == old(out)@ + u32_le(v.bits),
{
    let x: u32 = v.bits;
    out.push((x % 0x100) as u8);
    out.push((x / 0x100 % 0x100) as u8);
    out.push((x / 0x1_0000 % 0x100) as u8);
    out.push((x / 0x100_0000) as u8);
    assert(out@ =~= old(out)@ + u32_le(v.bits));
}

pub fn u16_at(data: &[u8], at: usize) -> (r: u16)
    requires
        at + 2 <= data.len(),
    ensures
        r == u16_of_le(data@.skip(at as int)),
{
    data[at] as u16 + 0x100 * data[at + 1] as u16
}

pub fn u32_at(data: &[u8], at: usize) -> (r: u32)
    requires
        at + 4 <= data.len(),
    ensures
        r == u32_of_le(data@.skip(at as int)),
{
    data[at] as u32 + 0x100 * data[at + 1] as u32 + 0x1_0000 * data[at + 2] as u32 + 0x100_0000
        * data[at + 3] as u32
}

pub fn u64_at(data: &[u8], at: usize) -> (r: u64)
    requires
        at + 8 <= data.len(),
    ensures
        r == u64_of_le(data@.skip(at as int)),
{
    assert(data@.skip(at as int).skip(4) =~= data@.skip(at + 4));
    u32_at(data, at) as u64 + 0x1_0000_0000 * u32_at(data, at + 4) as u64
}

} // verus!
