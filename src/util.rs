//! Joining integer halves.
use vstd::prelude::*;

verus! {

/// `h` as the high half and `l` as the low half of a 32-bit value.
pub fn concat16(h: u16, l: u16) -> (r: u32)
    ensures
        r == h as u32 * 0x10000 + l as u32,
{
    let r = ((h as u32) << 16u32) | (l as u32);
    assert(((h as u32) << 16u32) | (l as u32) == h as u32 * 0x10000 + l as u32) by (bit_vector);
    r
}

/// `h` as the high half and `l` as the low half of a 64-bit value.
pub fn concat32(h: u32, l: u32) -> (r: u64)
    ensures
        r == h as u64 * 0x1_0000_0000 + l as u64,
{
    let r = ((h as u64) << 32u64) | (l as u64);
    assert(((h as u64) << 32u64) | (l as u64) == h as u64 * 0x1_0000_0000 + l as u64) by (bit_vector);
    r
}

} // verus!
