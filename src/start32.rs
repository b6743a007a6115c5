//! The kernel's place in the address space: physical memory is mapped at
//! `kernel_base` in the upper 1 GiB.
use vstd::prelude::*;

verus! {

/// Where physical address 0 is mapped in the kernel's half.
pub const kernel_base: u64 = 0xffff_ffff_c000_0000;

/// The kernel's virtual address for physical address `addr`.
pub fn PhysAddr(addr: u64) -> (r: u64)
    ensures
        r == vstd::wrapping::u64_specs::wrapping_add(addr, kernel_base),
{
    addr.wrapping_add(kernel_base)
}

/// The kernel's writable virtual address for physical address `addr`.
pub fn MutPhysAddr(addr: u64) -> (r: u64)
    ensures
        r == vstd::wrapping::u64_specs::wrapping_add(addr, kernel_base),
{
    addr.wrapping_add(kernel_base)
}

/// The end of the physical memory that the kernel's window reaches: more
/// would wrap around to null.
pub fn MemoryEnd() -> (r: u64)
    ensures
        r == 0x4000_0000,
{
    0u64.wrapping_sub(kernel_base)
}

} // verus!
