//! Descriptor-table encodings.
use vstd::prelude::*;
use crate::util::{concat16, concat32};

verus! {

/// The kernel code segment selector.
pub const SEG_CODE: u16 = 24;

pub const GATE_PRESENT: u8 = 0x80;

pub const GATE_TYPE_INTERRUPT: u8 = 0x0e;

/// The number of interrupt vectors the kernel installs.
pub const IDT_ENTRIES: u16 = 49;

/// An interrupt-gate descriptor: two 64-bit words.
pub type Entry = (u64, u64);

/// The descriptor of a present interrupt gate to `handler` in the kernel
/// code segment.
pub open spec fn gate(handler: u64) -> Entry {
    let low = (handler % 0x10000) * 0x10000 + SEG_CODE as int;
    let high = ((handler / 0x10000) % 0x10000) * 0x10000 + 0x8e00;
    ((high * 0x1_0000_0000 + low) as u64, handler / 0x1_0000_0000)
}

pub fn entry(handler: u64) -> (r: Entry)
    ensures
        r == gate(handler),
{
    let low = concat16(handler as u16, SEG_CODE);
    let flags = (GATE_PRESENT | GATE_TYPE_INTERRUPT) as u16;
    let high = concat16((handler >> 16u64) as u16, flags << 8u16);
    proof {
        assert((GATE_PRESENT | GATE_TYPE_INTERRUPT) == 0x8eu8) by (bit_vector);
        assert(flags << 8u16 == 0x8e00u16) by (bit_vector)
            requires
                flags == 0x8eu16,
        ;
        assert(handler as u16 == handler % 0x10000) by (bit_vector);
        assert((handler >> 16u64) as u16 == (handler / 0x10000) % 0x10000) by (bit_vector);
        assert(handler >> 32u64 == handler / 0x1_0000_0000) by (bit_vector);
    }
    (concat32(high, low), handler >> 32u64)
}

/// The limit field of the interrupt descriptor table register: the table's
/// size in bytes, less one.
pub fn limit() -> (r: u16)
    ensures
        r == IDT_ENTRIES * 16 - 1,
{
    IDT_ENTRIES * 16 - 1
}

} // verus!
