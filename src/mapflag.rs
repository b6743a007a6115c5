//! Access flags of a mapping card or a backing.
use vstd::prelude::*;

verus! {

pub type MapFlag = u8;

pub const X: MapFlag = 1;

pub const W: MapFlag = 2;

pub const R: MapFlag = 4;

/// Read, write and execute.
pub const RWX: MapFlag = 7;

/// Anonymous memory, allocated as zeroes on first use.
pub const Anon: MapFlag = 8;

/// Direct physical mapping: the handle is 0 and the offset is `paddr - vaddr`.
pub const Phys: MapFlag = 16;

/// Physical memory allocated and locked at map time: `Anon` and `Phys`.
pub const DMA: MapFlag = 24;

/// The flags that a process may ask for when it maps memory: `DMA` and `RWX`.
pub const UserAllowed: MapFlag = 31;

} // verus!
