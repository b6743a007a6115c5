//! The boot information handed over by the loader, as plain values.
use vstd::prelude::*;

verus! {

pub enum InfoFlags {
    MemorySize,
    BootDevice,
    CommandLine,
    Modules,
    Symbols,
    Symbols1,
    Symbols2,
    MemoryMap,
    Drives,
    ConfigTable,
    LoaderName,
    APMTable,
    VBEInfo,
}

impl InfoFlags {
    /// The bit (or bits) of `Info::flags` that announce this part.
    pub open spec fn spec_bits(self) -> u32 {
        match self {
            InfoFlags::MemorySize => 1,
            InfoFlags::BootDevice => 2,
            InfoFlags::CommandLine => 4,
            InfoFlags::Modules => 8,
            InfoFlags::Symbols => 48,
            InfoFlags::Symbols1 => 16,
            InfoFlags::Symbols2 => 32,
            InfoFlags::MemoryMap => 64,
            InfoFlags::Drives => 128,
            InfoFlags::ConfigTable => 256,
            InfoFlags::LoaderName => 512,
            InfoFlags::APMTable => 1024,
            InfoFlags::VBEInfo => 2048,
        }
    }

    pub fn bits(&self) -> (r: u32)
        ensures
            r == self.spec_bits(),
    {
        match self {
            InfoFlags::MemorySize => 1,
            InfoFlags::BootDevice => 2,
            InfoFlags::CommandLine => 4,
            InfoFlags::Modules => 8,
            InfoFlags::Symbols => 48,
            InfoFlags::Symbols1 => 16,
            InfoFlags::Symbols2 => 32,
            InfoFlags::MemoryMap => 64,
            InfoFlags::Drives => 128,
            InfoFlags::ConfigTable => 256,
            InfoFlags::LoaderName => 512,
            InfoFlags::APMTable => 1024,
            InfoFlags::VBEInfo => 2048,
        }
    }
}

/// The parts of the loader's information block that the kernel reads.
pub struct Info {
    pub flags: u32,
    pub mem_lower: u32,
    pub mem_upper: u32,
    pub cmdline: u32,
    pub mods_count: u32,
    pub mods_addr: u32,
    pub mmap_length: u32,
    pub mmap_addr: u32,
}

impl Info {
    /// Whether the loader filled in the part that `flag` names.
    pub fn has(&self, flag: InfoFlags) -> (r: bool)
        ensures
            r == (self.flags & flag.spec_bits() != 0),
    {
        self.flags & flag.bits() != 0
    }
}

/// A boot module: the physical range that holds one program image.
#[derive(Clone, Copy)]
pub struct Module {
    pub start: u32,
    pub end: u32,
    pub string: u32,
}

/// One entry of the loader's memory map.
#[derive(Clone, Copy)]
pub struct MemoryMapItem {
    pub item_size: u32,
    pub start: u64,
    pub length: u64,
    pub item_type: u32,
}

/// The memory type of usable RAM in `MemoryMapItem::item_type`.
pub const MemoryTypeMemory: u32 = 1;

pub enum MemoryTypes {
    MemoryTypeMemory,
    MemoryTypeReserved,
    MemoryTypeACPIRCL,
    MemoryTypeACPISomething,
}

} // verus!
