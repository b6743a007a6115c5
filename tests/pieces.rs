use ukernel::con::{format_unsigned, Console};
use ukernel::dlist::DList;
use ukernel::mboot::{Info, InfoFlags, MemoryMapItem};
use ukernel::mem::{Global, PerCpu};
use ukernel::process::{FlagBit, Handle, Process};
use ukernel::start32::{MemoryEnd, PhysAddr};
use ukernel::syscall::{call, decode_portio};
use ukernel::kernel::PortOp;
use ukernel::util::{concat16, concat32};
use ukernel::x86::{entry, limit};

fn info(flags: u32) -> Info {
    Info { flags, mem_lower: 0, mem_upper: 0, cmdline: 0, mods_count: 0, mods_addr: 0, mmap_length: 0, mmap_addr: 0 }
}

#[test]
fn global_init_donates_whole_ram_frames_in_range() {
    let mut g = Global::new();
    let mmap = vec![
        MemoryMapItem { item_size: 20, start: 0x0, length: 0x9_f000, item_type: 1 },
        MemoryMapItem { item_size: 20, start: 0x10_0000, length: 0x3800, item_type: 1 },
        MemoryMapItem { item_size: 20, start: 0x20_0000, length: 0x4000, item_type: 2 },
    ];
    g.init(&info(64), &mmap, 0x10_0000, 0x4000_0000);
    assert_eq!(g.free_pages(), 3);
    assert_eq!(g.used_pages(), 0);
    let mut got = vec![];
    while let Some(f) = g.alloc_frame() {
        got.push(f);
    }
    got.sort();
    assert_eq!(got, vec![0x10_0000, 0x10_1000, 0x10_2000]);
    assert_eq!(g.used_pages(), 3);
    assert_eq!(g.free_pages(), 0);
    g.free_frame(0x10_1000);
    assert_eq!(g.free_pages(), 1);
    assert_eq!(g.alloc_frame(), Some(0x10_1000));
}

#[test]
fn global_init_without_memory_map_donates_nothing() {
    let mut g = Global::new();
    let mmap = vec![MemoryMapItem { item_size: 20, start: 0x10_0000, length: 0x4000, item_type: 1 }];
    g.init(&info(0), &mmap, 0, 0x4000_0000);
    assert_eq!(g.free_pages(), 0);
}

#[test]
fn percpu_allocates_until_exhausted() {
    let mut g = Global::new();
    let mmap = vec![MemoryMapItem { item_size: 20, start: 0x10_0000, length: 0x2000, item_type: 1 }];
    g.init(&info(64), &mmap, 0, 0x4000_0000);
    let mut m = PerCpu::new(g);
    assert!(m.alloc_frame().is_some());
    assert!(m.steal_frame().is_some());
    assert!(m.alloc_frame_().is_none());
    m.free_frame(0x10_0000);
    assert_eq!(m.alloc_frame(), Some(0x10_0000));
}

#[test]
fn dlist_is_fifo_and_unlinks() {
    let mut l = DList::empty();
    l.append(3);
    l.append(1);
    l.append(2);
    assert_eq!(l.remove(1), 1);
    assert_eq!(l.iter().clone(), vec![3, 2]);
    assert_eq!(l.pop(), Some(3));
    assert_eq!(l.pop(), Some(2));
    assert_eq!(l.pop(), None);
    assert!(!l.contains(3));
}

#[test]
fn flags_set_and_clear() {
    let mut p = Process::new(0, 0x1000);
    assert!(p.is(FlagBit::FastRet));
    assert!(p.is_runnable());
    p.set(FlagBit::InRecv);
    assert_eq!(p.ipc_state(), FlagBit::InRecv.mask());
    assert!(!p.is_runnable());
    p.set(FlagBit::Queued);
    assert!(p.is_queued());
    p.unset(FlagBit::InRecv);
    assert!(p.is_runnable());
    assert_eq!(FlagBit::PFault.mask(), 32);
    assert_eq!(p.cr3, 0x1000);
    assert_eq!(p.rflags, 0x200);
}

#[test]
fn pending_handles_pop_in_order() {
    let mut p = Process::new(0, 0);
    p.add_pending_handle(4);
    p.add_pending_handle(2);
    p.add_pending_handle(4);
    assert_eq!(p.pop_pending_handle(), Some(4));
    assert_eq!(p.pop_pending_handle(), Some(2));
    assert_eq!(p.pop_pending_handle(), None);
}

#[test]
fn handle_pairing_and_pulses() {
    let mut a = Handle::new(0, 5, 0, 1);
    let mut b = Handle::new(1, 6, 1, 0);
    a.associate(&mut b);
    assert_eq!(a.other(), Some(1));
    assert_eq!(b.other(), Some(0));
    assert_eq!(a.dissociate(), Some(1));
    assert_eq!(a.other(), None);
    assert_eq!(a.add_pulses(1), 0);
    assert_eq!(a.add_pulses(4), 1);
    assert_eq!(a.pop_pulses(), 5);
    assert_eq!(a.pop_pulses(), 0);
    assert_eq!((a.id(), a.process()), (5, 1));
}

#[test]
fn info_has_flags() {
    let i = info(8 | 64);
    assert!(i.has(InfoFlags::Modules));
    assert!(i.has(InfoFlags::MemoryMap));
    assert!(!i.has(InfoFlags::CommandLine));
}

#[test]
fn format_numbers() {
    assert_eq!(format_unsigned(0, false, 10, false, 0), b"0".to_vec());
    assert_eq!(format_unsigned(0, false, 10, false, 1234), b"1234".to_vec());
    assert_eq!(format_unsigned(0, false, 16, true, 0xbeef), b"0xbeef".to_vec());
    assert_eq!(format_unsigned(16, true, 16, true, 0x1f), b"0x000000000000001f".to_vec());
    assert_eq!(format_unsigned(5, false, 10, false, 42), b"   42".to_vec());
    assert_eq!(format_unsigned(2, false, 10, false, 12345), b"12345".to_vec());
    assert_eq!(format_unsigned(0, false, 10, false, u64::MAX), b"18446744073709551615".to_vec());
}

#[test]
fn console_writes_and_wraps_lines() {
    let mut c = Console::new();
    c.write("hi\nx");
    assert_eq!(c.cell(0), 0x0f00 | b'h' as u16);
    assert_eq!(c.cell(1), 0x0f00 | b'i' as u16);
    assert_eq!(c.cell(2), 0x0f00);
    assert_eq!(c.cell(80), 0x0f00 | b'x' as u16);
    assert_eq!(c.position(), 81);
    c.writeHex(0x2a);
    assert_eq!(c.cell(81), 0x0f00 | b'0' as u16);
    assert_eq!(c.cell(84), 0x0f00 | b'a' as u16);
    c.clear();
    assert_eq!(c.position(), 0);
    assert_eq!(c.cell(80), 0);
}

#[test]
fn console_scrolls_when_full() {
    let mut c = Console::new();
    c.putc(b'a');
    for _ in 0..24 {
        c.newline();
    }
    // The first line scrolled away; the cursor is on the last line.
    assert_eq!(c.position(), 1840);
    assert_eq!(c.cell(0), 0x0f00);
    c.writeUInt(7);
    assert_eq!(c.cell(1840), 0x0f00 | b'7' as u16);
    c.writePHex(1);
    assert_eq!(c.position(), 1841 + 18);
}

#[test]
fn concat_halves() {
    assert_eq!(concat16(0x1234, 0x5678), 0x1234_5678);
    assert_eq!(concat32(0xdead_beef, 0x0000_0001), 0xdead_beef_0000_0001);
}

#[test]
fn idt_gate_encoding() {
    let (lo, hi) = entry(0xffff_ffff_8012_3456);
    assert_eq!(hi, 0xffff_ffff);
    assert_eq!(lo, 0x8012_8e00_3456_0018);
    assert_eq!(limit(), 783);
}

#[test]
fn kernel_window() {
    assert_eq!(PhysAddr(0x1000), 0xffff_ffff_c000_1000);
    assert_eq!(MemoryEnd(), 0x4000_0000);
}

#[test]
fn message_kinds_and_port_ops() {
    assert_eq!(call(100), 0x164);
    assert_eq!(decode_portio(0x01), Some(PortOp::In8));
    assert_eq!(decode_portio(0x14), Some(PortOp::Out32));
    assert_eq!(decode_portio(0x03), None);
}

#[test]
fn console_signed_and_c_strings() {
    let mut c = Console::new();
    c.writeInt(-42);
    assert_eq!(c.cell(0), 0x0f00 | b'-' as u16);
    assert_eq!(c.cell(2), 0x0f00 | b'2' as u16);
    c.writeInt(i64::MIN);
    assert_eq!(c.position(), 3 + 20);
    c.writeCStr(b"ok\0ignored");
    assert_eq!(c.cell(23), 0x0f00 | b'o' as u16);
    assert_eq!(c.position(), 25);
    assert_eq!(ukernel::con::format_signed(-7), b"-7".to_vec());
    assert_eq!(ukernel::con::cstr_prefix(b"abc"), b"abc".to_vec());
}

#[test]
fn memory_stat_line() {
    let mut g = Global::new();
    let mmap = vec![MemoryMapItem { item_size: 20, start: 0x10_0000, length: 0x3000, item_type: 1 }];
    g.init(&info(64), &mmap, 0, 0x4000_0000);
    g.alloc_frame();
    let mut c = Console::new();
    g.stat(&mut c);
    let text: Vec<u8> = (0..22).map(|i| (c.cell(i) & 0xff) as u8).collect();
    assert_eq!(text, b"Free: 8KiB, Used: 4KiB".to_vec());
    assert_eq!(c.position(), 80);
}

#[test]
fn percpu_self_test_returns_every_frame() {
    let mut g = Global::new();
    let mmap = vec![MemoryMapItem { item_size: 20, start: 0x10_0000, length: 0x5000, item_type: 1 }];
    g.init(&info(64), &mmap, 0, 0x4000_0000);
    let mut m = PerCpu::new(g);
    assert_eq!(m.test(), 5);
    assert_eq!(m.test(), 5);
    let taken: Vec<u64> = (0..5).filter_map(|_| m.alloc_frame()).collect();
    assert_eq!(taken.len(), 5);
    assert_eq!(m.alloc_frame(), None);
}

#[test]
fn overlapping_ranges_donate_each_frame_once() {
    let mut g = Global::new();
    let mmap = vec![
        MemoryMapItem { item_size: 20, start: 0x10_0000, length: 0x3000, item_type: 1 },
        MemoryMapItem { item_size: 20, start: 0x10_1000, length: 0x3000, item_type: 1 },
    ];
    g.init(&info(64), &mmap, 0, 0x4000_0000);
    assert_eq!(g.free_pages(), 4);
    let mut got = vec![];
    while let Some(f) = g.alloc_frame() {
        got.push(f);
    }
    got.sort();
    assert_eq!(got, vec![0x10_0000, 0x10_1000, 0x10_2000, 0x10_3000]);
}
