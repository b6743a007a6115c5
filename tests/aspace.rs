use ukernel::aspace::{AddressSpace, BackingError, MapCard};
use ukernel::mapflag::{Anon, Phys, R, W, X};
use ukernel::mboot::{Info, MemoryMapItem};
use ukernel::mem::{Global, PerCpu};

fn memory(frames: u64) -> PerCpu {
    let mut g = Global::new();
    let info = Info { flags: 64, mem_lower: 0, mem_upper: 0, cmdline: 0, mods_count: 0, mods_addr: 0, mmap_length: 0, mmap_addr: 0 };
    let mmap = vec![MemoryMapItem { item_size: 20, start: 0x100_0000, length: frames * 4096, item_type: 1 }];
    g.init(&info, &mmap, 0x100_0000, 0x4000_0000);
    PerCpu::new(g)
}

fn cards(a: &AddressSpace, keys: &[u64]) -> Vec<(u64, u64, u64)> {
    keys.iter().filter_map(|&k| a.mapcard_find(k).filter(|c| c.vaddr() == k).map(|c| (c.vaddr(), c.handle, c.offset))).collect()
}

#[test]
fn new_space_maps_the_kernel_in_its_last_root_entry() {
    let mut m = memory(8);
    let a = AddressSpace::new(&mut m, 0x7000).unwrap();
    assert_eq!(a.cr3(), 0x100_0000 + 7 * 4096);
    assert!(a.lookup_pte(0).is_none());
}

#[test]
fn new_space_without_memory_fails() {
    let mut m = memory(0);
    assert!(AddressSpace::new(&mut m, 0x7000).is_none());
}

#[test]
fn mapcard_find_def_defaults_to_empty_card() {
    let mut m = memory(4);
    let mut a = AddressSpace::new(&mut m, 0x7000).unwrap();
    let c = a.mapcard_find_def(0x5000);
    assert_eq!((c.vaddr(), c.handle, c.offset), (0x5000, 0, 0));
    a.mapcard_set(0x1000, 3, 0x2000, R);
    let c = a.mapcard_find_def(0x5000);
    assert_eq!((c.vaddr(), c.handle, c.offset), (0x1000, 3, 0x2004));
    assert_eq!(c.flags(), R);
    assert_eq!(c.paddr(0x5000), 0x7000);
}

#[test]
fn mapcard_set_replaces_in_place() {
    let mut m = memory(4);
    let mut a = AddressSpace::new(&mut m, 0x7000).unwrap();
    a.mapcard_set(0x1000, 3, 0x2000, R);
    a.mapcard_set(0x1000, 4, 0x3000, W);
    let c = a.mapcard_find(0x1000).unwrap();
    assert_eq!((c.handle, c.offset), (4, 0x3002));
}

#[test]
fn map_range_keeps_what_lies_past_the_end() {
    let mut m = memory(4);
    let mut a = AddressSpace::new(&mut m, 0x7000).unwrap();
    a.mapcard_set(0x1000, 1, 0x10, R);
    a.mapcard_set(0x3000, 2, 0x20, W);
    a.map_range(0x2000, 0x5000, 9, 0x94);
    let keys = [0x1000, 0x2000, 0x3000, 0x5000];
    assert_eq!(cards(&a, &keys), vec![(0x1000, 1, 0x14), (0x2000, 9, 0x94), (0x5000, 2, 0x22)]);
}

#[test]
fn map_range_twice_is_map_range_once() {
    let mut m = memory(4);
    let mut a = AddressSpace::new(&mut m, 0x7000).unwrap();
    a.mapcard_set(0x1000, 1, 0x10, R);
    a.mapcard_set(0x3000, 2, 0x20, W);
    a.map_range(0x2000, 0x5000, 9, 0x94);
    let keys = [0x1000, 0x2000, 0x3000, 0x4000, 0x5000, 0x6000];
    let once = cards(&a, &keys);
    a.map_range(0x2000, 0x5000, 9, 0x94);
    assert_eq!(cards(&a, &keys), once);
}

#[test]
fn map_range_equal_to_end_card_drops_the_end_card() {
    let mut m = memory(4);
    let mut a = AddressSpace::new(&mut m, 0x7000).unwrap();
    a.mapcard_set(0x1000, 1, 0x10, R);
    a.map_range(0x4000, 0x6000, 1, 0x14);
    let keys = [0x1000, 0x4000, 0x6000];
    assert_eq!(cards(&a, &keys), vec![(0x1000, 1, 0x14), (0x4000, 1, 0x14)]);
}

#[test]
fn find_add_backing_errors() {
    let mut m = memory(8);
    let mut a = AddressSpace::new(&mut m, 0x7000).unwrap();
    assert_eq!(a.find_add_backing(0x1000, &mut m).err(), Some(BackingError::NoMapping));
    a.mapcard_set(0x1000, 0, 0, Anon);
    assert_eq!(a.find_add_backing(0x1000, &mut m).err(), Some(BackingError::NoAccess));
    a.mapcard_set(0x1000, 5, 0, R);
    assert_eq!(a.find_add_backing(0x1000, &mut m).err(), Some(BackingError::UserMapping));
    a.mapcard_set(0x1000, 0, 0, R);
    assert_eq!(a.find_add_backing(0x1000, &mut m).err(), Some(BackingError::NotAnonOrPhys));
}

#[test]
fn anonymous_backing_without_frames_fails() {
    let mut m = memory(1);
    let mut a = AddressSpace::new(&mut m, 0x7000).unwrap();
    a.mapcard_set(0x1000, 0, 0, Anon | R);
    assert_eq!(a.find_add_backing(0x1000, &mut m).err(), Some(BackingError::OutOfMemory));
}

#[test]
fn anonymous_backing_gets_phys_flag_and_is_reused() {
    let mut m = memory(8);
    let mut a = AddressSpace::new(&mut m, 0x7000).unwrap();
    a.mapcard_set(0x1000, 0, 0, Anon | R | W);
    let b = a.find_add_backing(0x3000, &mut m).unwrap();
    assert_eq!(b.vaddr(), 0x3000);
    assert_eq!(b.flags(), Anon | R | W | Phys);
    assert!(b.has_vaddr(0x3abc));
    let again = a.find_add_backing(0x3000, &mut m).unwrap();
    assert_eq!(again.paddr(), b.paddr());
}

#[test]
fn physical_backing_pte() {
    let mut m = memory(8);
    let mut a = AddressSpace::new(&mut m, 0x7000).unwrap();
    a.mapcard_set(0x10_0000, 0, 0x5_0000, Phys | R | X);
    let b = a.find_add_backing(0x10_1000, &mut m).unwrap();
    assert_eq!(b.paddr(), 0x15_1000);
    assert_eq!(b.pte(), 0x15_1005);
    assert!(b.parent().is_none());
}

#[test]
fn add_pte_then_lookup() {
    let mut m = memory(8);
    let mut a = AddressSpace::new(&mut m, 0x7000).unwrap();
    assert!(a.add_pte(0x40_3000, 0xabc_d007, &mut m));
    assert_eq!(a.lookup_pte(0x40_3000), Some(0xabc_d007));
    assert_eq!(a.lookup_pte(0x40_4000), Some(0));
    // Installing again overwrites the slot, reusing the tables.
    assert!(a.add_pte(0x40_3000, 0x123_4005, &mut m));
    assert_eq!(a.lookup_pte(0x40_3000), Some(0x123_4005));
}

#[test]
fn add_pte_without_frames_fails() {
    let mut m = memory(2);
    let mut a = AddressSpace::new(&mut m, 0x7000).unwrap();
    assert!(!a.add_pte(0x40_3000, 0x5007, &mut m));
}

#[test]
fn sharing_records_its_observers() {
    let mut m = memory(8);
    let mut a = AddressSpace::new(&mut m, 0x7000).unwrap();
    let mut b = AddressSpace::new(&mut m, 0x7000).unwrap();
    a.mapcard_set(0x4000, 0, 0, Anon | R | W);
    let s = a.share_backing(0x4000, 0, &mut m).unwrap();
    assert_eq!((s.aspace, s.vaddr), (0, 0x4000));
    let pa = a.sharing_paddr(0x4000).unwrap();
    let nb = b.add_shared_backing(0x9000, R, s, pa).unwrap();
    assert_eq!(nb.paddr(), pa);
    assert_eq!(nb.parent(), Some(s));
    assert_eq!(b.add_shared_backing(0x9000, R, s, pa).err(), Some(BackingError::AlreadyBacked));
    assert!(a.add_sharing_child(0x4000, ukernel::aspace::BackingRef { aspace: 1, key: nb.key }));
    assert!(!a.add_sharing_child(0x5000, ukernel::aspace::BackingRef { aspace: 1, key: nb.key }));
}

#[test]
fn mapcard_new_packs_flags_into_offset() {
    let c = MapCard::new(0x2000, 1, 0x3000, R | W);
    assert_eq!(c.offset, 0x3006);
    assert_eq!(c.flags(), R | W);
    assert_eq!(c.paddr(0x2000), 0x5000);
}

#[test]
fn root_maps_kernel_after_user_mappings() {
    let mut m = memory(16);
    let mut a = AddressSpace::new(&mut m, 0x7000).unwrap();
    assert_eq!(a.root_entry(511), 0x7003);
    assert!(a.add_pte(0x7fff_ffff_f000, 0x9007, &mut m));
    a.map_range(0, 0x10_0000, 0, 0x4);
    assert_eq!(a.root_entry(511), 0x7003);
    assert_eq!(a.root_entry(0), 0);
    assert_ne!(a.root_entry(0xff), 0);
}
