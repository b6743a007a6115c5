//! Per-process address spaces: mapping cards that say how each virtual range
//! should look, backings that record the physical page installed at one
//! virtual page, sharings that tie one physical page to every backing that
//! observes it, and the hardware page tables.
use vstd::prelude::*;
use crate::dict::{Dict, DictItem, floor_key, is_floor, lemma_floor_key};
use crate::mapflag::{MapFlag, Anon, DMA, Phys, RWX, W, X};
use crate::mem::PerCpu;

verus! {

/// The low twelve bits of an address or offset: flags, not address.
pub const PAGE_MASK: u64 = 0xfff;

/// A mapping card: how the virtual range from `key` up to the next card's key
/// is backed. The low twelve bits of `offset` hold the access flags.
#[derive(Clone, Copy)]
pub struct MapCard {
    pub key: u64,
    pub handle: u64,
    pub offset: u64,
}

impl DictItem for MapCard {
    open spec fn spec_key(&self) -> u64 {
        self.key
    }

    fn key(&self) -> (k: u64) {
        self.key
    }
}

/// The access flags held in the low bits of a card's offset.
pub open spec fn card_flags(offset: u64) -> MapFlag {
    (offset & 0xfff) as u8
}

/// The card that describes `vaddr`: the one with the greatest key at or below
/// it, or an empty card at `vaddr` when there is none.
pub open spec fn effective_card(cards: Map<u64, MapCard>, vaddr: u64) -> MapCard {
    match floor_key(cards, vaddr) {
        Some(k) => cards[k],
        None => MapCard { key: vaddr, handle: 0, offset: 0 },
    }
}

/// The cards after `map_range(start, end, handle, offset)`.
pub open spec fn map_range_spec(
    cards: Map<u64, MapCard>,
    start: u64,
    end: u64,
    handle: u64,
    offset: u64,
) -> Map<u64, MapCard> {
    let e = effective_card(cards, end);
    let kept = if e.handle == handle && e.offset == offset {
        cards.remove(end)
    } else {
        cards.insert(end, MapCard { key: end, handle: e.handle, offset: e.offset })
    };
    kept.remove_keys(Set::new(|k: u64| start < k < end)).insert(
        start,
        MapCard { key: start, handle, offset },
    )
}

/// Mapping a range twice with the same arguments leaves the cards as mapping
/// it once does.
pub proof fn lemma_map_range_idempotent(
    cards: Map<u64, MapCard>,
    start: u64,
    end: u64,
    handle: u64,
    offset: u64,
)
    requires
        start <= end,
    ensures
        map_range_spec(map_range_spec(cards, start, end, handle, offset), start, end, handle, offset)
            == map_range_spec(cards, start, end, handle, offset),
{
    let once = map_range_spec(cards, start, end, handle, offset);
    let e = effective_card(cards, end);
    let range = Set::new(|k: u64| start < k < end);
    if start == end {
        assert(is_floor(once, end, end));
        lemma_floor_key(once, end, end);
        assert(once.remove(end).remove_keys(range).insert(start, MapCard { key: start, handle, offset }) =~= once);
    } else if e.handle == handle && e.offset == offset {
        assert forall|k2: u64| #[trigger] once.contains_key(k2) && k2 <= end implies k2 <= start by {}
        assert(is_floor(once, end, start));
        lemma_floor_key(once, end, start);
        assert(once.remove(end).remove_keys(range).insert(start, MapCard { key: start, handle, offset }) =~= once);
    } else {
        assert(is_floor(once, end, end));
        lemma_floor_key(once, end, end);
        let c = MapCard { key: end, handle: e.handle, offset: e.offset };
        assert(once[end] == c);
        assert(once.insert(end, c).remove_keys(range).insert(start, MapCard { key: start, handle, offset }) =~= once);
    }
}

impl MapCard {
    pub fn new(vaddr: u64, handle: u64, offset: u64, access: MapFlag) -> (c: MapCard)
        ensures
            c == (MapCard { key: vaddr, handle, offset: offset | (access as u64) }),
    {
        MapCard { key: vaddr, handle, offset: offset | (access as u64) }
    }

    pub fn vaddr(&self) -> (r: u64)
        ensures
            r == self.key,
    {
        self.key
    }

    /// The physical address (or, for a card with a handle, the offset in the
    /// backer's terms) that `vaddr` maps to.
    pub fn paddr(&self, vaddr: u64) -> (r: u64)
        ensures
            r == vstd::wrapping::u64_specs::wrapping_add(vaddr, self.offset & !0xfffu64),
    {
        vaddr.wrapping_add(self.offset & !PAGE_MASK)
    }

    pub fn flags(&self) -> (r: MapFlag)
        ensures
            r == card_flags(self.offset),
    {
        (self.offset & PAGE_MASK) as u8
    }

    fn same(&self, other: &MapCard) -> (r: bool)
        ensures
            r == (self.handle == other.handle && self.offset == other.offset),
    {
        self.handle == other.handle && self.offset == other.offset
    }
}

/// Names a sharing: the address space that owns it and the page it shares.
#[derive(Clone, Copy, PartialEq, Eq, Structural, Debug)]
pub struct SharingRef {
    pub aspace: usize,
    pub vaddr: u64,
}

/// Names a backing: the address space that holds it and its key.
#[derive(Clone, Copy, PartialEq, Eq, Structural, Debug)]
pub struct BackingRef {
    pub aspace: usize,
    pub key: u64,
}

/// One physical page installed at one virtual page. The key is the virtual
/// page address with the access flags in its low twelve bits.
#[derive(Clone, Copy)]
pub struct Backing {
    pub key: u64,
    pub phys: u64,
    /// The sharing this page came from; None for a direct (`Phys`) backing.
    pub parent: Option<SharingRef>,
}

impl DictItem for Backing {
    open spec fn spec_key(&self) -> u64 {
        self.key
    }

    fn key(&self) -> (k: u64) {
        self.key
    }
}

/// The page-table entry bits for a page with access flags `flags`: present,
/// user, writable only with `W`, not executable without `X`.
pub open spec fn pte_bits(flags: MapFlag) -> u64 {
    (5u64 | (if flags & X == 0 { 0x8000_0000_0000_0000u64 } else { 0u64 })) | (if flags & W != 0 {
        2u64
    } else {
        0u64
    })
}

impl Backing {
    pub open spec fn spec_vaddr(&self) -> u64 {
        self.key & !0xfffu64
    }

    pub open spec fn spec_flags(&self) -> MapFlag {
        (self.key & 0xfff) as u8
    }

    pub fn has_vaddr(&self, vaddr: u64) -> (r: bool)
        ensures
            r == (self.spec_vaddr() == vaddr & !0xfffu64),
    {
        self.vaddr() == vaddr & !PAGE_MASK
    }

    pub fn vaddr(&self) -> (r: u64)
        ensures
            r == self.spec_vaddr(),
    {
        self.key & !PAGE_MASK
    }

    pub fn flags(&self) -> (r: MapFlag)
        ensures
            r == self.spec_flags(),
    {
        (self.key & PAGE_MASK) as u8
    }

    fn pte_flags(&self) -> (r: u64)
        ensures
            r == pte_bits(self.spec_flags()),
    {
        let flags = self.flags();
        // Present and user-accessible.
        let pte: u64 = 5;
        // Bit 63 takes execute permission away.
        let nx: u64 = if flags & X == 0 {
            0x8000_0000_0000_0000u64
        } else {
            0
        };
        let w: u64 = if flags & W != 0 {
            2
        } else {
            0
        };
        (pte | nx) | w
    }

    /// The page-table entry that installs this page.
    pub fn pte(&self) -> (r: u64)
        ensures
            r == self.phys | pte_bits(self.spec_flags()),
    {
        self.paddr() | self.pte_flags()
    }

    /// The physical page.
    pub fn paddr(&self) -> (r: u64)
        ensures
            r == self.phys,
    {
        self.phys
    }

    /// The sharing this page came from, if it is not a direct backing.
    pub fn parent(&self) -> (r: Option<SharingRef>)
        ensures
            r == self.parent,
    {
        self.parent
    }
}

/// One shared physical page and every backing that observes it.
pub struct Sharing {
    pub vaddr: u64,
    pub paddr: u64,
    pub aspace: usize,
    pub children: Vec<BackingRef>,
}

impl DictItem for Sharing {
    open spec fn spec_key(&self) -> u64 {
        self.vaddr
    }

    fn key(&self) -> (k: u64) {
        self.vaddr
    }
}

/// Why a page could not be backed.
#[derive(Clone, Copy, PartialEq, Eq, Structural, Debug)]
pub enum BackingError {
    /// No card covers the address.
    NoMapping,
    /// The card grants no access.
    NoAccess,
    /// The card is backed by another process, through the fault protocol.
    UserMapping,
    /// A kernel-backed card that is neither anonymous nor physical.
    NotAnonOrPhys,
    /// No frame was left for anonymous memory.
    OutOfMemory,
    /// A page that already has a backing.
    AlreadyBacked,
}

/// The backing already installed at page `vaddr`, if any.
pub open spec fn backing_at(backings: Map<u64, Backing>, vaddr: u64) -> Option<Backing> {
    match floor_key(backings, vaddr | 0xfff) {
        Some(k) => if k & !0xfffu64 == vaddr & !0xfffu64 {
            Some(backings[k])
        } else {
            None
        },
        None => None,
    }
}

/// The backing that `find_add_backing` creates at page `vaddr` from `card`,
/// on the frame `frame` when the card is anonymous; or why it creates none.
pub open spec fn new_backing(card: Option<MapCard>, vaddr: u64, frame: u64) -> Result<Backing, BackingError> {
    match card {
        None => Err(BackingError::NoMapping),
        Some(c) => {
            let f = card_flags(c.offset);
            if f & RWX == 0 {
                Err(BackingError::NoAccess)
            } else if c.handle != 0 {
                Err(BackingError::UserMapping)
            } else if f & DMA == Anon {
                Ok(Backing { key: vaddr | ((f | Phys) as u64), phys: frame, parent: None })
            } else if f & Phys != 0 {
                Ok(
                    Backing {
                        key: vaddr | (f as u64),
                        phys: vstd::wrapping::u64_specs::wrapping_add(vaddr, c.offset & !0xfffu64),
                        parent: None,
                    },
                )
            } else {
                Err(BackingError::NotAnonOrPhys)
            }
        },
    }
}

/// Facts about the bits of a virtual address: its four table indices, its
/// page, and the user half.
pub proof fn lemma_page_bits(v: u64)
    by (bit_vector)
    ensures
        ((v >> 39u64) & 0x1ffu64) < 512,
        ((v >> 30u64) & 0x1ffu64) < 512,
        ((v >> 21u64) & 0x1ffu64) < 512,
        ((v >> 12u64) & 0x1ffu64) < 512,
        (v & !0xfffu64) & 0xfff == 0,
        v < 0x8000_0000_0000 ==> (v & !0xfffu64) < 0x8000_0000_0000 && ((v >> 39u64) & 0x1ffu64) < 256,
        v & 0xfff == 0 ==> (v | 0xfffu64) & !0xfffu64 == v && v & !0xfffu64 == v,
{
}

/// A backing made from a card lies at or above the card's key and has no
/// access flag that the card lacks, but for the `Phys` flag that anonymous
/// memory gains when its frame is allocated.
pub proof fn lemma_new_backing_covered(c: MapCard, vaddr: u64, frame: u64)
    requires
        vaddr & 0xfff == 0,
        c.key <= vaddr,
        new_backing(Some(c), vaddr, frame) is Ok,
    ensures
        ({
            let b = new_backing(Some(c), vaddr, frame).unwrap();
            &&& c.key <= b.spec_vaddr()
            &&& b.spec_flags() & !(card_flags(c.offset) | Phys) == 0
            &&& !needs_frame(c) ==> b.spec_flags() == card_flags(c.offset)
        }),
{
    let f = card_flags(c.offset);
    let b = new_backing(Some(c), vaddr, frame).unwrap();
    if f & DMA == Anon {
        lemma_backing_key(vaddr, f | Phys);
        assert((f | Phys) & !(f | Phys) == 0) by (bit_vector);
    } else {
        lemma_backing_key(vaddr, f);
        assert(f & !(f | Phys) == 0 && f & !f == 0) by (bit_vector);
    }
}

/// Keys between a page's first key and its last one lie on that page.
proof fn lemma_same_page(vaddr: u64, f: u8, k: u64)
    requires
        vaddr & 0xfff == 0,
    ensures
        (vaddr | (f as u64)) <= (vaddr | 0xfffu64),
        (vaddr | (f as u64)) <= k <= (vaddr | 0xfffu64) ==> k & !0xfffu64 == vaddr,
{
    assert((vaddr | (f as u64)) <= (vaddr | 0xfffu64)) by (bit_vector)
        requires
            vaddr & 0xfff == 0,
    ;
    assert((vaddr | (f as u64)) <= k <= (vaddr | 0xfffu64) ==> k & !0xfffu64 == vaddr) by (bit_vector)
        requires
            vaddr & 0xfff == 0,
    ;
}

/// The card asks for a fresh anonymous frame on first use.
pub open spec fn needs_frame(c: MapCard) -> bool {
    let f = card_flags(c.offset);
    f & RWX != 0 && c.handle == 0 && f & DMA == Anon
}

/// A key made of an aligned page and flags in the low bits gives both back.
pub proof fn lemma_backing_key(vaddr: u64, f: u8)
    requires
        vaddr & 0xfff == 0,
    ensures
        (vaddr | (f as u64)) & !0xfffu64 == vaddr,
        ((vaddr | (f as u64)) & 0xfff) as u8 == f,
{
    assert((vaddr | (f as u64)) & !0xfffu64 == vaddr) by (bit_vector)
        requires
            vaddr & 0xfff == 0,
    ;
    assert(((vaddr | (f as u64)) & 0xfff) as u8 == f) by (bit_vector)
        requires
            vaddr & 0xfff == 0,
    ;
}

/// One page-table frame: its physical address, its level (4 for the root,
/// 1 for the tables whose entries map pages) and its 512 entries.
pub struct PageTable {
    pub paddr: u64,
    pub level: u8,
    pub entries: Vec<u64>,
}

/// The first table at or after position `i` whose frame is at `paddr`.
pub open spec fn table_from(tables: Seq<PageTable>, paddr: u64, i: int) -> Option<int>
    decreases tables.len() - i,
{
    if i < 0 || i >= tables.len() {
        None
    } else if tables[i].paddr == paddr {
        Some(i)
    } else {
        table_from(tables, paddr, i + 1)
    }
}

/// The table whose frame is at `paddr`.
pub open spec fn table_at(tables: Seq<PageTable>, paddr: u64) -> Option<int> {
    table_from(tables, paddr, 0)
}

/// Index into a table at the level whose entries cover `1 << shift` bytes.
pub open spec fn pt_index(vaddr: u64, shift: u64) -> int {
    ((vaddr >> shift) & 0x1ff) as int
}

/// The table that a present entry points to.
pub open spec fn next_table(tables: Seq<PageTable>, t: int, vaddr: u64, shift: u64) -> Option<int> {
    let e = tables[t].entries@[pt_index(vaddr, shift)];
    if e & 1 == 0 {
        None
    } else {
        table_at(tables, e & !0xfffu64)
    }
}

/// The last-level entry for `vaddr`, found by walking the four levels from the
/// root table.
pub open spec fn walk(tables: Seq<PageTable>, vaddr: u64) -> Option<u64> {
    match next_table(tables, 0, vaddr, 39) {
        None => None,
        Some(pdp) => match next_table(tables, pdp, vaddr, 30) {
            None => None,
            Some(pd) => match next_table(tables, pd, vaddr, 21) {
                None => None,
                Some(pt) => Some(tables[pt].entries@[pt_index(vaddr, 12)]),
            },
        },
    }
}

/// A table found by a lookup is in the list and has the address looked for.
proof fn lemma_table_from_bounds(a: Seq<PageTable>, paddr: u64, i: int)
    requires
        0 <= i,
    ensures
        table_from(a, paddr, i) matches Some(c) ==> i <= c < a.len() && a[c].paddr == paddr,
    decreases a.len() - i,
{
    if i < a.len() && a[i].paddr != paddr {
        lemma_table_from_bounds(a, paddr, i + 1);
    }
}

/// Lookups depend on the frame addresses alone.
proof fn lemma_table_from_same(a: Seq<PageTable>, b: Seq<PageTable>, paddr: u64, i: int)
    requires
        0 <= i <= a.len(),
        a.len() == b.len(),
        forall|j: int| 0 <= j < a.len() ==> #[trigger] a[j].paddr == b[j].paddr,
    ensures
        table_from(a, paddr, i) == table_from(b, paddr, i),
    decreases a.len() - i,
{
    if i < a.len() {
        lemma_table_from_same(a, b, paddr, i + 1);
    }
}

/// A lookup that finds nothing means no table from `i` on has that address.
proof fn lemma_table_from_none(a: Seq<PageTable>, paddr: u64, i: int)
    requires
        0 <= i,
        table_from(a, paddr, i) is None,
    ensures
        forall|j: int| i <= j < a.len() ==> #[trigger] a[j].paddr != paddr,
    decreases a.len() - i,
{
    if i < a.len() {
        lemma_table_from_none(a, paddr, i + 1);
    }
}

/// Appending a table to a list where an address is not found finds it
/// exactly when the new table has it.
proof fn lemma_table_from_push_new(a: Seq<PageTable>, t: PageTable, paddr: u64, i: int)
    requires
        0 <= i <= a.len(),
        table_from(a, paddr, i) is None,
    ensures
        table_from(a.push(t), paddr, i) == (if t.paddr == paddr { Some(a.len() as int) } else { None }),
    decreases a.len() - i,
{
    let b = a.push(t);
    if i < a.len() {
        assert(b[i] == a[i]);
        lemma_table_from_push_new(a, t, paddr, i + 1);
    } else {
        assert(b[i] == t);
        assert(table_from(b, paddr, i + 1) is None);
    }
}

/// Growing the list of tables, and changing no frame address already in it,
/// keeps every lookup that found a table.
proof fn lemma_table_from_extend(a: Seq<PageTable>, b: Seq<PageTable>, paddr: u64, i: int)
    requires
        0 <= i <= a.len() <= b.len(),
        forall|j: int| 0 <= j < a.len() ==> #[trigger] a[j].paddr == b[j].paddr,
        table_from(a, paddr, i) is Some,
    ensures
        table_from(b, paddr, i) == table_from(a, paddr, i),
    decreases a.len() - i,
{
    if i < a.len() && a[i].paddr != paddr {
        lemma_table_from_extend(a, b, paddr, i + 1);
    }
}

/// A process's view of memory, with the page tables that hold it.
pub struct AddressSpace {
    /// The page tables; the first is the root (PML4).
    tables: Vec<PageTable>,
    kernel_pdp: u64,
    count: u64,
    mapcards: Dict<MapCard>,
    backings: Dict<Backing>,
    sharings: Dict<Sharing>,
}

impl AddressSpace {
    pub closed spec fn wf(&self) -> bool {
        &&& self.tables@.len() >= 1
        &&& forall|t: int| 0 <= t < self.tables@.len() ==> #[trigger] self.tables@[t].entries@.len() == 512
        &&& self.tables@[0].entries@[511] == self.kernel_pdp | 3
        &&& self.tables@[0].paddr & 0xfff == 0
        &&& forall|i: int, j: int|
            0 <= i < self.tables@.len() && 0 <= j < self.tables@.len() && i != j ==> #[trigger] self.tables@[i].paddr
                != #[trigger] self.tables@[j].paddr
        &&& self.tables@[0].level == 4
        &&& forall|t: int| 0 <= t < self.tables@.len() ==> 1 <= #[trigger] self.tables@[t].level <= 4
        &&& forall|t: int, i: int|
            0 <= t < self.tables@.len() && 0 <= i < 512 && !(t == 0 && i == 511) && self.tables@[t].level > 1 && (
            #[trigger] self.tables@[t].entries@[i]) & 1 != 0 ==> table_at(self.tables@, self.tables@[t].entries@[i] & !0xfffu64)
                is Some && t < table_at(self.tables@, self.tables@[t].entries@[i] & !0xfffu64).unwrap() && self.tables@[table_at(
                self.tables@,
                self.tables@[t].entries@[i] & !0xfffu64,
            ).unwrap()].level == self.tables@[t].level - 1
        &&& forall|k: u64| #[trigger] self.backings@.contains_key(k) ==> self.backings@[k].phys & 0xfff == 0
        &&& forall|k: u64| #[trigger] self.sharings@.contains_key(k) ==> self.sharings@[k].paddr & 0xfff == 0
        &&& self.mapcards.wf()
        &&& self.backings.wf()
        &&& self.sharings.wf()
    }

    pub closed spec fn cards(&self) -> Map<u64, MapCard> {
        self.mapcards@
    }

    pub closed spec fn backing_map(&self) -> Map<u64, Backing> {
        self.backings@
    }

    pub closed spec fn sharing_map(&self) -> Map<u64, Sharing> {
        self.sharings@
    }

    pub closed spec fn spec_cr3(&self) -> u64 {
        self.tables@[0].paddr
    }

    /// How many page tables this space has.
    pub closed spec fn table_count(&self) -> int {
        self.tables@.len() as int
    }

    /// Entry `i` of page table `t`.
    pub closed spec fn table_entry(&self, t: int, i: int) -> u64 {
        self.tables@[t].entries@[i]
    }

    /// Frame `f` holds one of this space's page tables.
    pub closed spec fn uses_frame(&self, f: u64) -> bool {
        table_at(self.tables@, f) is Some
    }

    /// How many processes use this space.
    pub closed spec fn spec_count(&self) -> u64 {
        self.count
    }

    /// Entry `i` of the root table.
    pub closed spec fn pml4_entry(&self, i: int) -> u64 {
        self.tables@[0].entries@[i]
    }

    /// The kernel's upper-level table, mapped by the root's last entry.
    pub closed spec fn spec_kernel_pdp(&self) -> u64 {
        self.kernel_pdp
    }

    /// The last-level page-table entry that translates `vaddr`, if the walk
    /// reaches one.
    pub closed spec fn translation(&self, vaddr: u64) -> Option<u64> {
        walk(self.tables@, vaddr)
    }

    /// The root's last entry maps the kernel's upper half, present and writable.
    pub proof fn lemma_kernel_mapped(&self)
        requires
            self.wf(),
        ensures
            self.pml4_entry(511) == self.spec_kernel_pdp() | 3,
    {
    }

    /// The root table and every installed or shared page are page-aligned.
    pub proof fn lemma_aligned(&self)
        requires
            self.wf(),
        ensures
            self.spec_cr3() & 0xfff == 0,
            forall|k: u64| #[trigger] self.backing_map().contains_key(k) ==> self.backing_map()[k].phys & 0xfff == 0,
            forall|k: u64| #[trigger] self.sharing_map().contains_key(k) ==> self.sharing_map()[k].paddr & 0xfff == 0,
    {
    }

    /// Each card and each backing is stored under its own key.
    pub proof fn lemma_keys(&self)
        requires
            self.wf(),
        ensures
            forall|k: u64| #[trigger] self.cards().contains_key(k) ==> self.cards()[k].key == k,
            forall|k: u64| #[trigger] self.backing_map().contains_key(k) ==> self.backing_map()[k].key == k,
            forall|k: u64| #[trigger] self.sharing_map().contains_key(k) ==> self.sharing_map()[k].vaddr == k,
    {
        self.mapcards.lemma_keys();
        self.backings.lemma_keys();
        self.sharings.lemma_keys();
    }

    /// A new address space on a fresh root table, whose last entry maps the
    /// kernel. None when no frame is left for the root.
    pub fn new(mem: &mut PerCpu, kernel_pdp: u64) -> (r: Option<AddressSpace>)
        requires
            old(mem).wf(),
        ensures
            final(mem).wf(),
            forall|g: u64| #[trigger] final(mem).available().contains(g) ==> old(mem).available().contains(g),
            r matches Some(a) ==> !final(mem).available().contains(a.spec_cr3()),
            r is None <==> old(mem).available().len() == 0,
            r matches Some(a) ==> {
                &&& a.wf()
                &&& a.cards() == Map::<u64, MapCard>::empty()
                &&& a.backing_map() == Map::<u64, Backing>::empty()
                &&& a.sharing_map() == Map::<u64, Sharing>::empty()
                &&& a.spec_kernel_pdp() == kernel_pdp
                &&& old(mem).available().contains(a.spec_cr3())
                &&& forall|f: u64| #[trigger] a.uses_frame(f) <==> f == a.spec_cr3()
                &&& forall|i: int| 0 <= i < 511 ==> #[trigger] a.pml4_entry(i) == 0
                &&& a.spec_count() == 1
                &&& a.spec_cr3() & 0xfff == 0
            },
            r is None ==> final(mem).available() == old(mem).available(),
            r is Some ==> final(mem).available().len() == old(mem).available().len() - 1,
    {
        match mem.alloc_frame() {
            None => None,
            Some(frame) => {
                let mut entries: Vec<u64> = vec![0u64; 512];
                entries.set(511, kernel_pdp | 3);
                let mut tables: Vec<PageTable> = Vec::new();
                tables.push(PageTable { paddr: frame, level: 4, entries });
                proof {
                    assert((0u64 & 1u64) == 0) by (bit_vector);
                    assert(tables@ =~= Seq::<PageTable>::empty().push(tables@[0]));
                    assert forall|f: u64| #[trigger] table_at(tables@, f) == (if f == frame { Some(0int) } else { None }) by {
                        lemma_table_from_push_new(Seq::<PageTable>::empty(), tables@[0], f, 0);
                    }
                }
                Some(
                    AddressSpace {
                        tables,
                        kernel_pdp,
                        count: 1,
                        mapcards: Dict::empty(),
                        backings: Dict::empty(),
                        sharings: Dict::empty(),
                    },
                )
            },
        }
    }

    /// Physical address of the root table, for the CPU's CR3.
    pub fn cr3(&self) -> (r: u64)
        requires
            self.wf(),
        ensures
            r == self.spec_cr3(),
            r & 0xfff == 0,
    {
        self.tables[0].paddr
    }

    /// How many processes use this space.
    pub fn count(&self) -> (r: u64)
        ensures
            r == self.spec_count(),
    {
        self.count
    }

    /// Entry `i` of the root table.
    pub fn root_entry(&self, i: usize) -> (r: u64)
        requires
            self.wf(),
            i < 512,
        ensures
            r == self.pml4_entry(i as int),
    {
        self.tables[0].entries[i]
    }

    /// The card with the greatest key at or below `vaddr`.
    pub fn mapcard_find(&self, vaddr: u64) -> (r: Option<MapCard>)
        requires
            self.wf(),
        ensures
            match floor_key(self.cards(), vaddr) {
                Some(k) => r == Some(self.cards()[k]) && self.cards()[k].key == k,
                None => r is None,
            },
    {
        match self.mapcards.find_const(vaddr) {
            Some(c) => Some(*c),
            None => None,
        }
    }

    /// The card that describes `vaddr`, or an empty card at `vaddr`.
    pub fn mapcard_find_def(&self, vaddr: u64) -> (r: MapCard)
        requires
            self.wf(),
        ensures
            r == effective_card(self.cards(), vaddr),
    {
        match self.mapcards.find_const(vaddr) {
            Some(c) => *c,
            None => MapCard { key: vaddr, handle: 0, offset: 0 },
        }
    }

    /// Sets the card at `vaddr`, replacing the one there.
    pub fn mapcard_set(&mut self, vaddr: u64, handle: u64, offset: u64, access: MapFlag)
        requires
            old(self).wf(),
        ensures
            final(self).wf(),
            forall|f: u64| #[trigger] final(self).uses_frame(f) == old(self).uses_frame(f),
            final(self).cards() == old(self).cards().insert(
                vaddr,
                MapCard { key: vaddr, handle, offset: offset | (access as u64) },
            ),
            final(self).backing_map() == old(self).backing_map(),
            final(self).sharing_map() == old(self).sharing_map(),
            final(self).spec_cr3() == old(self).spec_cr3(),
            final(self).spec_kernel_pdp() == old(self).spec_kernel_pdp(),
            forall|v: u64| #[trigger] final(self).translation(v) == old(self).translation(v),
    {
        self.mapcards.insert(MapCard::new(vaddr, handle, offset, access));
    }

    /// Makes `[start, end)` map through `handle` at `offset` (flags in its low
    /// bits), keeping what lies past `end` as it was.
    pub fn map_range(&mut self, start: u64, end: u64, handle: u64, offset: u64)
        requires
            old(self).wf(),
        ensures
            final(self).wf(),
            forall|f: u64| #[trigger] final(self).uses_frame(f) == old(self).uses_frame(f),
            final(self).cards() == map_range_spec(old(self).cards(), start, end, handle, offset),
            final(self).backing_map() == old(self).backing_map(),
            final(self).sharing_map() == old(self).sharing_map(),
            final(self).spec_cr3() == old(self).spec_cr3(),
            final(self).spec_kernel_pdp() == old(self).spec_kernel_pdp(),
            forall|v: u64| #[trigger] final(self).translation(v) == old(self).translation(v),
    {
        let end_card = self.mapcard_find_def(end);
        let start_card = MapCard { key: start, handle, offset };
        if start_card.same(&end_card) {
            self.mapcards.remove(end);
        } else {
            self.mapcards.insert(MapCard { key: end, handle: end_card.handle, offset: end_card.offset });
        }
        self.mapcards.remove_range_exclusive(start, end);
        self.mapcards.insert(start_card);
    }

    /// The table whose frame is at `paddr`.
    fn find_table(&self, paddr: u64) -> (r: Option<usize>)
        ensures
            r matches Some(i) ==> table_at(self.tables@, paddr) == Some(i as int),
            r is None ==> table_at(self.tables@, paddr) is None,
    {
        let mut i: usize = 0;
        while i < self.tables.len()
            invariant
                i <= self.tables@.len(),
                table_from(self.tables@, paddr, 0) == table_from(self.tables@, paddr, i as int),
            decreases self.tables@.len() - i,
        {
            if self.tables[i].paddr == paddr {
                assert(table_from(self.tables@, paddr, i as int) == Some(i as int));
                return Some(i);
            }
            i = i + 1;
        }
        None
    }

    /// The table that entry `index` of table `table` points to; when the
    /// entry is not present, a fresh zeroed table is installed there first,
    /// present, user-accessible and writable.
    fn get_alloc_pt(&mut self, table: usize, index: usize, mem: &mut PerCpu) -> (r: Option<usize>)
        requires
            old(self).wf(),
            old(mem).wf(),
            table < old(self).tables@.len(),
            index < 512,
            old(self).tables@[table as int].level > 1,
        ensures
            final(self).wf(),
            final(mem).wf(),
            final(self).kernel_pdp == old(self).kernel_pdp,
            forall|j: int| 0 <= j < old(self).tables@.len() ==> #[trigger] final(self).tables@[j].level
                == old(self).tables@[j].level,
            r is Some && !(table == 0 && index == 511) ==> final(self).tables@[r.unwrap() as int].level == old(self).tables@[table as int].level - 1,
            final(self).mapcards@ == old(self).mapcards@,
            final(self).backings@ == old(self).backings@,
            final(self).sharings@ == old(self).sharings@,
            final(self).tables@.len() >= old(self).tables@.len(),
            forall|j: int| 0 <= j < old(self).tables@.len() ==> #[trigger] final(self).tables@[j].paddr
                == old(self).tables@[j].paddr,
            forall|j: int, i: int|
                0 <= j < old(self).tables@.len() && 0 <= i < 512 && !(j == table && i == index)
                    ==> #[trigger] final(self).tables@[j].entries@[i] == old(self).tables@[j].entries@[i],
            old(self).tables@[table as int].entries@[index as int] & 1 != 0 ==> final(self).tables@
                == old(self).tables@ && final(mem).available() == old(mem).available(),
            r matches Some(c) ==> {
                let e = final(self).tables@[table as int].entries@[index as int];
                &&& e & 1 != 0
                &&& table_at(final(self).tables@, e & !0xfffu64) == Some(c as int)
                &&& c < final(self).tables@.len()
            },
            forall|g: u64| #[trigger] final(mem).available().contains(g) ==> old(mem).available().contains(g),
            final(mem).available().len() >= old(mem).available().len() - 1,
            forall|f: u64| #[trigger] final(self).uses_frame(f) ==> old(self).uses_frame(f) || old(mem).available().contains(f),
            (forall|f: u64| #[trigger] old(mem).available().contains(f) ==> !old(self).uses_frame(f)) ==> (forall|f: u64|
                #[trigger] final(mem).available().contains(f) ==> !final(self).uses_frame(f)),
            !(table == 0 && index == 511) && (old(self).tables@[table as int].entries@[index as int] & 1 != 0 || (old(
                mem,
            ).available().len() > 0 && forall|f: u64| #[trigger] old(mem).available().contains(f) ==> !old(self).uses_frame(f)))
                ==> r is Some && table < r.unwrap(),
    {
        let existing = self.tables[table].entries[index];
        if existing & 1 == 0 {
            let frame = match mem.alloc_frame() {
                Some(f) => f,
                None => return None,
            };
            // A frame that already holds one of these tables cannot hold another.
            if self.find_table(frame).is_some() {
                return None;
            }
            let ghost before = self.tables@;
            let n = self.tables.len();
            self.tables[table].entries.set(index, frame | 7);
            let level = self.tables[table].level - 1;
            self.tables.push(PageTable { paddr: frame, level, entries: vec![0u64; 512] });
            proof {
                let e = frame | 7u64;
                assert((frame | 7u64) & 1 != 0) by (bit_vector);
                assert(e & !0xfffu64 == frame) by (bit_vector)
                    requires
                        frame & 0xfff == 0,
                        e == frame | 7u64,
                ;
                assert(self.tables@[0].entries@[511] == old(self).tables@[0].entries@[511]) by {
                    let kp = old(self).kernel_pdp;
                    assert((kp | 3u64) & 1 != 0) by (bit_vector);
                }
                let mid = before.update(table as int, self.tables@[table as int]);
                assert(self.tables@ =~= mid.push(self.tables@[n as int]));
                lemma_table_from_none(before, frame, 0);
                lemma_table_from_same(before, mid, frame, 0);
                lemma_table_from_push_new(mid, self.tables@[n as int], frame, 0);
                assert(table_at(self.tables@, frame) == Some(n as int));
                assert((0u64 & 1u64) == 0) by (bit_vector);
                assert forall|f: u64| table_at(before, f) is Some implies #[trigger] table_at(self.tables@, f) == table_at(before, f) by {
                    lemma_table_from_extend(before, self.tables@, f, 0);
                }
                assert forall|f: u64| #[trigger] self.uses_frame(f) implies old(self).uses_frame(f) || old(mem).available().contains(f) by {
                    if !old(self).uses_frame(f) {
                        lemma_table_from_same(before, mid, f, 0);
                        lemma_table_from_push_new(mid, self.tables@[n as int], f, 0);
                    }
                }
                if forall|f: u64| #[trigger] old(mem).available().contains(f) ==> !old(self).uses_frame(f) {
                    assert forall|f: u64| #[trigger] mem.available().contains(f) implies !self.uses_frame(f) by {
                        lemma_table_from_same(before, mid, f, 0);
                        lemma_table_from_push_new(mid, self.tables@[n as int], f, 0);
                    }
                }
                assert forall|t: int, i: int|
                    0 <= t < self.tables@.len() && 0 <= i < 512 && !(t == 0 && i == 511) && self.tables@[t].level > 1 && (
                    #[trigger] self.tables@[t].entries@[i]) & 1 != 0 implies table_at(self.tables@, self.tables@[t].entries@[i] & !0xfffu64)
                        is Some && t < table_at(self.tables@, self.tables@[t].entries@[i] & !0xfffu64).unwrap() && self.tables@[table_at(
                    self.tables@,
                    self.tables@[t].entries@[i] & !0xfffu64,
                ).unwrap()].level == self.tables@[t].level - 1 by {
                    if t == n {
                        assert(self.tables@[t].entries@[i] == 0u64);
                    } else if !(t == table && i == index) {
                        let x = before[t].entries@[i] & !0xfffu64;
                        assert(self.tables@[t].entries@[i] == before[t].entries@[i]);
                        assert(self.tables@[t].level == before[t].level);
                        assert(table_at(before, x) is Some);
                        assert(table_at(self.tables@, x) == table_at(before, x));
                        lemma_table_from_bounds(before, x, 0);
                        let c = table_at(before, x).unwrap();
                        assert(self.tables@[c].level == before[c].level);
                    } else {
                        assert(self.tables@[t].entries@[i] == e);
                        assert(self.tables@[n as int].level == before[table as int].level - 1);
                    }
                }
                assert forall|i: int, j: int|
                    0 <= i < self.tables@.len() && 0 <= j < self.tables@.len() && i != j implies #[trigger] self.tables@[i].paddr
                    != #[trigger] self.tables@[j].paddr by {
                    if i < n && j < n {
                        assert(self.tables@[i].paddr == before[i].paddr && self.tables@[j].paddr == before[j].paddr);
                    } else if i < n {
                        assert(self.tables@[i].paddr == before[i].paddr);
                    } else if j < n {
                        assert(self.tables@[j].paddr == before[j].paddr);
                    }
                }
            }
            Some(n)
        } else {
            proof {
                lemma_table_from_bounds(self.tables@, existing & !0xfffu64, 0);
            }
            let r = self.find_table(existing & !PAGE_MASK);
            proof {
                if r is Some {
                    assert(table_at(self.tables@, existing & !0xfffu64) == Some(r.unwrap() as int));
                }
            }
            r
        }
    }

    /// Installs `pte` as the last-level entry for `vaddr`, creating the
    /// missing intermediate tables. False when a frame could not be had or
    /// the walk met a table that is not this space's own.
    pub fn add_pte(&mut self, vaddr: u64, pte: u64, mem: &mut PerCpu) -> (r: bool)
        requires
            old(self).wf(),
            old(mem).wf(),
        ensures
            final(self).wf(),
            final(mem).wf(),
            final(self).cards() == old(self).cards(),
            final(self).backing_map() == old(self).backing_map(),
            final(self).sharing_map() == old(self).sharing_map(),
            final(self).spec_cr3() == old(self).spec_cr3(),
            final(self).spec_kernel_pdp() == old(self).spec_kernel_pdp(),
            r ==> final(self).translation(vaddr) == Some(pte),
            forall|g: u64| #[trigger] final(mem).available().contains(g) ==> old(mem).available().contains(g),
            forall|f: u64| #[trigger] final(self).uses_frame(f) ==> old(self).uses_frame(f) || old(mem).available().contains(f),
            (forall|f: u64| #[trigger] old(mem).available().contains(f) ==> !old(self).uses_frame(f)) ==> (forall|f: u64|
                #[trigger] final(mem).available().contains(f) ==> !final(self).uses_frame(f)),
            vaddr < 0x8000_0000_0000 && old(mem).available().len() >= 3 && (forall|f: u64| #[trigger] old(mem).available().contains(f)
                ==> !old(self).uses_frame(f)) ==> r,
            final(self).table_count() >= old(self).table_count(),
            forall|t: int, i: int|
                0 <= t < old(self).table_count() && 0 <= i < 512 && i != pt_index(vaddr, 12) && old(self).table_entry(t, i) & 1 != 0
                    ==> #[trigger] final(self).table_entry(t, i) == old(self).table_entry(t, i),
    {
        proof {
            lemma_page_bits(vaddr);
        }
        let i4 = ((vaddr >> 39) & 0x1ff) as usize;
        let i3 = ((vaddr >> 30) & 0x1ff) as usize;
        let i2 = ((vaddr >> 21) & 0x1ff) as usize;
        let i1 = ((vaddr >> 12) & 0x1ff) as usize;
        proof {
            lemma_page_bits(vaddr);
        }
        // The root's last entry maps the kernel, which is not this space's to change.
        if i4 == 511 {
            return false;
        }
        let ghost s0 = *self;
        let ghost m0 = *mem;
        let ghost ok = vaddr < 0x8000_0000_0000 && m0.available().len() >= 3 && (forall|f: u64| #[trigger] m0.available().contains(f)
            ==> !s0.uses_frame(f));
        let r1 = self.get_alloc_pt(0, i4, mem);
        let ghost s1 = *self;
        let ghost m1 = *mem;
        proof {
            if ok {
                assert(r1 is Some && 0 < r1.unwrap());
                assert(m1.available().len() >= 2);
                assert(forall|f: u64| #[trigger] m1.available().contains(f) ==> !s1.uses_frame(f));
            }
        }
        let pdp = match r1 {
            Some(t) => t,
            None => return false,
        };
        if pdp == 0 {
            return false;
        }
        let ghost t1 = self.tables@;
        let r2 = self.get_alloc_pt(pdp, i3, mem);
        let ghost s2 = *self;
        let ghost m2 = *mem;
        proof {
            assert forall|f: u64| #[trigger] s2.uses_frame(f) implies s0.uses_frame(f) || m0.available().contains(f) by {
                if !s1.uses_frame(f) {
                    assert(m1.available().contains(f));
                }
            }
            assert forall|g: u64| #[trigger] m2.available().contains(g) implies m0.available().contains(g) by {
                assert(m1.available().contains(g));
            }
            if ok {
                assert(r2 is Some && pdp < r2.unwrap());
                assert(m2.available().len() >= 1);
                assert(forall|f: u64| #[trigger] m2.available().contains(f) ==> !s2.uses_frame(f));
            }
        }
        let pd = match r2 {
            Some(t) => t,
            None => return false,
        };
        if pd == 0 || pd == pdp {
            return false;
        }
        let ghost t2 = self.tables@;
        let r3 = self.get_alloc_pt(pd, i2, mem);
        let ghost s3 = *self;
        proof {
            assert forall|f: u64| #[trigger] s3.uses_frame(f) implies s0.uses_frame(f) || m0.available().contains(f) by {
                if !s2.uses_frame(f) {
                    assert(m2.available().contains(f));
                }
            }
            assert forall|g: u64| #[trigger] mem.available().contains(g) implies m0.available().contains(g) by {
                assert(m2.available().contains(g));
            }
            if ok {
                assert(r3 is Some && pd < r3.unwrap());
            }
        }
        let pt = match r3 {
            Some(t) => t,
            None => return false,
        };
        if pt == 0 || pt == pdp || pt == pd {
            return false;
        }
        let ghost t3 = self.tables@;
        self.tables[pt].entries.set(i1, pte);
        proof {
            let t4 = self.tables@;
            assert forall|f: u64| table_at(t3, f) is Some implies #[trigger] table_at(t4, f) == table_at(t3, f) by {
                lemma_table_from_extend(t3, t4, f, 0);
            }
            assert forall|f: u64| #[trigger] table_at(t4, f) is Some implies table_at(t3, f) is Some by {
                lemma_table_from_same(t3, t4, f, 0);
            }
            assert forall|f: u64| #[trigger] self.uses_frame(f) implies s0.uses_frame(f) || m0.available().contains(f) by {
                lemma_table_from_same(t3, t4, f, 0);
                assert(s3.uses_frame(f));
            }
            assert forall|t: int, i: int|
                0 <= t < s0.tables@.len() && 0 <= i < 512 && i != pt_index(vaddr, 12) && s0.tables@[t].entries@[i] & 1 != 0
                    implies #[trigger] t4[t].entries@[i] == s0.tables@[t].entries@[i] by {
                assert(s1.tables@[t].entries@[i] == s0.tables@[t].entries@[i]);
                assert(s2.tables@[t].entries@[i] == s1.tables@[t].entries@[i]);
                assert(s3.tables@[t].entries@[i] == s2.tables@[t].entries@[i]);
            }
            assert forall|f: u64| #[trigger] mem.available().contains(f) && !s0.uses_frame(f) && !m0.available().contains(f) implies !self.uses_frame(f) by {
                lemma_table_from_same(t3, t4, f, 0);
            }
            assert forall|t: int, i: int|
                0 <= t < t4.len() && 0 <= i < 512 && !(t == 0 && i == 511) && t4[t].level > 1 && (#[trigger] t4[t].entries@[i])
                    & 1 != 0 implies table_at(t4, t4[t].entries@[i] & !0xfffu64) is Some && t < table_at(t4, t4[t].entries@[i] & !0xfffu64).unwrap()
                && t4[table_at(t4, t4[t].entries@[i] & !0xfffu64).unwrap()].level == t4[t].level - 1 by {
                assert(t != pt);
                assert(t4[t] == t3[t]);
                lemma_table_from_bounds(t3, t3[t].entries@[i] & !0xfffu64, 0);
            }
            let e4 = t1[0].entries@[i4 as int];
            let e3 = t2[pdp as int].entries@[i3 as int];
            let e2 = t3[pd as int].entries@[i2 as int];
            assert(t4[0].entries@[i4 as int] == e4);
            assert(t4[pdp as int].entries@[i3 as int] == e3);
            assert(t4[pd as int].entries@[i2 as int] == e2);
            lemma_table_from_extend(t1, t4, e4 & !0xfffu64, 0);
            lemma_table_from_extend(t2, t4, e3 & !0xfffu64, 0);
            lemma_table_from_extend(t3, t4, e2 & !0xfffu64, 0);
            assert(next_table(t4, 0, vaddr, 39) == Some(pdp as int));
            assert(next_table(t4, pdp as int, vaddr, 30) == Some(pd as int));
            assert(next_table(t4, pd as int, vaddr, 21) == Some(pt as int));
        }
        true
    }

    /// The card that covers `vaddr`, if any.
    pub open spec fn covering_card(&self, vaddr: u64) -> Option<MapCard> {
        match floor_key(self.cards(), vaddr) {
            Some(k) => Some(self.cards()[k]),
            None => None,
        }
    }

    /// The backing at page `vaddr`: the one installed, or a new one made from
    /// the card that covers the page (a zeroed frame for anonymous memory, the
    /// card's physical address for a physical mapping).
    pub fn find_add_backing(&mut self, vaddr: u64, mem: &mut PerCpu) -> (r: Result<Backing, BackingError>)
        requires
            old(self).wf(),
            old(mem).wf(),
            vaddr & 0xfff == 0,
        ensures
            final(self).wf(),
            forall|f: u64| #[trigger] final(self).uses_frame(f) == old(self).uses_frame(f),
            forall|k: u64| #[trigger] final(self).backing_map().contains_key(k) && !old(self).backing_map().contains_key(k)
                ==> final(self).backing_map()[k].parent is None,
            final(mem).wf(),
            forall|g: u64| #[trigger] final(mem).available().contains(g) ==> old(mem).available().contains(g),
            final(mem).available().len() >= old(mem).available().len() - 1,
            final(self).cards() == old(self).cards(),
            final(self).sharing_map() == old(self).sharing_map(),
            final(self).spec_cr3() == old(self).spec_cr3(),
            final(self).spec_kernel_pdp() == old(self).spec_kernel_pdp(),
            forall|v: u64| #[trigger] final(self).translation(v) == old(self).translation(v),
            r matches Ok(b) ==> b.spec_vaddr() == vaddr && final(self).backing_map().contains_key(b.key)
                && final(self).backing_map()[b.key] == b && b.phys & 0xfff == 0,
            r is Err ==> final(self).backing_map() == old(self).backing_map(),
            r matches Ok(b) ==> backing_at(final(self).backing_map(), vaddr) == Some(b),
            backing_at(old(self).backing_map(), vaddr) is None && r is Ok ==> !old(self).backing_map().contains_key(
                r.unwrap().key,
            ),
            match backing_at(old(self).backing_map(), vaddr) {
                Some(b) => r == Ok::<Backing, BackingError>(b) && final(self).backing_map() == old(
                    self,
                ).backing_map() && final(mem).available() == old(mem).available(),
                None => match old(self).covering_card(vaddr) {
                    Some(c) => if needs_frame(c) {
                        &&& (r is Err <==> old(mem).available().len() == 0)
                        &&& r is Err ==> r == Err::<Backing, BackingError>(BackingError::OutOfMemory)
                        &&& r matches Ok(b) ==> {
                            &&& b == new_backing(Some(c), vaddr, b.phys).unwrap()
                            &&& old(mem).available().contains(b.phys)
                            &&& final(self).backing_map() == old(self).backing_map().insert(b.key, b)
                        }
                    } else {
                        &&& r == new_backing(Some(c), vaddr, 0)
                        &&& r matches Ok(b) ==> final(self).backing_map() == old(self).backing_map().insert(b.key, b)
                        &&& final(mem).available() == old(mem).available()
                    },
                    None => r == Err::<Backing, BackingError>(BackingError::NoMapping),
                },
            },
    {
        proof {
            lemma_page_bits(vaddr);
        }
        let found = self.backings.find_const(vaddr | PAGE_MASK);
        match found {
            Some(back) => {
                if back.has_vaddr(vaddr) {
                    return Ok(*back);
                }
            },
            None => {},
        }
        let card = match self.mapcards.find_const(vaddr) {
            Some(c) => *c,
            None => return Err(BackingError::NoMapping),
        };
        let flags = card.flags();
        if flags & RWX == 0 {
            return Err(BackingError::NoAccess);
        }
        if card.handle != 0 {
            return Err(BackingError::UserMapping);
        }
        let b = if flags & DMA == Anon {
            let frame = match mem.alloc_frame() {
                Some(f) => f,
                None => return Err(BackingError::OutOfMemory),
            };
            proof {
                lemma_backing_key(vaddr, flags | Phys);
            }
            Backing { key: vaddr | ((flags | Phys) as u64), phys: frame, parent: None }
        } else if flags & Phys != 0 {
            proof {
                lemma_backing_key(vaddr, flags);
                let off = card.offset;
                assert(vstd::wrapping::u64_specs::wrapping_add(vaddr, off & !0xfffu64) & 0xfff == 0) by (bit_vector)
                    requires
                        vaddr & 0xfff == 0,
                ;
            }
            Backing { key: vaddr | (flags as u64), phys: card.paddr(vaddr), parent: None }
        } else {
            return Err(BackingError::NotAnonOrPhys);
        };
        proof {
            assert((flags | Phys) & Phys != 0) by (bit_vector);
            let f = b.spec_flags();
            lemma_backing_key(vaddr, f);
            assert(b.key == vaddr | (f as u64));
            if self.backings@.contains_key(b.key) {
                match found {
                    Some(back) => {
                        lemma_same_page(vaddr, f, back.key);
                    },
                    None => {
                        lemma_same_page(vaddr, f, b.key);
                    },
                }
            }
        }
        let ghost old_map = self.backings@;
        self.backings.insert(b);
        proof {
            let f = b.spec_flags();
            let m = self.backings@;
            let top = vaddr | 0xfffu64;
            lemma_same_page(vaddr, f, b.key);
            assert forall|k2: u64| #[trigger] m.contains_key(k2) && k2 <= top implies k2 <= b.key by {
                if k2 != b.key {
                    assert(old_map.contains_key(k2));
                    match found {
                        Some(back) => {
                            assert(k2 <= back.key);
                            if k2 > b.key {
                                lemma_same_page(vaddr, f, back.key);
                            }
                        },
                        None => {},
                    }
                }
            }
            assert(is_floor(m, top, b.key));
            lemma_floor_key(m, top, b.key);
        }
        Ok(b)
    }

    /// Makes sure page `vaddr` has a backing and a sharing that other spaces
    /// can attach to, and names that sharing. An existing sharing of the page
    /// is kept, with its observers.
    pub fn share_backing(&mut self, vaddr: u64, me: usize, mem: &mut PerCpu) -> (r: Result<SharingRef, BackingError>)
        requires
            old(self).wf(),
            old(mem).wf(),
            vaddr & 0xfff == 0,
        ensures
            final(self).wf(),
            forall|f: u64| #[trigger] final(self).uses_frame(f) == old(self).uses_frame(f),
            forall|k: u64| #[trigger] final(self).backing_map().contains_key(k) && !old(self).backing_map().contains_key(k)
                ==> final(self).backing_map()[k].parent is None,
            final(mem).wf(),
            forall|g: u64| #[trigger] final(mem).available().contains(g) ==> old(mem).available().contains(g),
            final(mem).available().len() >= old(mem).available().len() - 1,
            final(self).cards() == old(self).cards(),
            final(self).spec_cr3() == old(self).spec_cr3(),
            final(self).spec_kernel_pdp() == old(self).spec_kernel_pdp(),
            forall|v: u64| #[trigger] final(self).translation(v) == old(self).translation(v),
            forall|k: u64| #[trigger] old(self).backing_map().contains_key(k) ==> final(self).backing_map().contains_key(k)
                && final(self).backing_map()[k] == old(self).backing_map()[k],
            r is Err ==> final(self).sharing_map() == old(self).sharing_map(),
            backing_at(old(self).backing_map(), vaddr) is Some ==> r == Ok::<SharingRef, BackingError>(
                SharingRef { aspace: me, vaddr },
            ),
            backing_at(old(self).backing_map(), vaddr) is None ==> (r is Err <==> (new_backing(
                old(self).covering_card(vaddr),
                vaddr,
                0,
            ) is Err || (needs_frame(old(self).covering_card(vaddr).unwrap()) && old(mem).available().len()
                == 0))),
            r matches Ok(sr) ==> {
                &&& sr == (SharingRef { aspace: me, vaddr })
                &&& final(self).sharing_map().contains_key(vaddr)
                &&& forall|k: u64| k != vaddr ==> (#[trigger] final(self).sharing_map().contains_key(k)
                    <==> old(self).sharing_map().contains_key(k))
                &&& forall|k: u64| #[trigger] old(self).sharing_map().contains_key(k) ==> final(self).sharing_map()[k]
                    == old(self).sharing_map()[k]
                &&& !old(self).sharing_map().contains_key(vaddr) ==> {
                    let sh = final(self).sharing_map()[vaddr];
                    &&& sh.vaddr == vaddr
                    &&& sh.aspace == me
                    &&& sh.children@.len() == 0
                    &&& backing_at(final(self).backing_map(), vaddr) is Some
                    &&& sh.paddr == backing_at(final(self).backing_map(), vaddr).unwrap().phys
                }
            },
    {
        let back = match self.find_add_backing(vaddr, mem) {
            Ok(b) => b,
            Err(e) => return Err(e),
        };
        let ghost mid = *self;
        if self.sharings.get(vaddr).is_none() {
            self.sharings.insert(Sharing { vaddr, paddr: back.phys, aspace: me, children: Vec::new() });
            proof {
                assert(self.sharings@ == old(self).sharings@.insert(vaddr, self.sharings@[vaddr]));
            }
        } else {
            assert(self.sharings@ == old(self).sharings@);
        }
        proof {
            assert(self.backing_map().contains_key(back.key) && self.backing_map()[back.key].spec_vaddr() == vaddr
                && self.backing_map()[back.key].phys == back.phys);
            assert forall|v: u64| #[trigger] self.translation(v) == old(self).translation(v) by {
                assert(self.translation(v) == mid.translation(v));
            }
            assert forall|f: u64| #[trigger] self.uses_frame(f) == old(self).uses_frame(f) by {
                assert(self.uses_frame(f) == mid.uses_frame(f));
            }
        }
        Ok(SharingRef { aspace: me, vaddr })
    }

    /// Installs at page `vaddr` a backing with access `prot` on the page that
    /// sharing `share` holds at `paddr`.
    pub fn add_shared_backing(&mut self, vaddr: u64, prot: MapFlag, share: SharingRef, paddr: u64) -> (r: Result<
        Backing,
        BackingError,
    >)
        requires
            old(self).wf(),
            vaddr & 0xfff == 0,
            paddr & 0xfff == 0,
        ensures
            final(self).wf(),
            forall|f: u64| #[trigger] final(self).uses_frame(f) == old(self).uses_frame(f),
            final(self).cards() == old(self).cards(),
            final(self).sharing_map() == old(self).sharing_map(),
            final(self).spec_cr3() == old(self).spec_cr3(),
            final(self).spec_kernel_pdp() == old(self).spec_kernel_pdp(),
            forall|v: u64| #[trigger] final(self).translation(v) == old(self).translation(v),
            backing_at(old(self).backing_map(), vaddr) is Some ==> r == Err::<Backing, BackingError>(
                BackingError::AlreadyBacked,
            ) && final(self).backing_map() == old(self).backing_map(),
            backing_at(old(self).backing_map(), vaddr) is None ==> {
                let b = Backing { key: vaddr | (prot as u64), phys: paddr, parent: Some(share) };
                &&& r == Ok::<Backing, BackingError>(b)
                &&& final(self).backing_map() == old(self).backing_map().insert(b.key, b)
                &&& !old(self).backing_map().contains_key(b.key)
                &&& b.spec_vaddr() == vaddr
            },
    {
        proof {
            lemma_page_bits(vaddr);
            lemma_backing_key(vaddr, prot);
        }
        let found = self.backings.find_const(vaddr | PAGE_MASK);
        match found {
            Some(back) => {
                if back.has_vaddr(vaddr) {
                    return Err(BackingError::AlreadyBacked);
                }
            },
            None => {},
        }
        let b = Backing { key: vaddr | (prot as u64), phys: paddr, parent: Some(share) };
        proof {
            if self.backings@.contains_key(b.key) {
                match found {
                    Some(back) => {
                        lemma_same_page(vaddr, prot, back.key);
                    },
                    None => {
                        lemma_same_page(vaddr, prot, b.key);
                    },
                }
            }
        }
        self.backings.insert(b);
        Ok(b)
    }

    /// Records `child` as an observer of the sharing at `share_vaddr`. False
    /// when this space holds no such sharing.
    pub fn add_sharing_child(&mut self, share_vaddr: u64, child: BackingRef) -> (r: bool)
        requires
            old(self).wf(),
        ensures
            final(self).wf(),
            forall|f: u64| #[trigger] final(self).uses_frame(f) == old(self).uses_frame(f),
            r == old(self).sharing_map().contains_key(share_vaddr),
            final(self).cards() == old(self).cards(),
            final(self).backing_map() == old(self).backing_map(),
            final(self).spec_cr3() == old(self).spec_cr3(),
            final(self).spec_kernel_pdp() == old(self).spec_kernel_pdp(),
            forall|v: u64| #[trigger] final(self).translation(v) == old(self).translation(v),
            final(self).sharing_map().dom() == old(self).sharing_map().dom(),
            forall|k: u64| k != share_vaddr && #[trigger] old(self).sharing_map().contains_key(k) ==> final(self).sharing_map()[k]
                == old(self).sharing_map()[k],
            r ==> {
                let o = old(self).sharing_map()[share_vaddr];
                let n = final(self).sharing_map()[share_vaddr];
                &&& n.vaddr == o.vaddr
                &&& n.paddr == o.paddr
                &&& n.aspace == o.aspace
                &&& n.children@ == o.children@.push(child)
            },
            !r ==> final(self).sharing_map() == old(self).sharing_map(),
    {
        match self.sharings.take(share_vaddr) {
            Some(sh) => {
                let mut sh = sh;
                sh.children.push(child);
                self.sharings.insert(sh);
                proof {
                    old(self).sharings.lemma_keys();
                    assert(self.sharings@.dom() =~= old(self).sharings@.dom());
                }
                true
            },
            None => false,
        }
    }

    /// The physical page of the sharing at `vaddr`.
    pub fn sharing_paddr(&self, vaddr: u64) -> (r: Option<u64>)
        requires
            self.wf(),
        ensures
            r matches Some(pa) ==> self.sharing_map().contains_key(vaddr) && self.sharing_map()[vaddr].paddr == pa
                && pa & 0xfff == 0,
            r is None ==> !self.sharing_map().contains_key(vaddr),
    {
        match self.sharings.get(vaddr) {
            Some(s) => Some(s.paddr),
            None => None,
        }
    }

    /// The table that entry `index` of table `t` points to, if present.
    fn next(&self, t: usize, index: usize) -> (r: Option<usize>)
        requires
            self.wf(),
            t < self.tables@.len(),
            index < 512,
        ensures
            ({
                let e = self.tables@[t as int].entries@[index as int];
                let expect = if e & 1 == 0 { None } else { table_at(self.tables@, e & !0xfffu64) };
                &&& r matches Some(c) ==> expect == Some(c as int) && c < self.tables@.len()
                &&& r is None ==> expect is None
            }),
    {
        let e = self.tables[t].entries[index];
        if e & 1 == 0 {
            None
        } else {
            proof {
                lemma_table_from_bounds(self.tables@, e & !0xfffu64, 0);
            }
            self.find_table(e & !PAGE_MASK)
        }
    }

    /// The last-level page-table entry for `vaddr`, walking the tables.
    pub fn lookup_pte(&self, vaddr: u64) -> (r: Option<u64>)
        requires
            self.wf(),
        ensures
            r == self.translation(vaddr),
    {
        proof {
            lemma_page_bits(vaddr);
        }
        let pdp = match self.next(0, ((vaddr >> 39) & 0x1ff) as usize) {
            Some(t) => t,
            None => return None,
        };
        let pd = match self.next(pdp, ((vaddr >> 30) & 0x1ff) as usize) {
            Some(t) => t,
            None => return None,
        };
        let pt = match self.next(pd, ((vaddr >> 21) & 0x1ff) as usize) {
            Some(t) => t,
            None => return None,
        };
        Some(self.tables[pt].entries[((vaddr >> 12) & 0x1ff) as usize])
    }

    /// The backing installed at page `vaddr`, if any.
    pub fn find_backing(&self, vaddr: u64) -> (r: Option<Backing>)
        requires
            self.wf(),
            vaddr & 0xfff == 0,
        ensures
            r == backing_at(self.backing_map(), vaddr),
            r matches Some(b) ==> b.phys & 0xfff == 0,
    {
        proof {
            lemma_page_bits(vaddr);
        }
        match self.backings.find_const(vaddr | PAGE_MASK) {
            Some(b) => {
                if b.has_vaddr(vaddr) {
                    Some(*b)
                } else {
                    None
                }
            },
            None => None,
        }
    }
}

} // verus!
