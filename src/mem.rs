//! The physical frame allocator: a global stock of 4 KiB frames and a
//! per-CPU cache in front of it. Frames are named by their physical address.
use vstd::prelude::*;
use crate::con::{Console, formatted, lemma_put_all_concat, put_all};
use crate::mboot::{Info, InfoFlags, MemoryMapItem, MemoryTypeMemory};
use vstd::string::StringSliceAdditionalSpecFns;

verus! {

pub const PAGE_SIZE: u64 = 4096;

/// A frame the allocator can hand out: page-aligned, and not physical page 0,
/// which stands for "no frame".
pub open spec fn good_frame(f: u64) -> bool {
    f & 0xfff == 0 && f != 0
}

/// `f` is a whole, page-aligned frame of the usable-RAM range `item`, inside
/// `[min, max)`, and not page 0.
pub open spec fn frame_of_item(item: MemoryMapItem, min: u64, max: u64, f: u64) -> bool {
    &&& good_frame(f)
    &&& item.item_type == MemoryTypeMemory
    &&& item.start <= f
    &&& (f - item.start) % 4096 == 0
    &&& f + 4096 <= item.start + item.length
    &&& min <= f < max
}

/// `f` is a frame that the memory map donates to the allocator.
pub open spec fn donated(mmap: Seq<MemoryMapItem>, min: u64, max: u64, f: u64) -> bool {
    exists|j: int| 0 <= j < mmap.len() && frame_of_item(#[trigger] mmap[j], min, max, f)
}

proof fn lemma_item_closed(
    garbage: Seq<u64>,
    mmap: Seq<MemoryMapItem>,
    i: int,
    item: MemoryMapItem,
    min: u64,
    max: u64,
    off: u64,
)
    requires
        0 <= i < mmap.len(),
        item == mmap[i],
        off > mmap[i].length || mmap[i].length - off < 4096 || off > u64::MAX - mmap[i].start,
        forall|f: u64| #[trigger]
            garbage.contains(f) <==> donated_before(mmap, i, min, max, f) || (frame_of_item(
                item,
                min,
                max,
                f,
            ) && f - item.start < off),
    ensures
        forall|f: u64| #[trigger] garbage.contains(f) <==> donated_before(mmap, i + 1, min, max, f),
{
    assert forall|f: u64| #[trigger] garbage.contains(f) <==> donated_before(mmap, i + 1, min, max, f) by {
        if donated_before(mmap, i + 1, min, max, f) {
            let j = choose|j: int| 0 <= j < i + 1 && frame_of_item(#[trigger] mmap[j], min, max, f);
            if j == i {
                assert(f - mmap[i].start < off);
            } else {
                assert(donated_before(mmap, i, min, max, f));
            }
        }
        if donated_before(mmap, i, min, max, f) {
            let j = choose|j: int| 0 <= j < i && frame_of_item(#[trigger] mmap[j], min, max, f);
            assert(0 <= j < i + 1 && frame_of_item(mmap[j], min, max, f));
        }
    }
}

/// `f` is donated by one of the first `i` items of `mmap`.
pub open spec fn donated_before(mmap: Seq<MemoryMapItem>, i: int, min: u64, max: u64, f: u64) -> bool {
    exists|j: int| 0 <= j < i && frame_of_item(#[trigger] mmap[j], min, max, f)
}

/// The line that `Global::stat` writes for `free` free and `used` used frames.
pub open spec fn stat_text(free: nat, used: nat) -> Seq<u8> {
    "Free: ".spec_bytes() + formatted(0, false, 10, false, ((free * 4) % 0x1_0000_0000_0000_0000) as nat)
        + "KiB, Used: ".spec_bytes() + formatted(0, false, 10, false, ((used * 4) % 0x1_0000_0000_0000_0000) as nat)
        + "KiB\n".spec_bytes()
}

/// Whether `f` is one of `v`.
fn contains_frame(v: &Vec<u64>, f: u64) -> (r: bool)
    ensures
        r == v@.contains(f),
{
    let mut i: usize = 0;
    while i < v.len()
        invariant
            i <= v@.len(),
            forall|j: int| 0 <= j < i ==> v@[j] != f,
        decreases v@.len() - i,
    {
        if v[i] == f {
            return true;
        }
        i = i + 1;
    }
    false
}

/// Appending a new frame keeps a list free of repeats.
proof fn lemma_push_no_dup(s: Seq<u64>, x: u64)
    requires
        s.no_duplicates(),
        !s.contains(x),
    ensures
        s.push(x).no_duplicates(),
{
    let t = s.push(x);
    assert forall|i: int, j: int| 0 <= i < t.len() && 0 <= j < t.len() && i != j implies t[i] != t[j] by {
        if i < s.len() && j < s.len() {
            assert(t[i] == s[i] && t[j] == s[j]);
        } else if i < s.len() {
            assert(t[i] == s[i]);
        } else if j < s.len() {
            assert(t[j] == s[j]);
        }
    }
}

/// Taking one frame out of a list free of repeats leaves it free of repeats
/// and without that frame.
proof fn lemma_remove_no_dup(s: Seq<u64>, k: int)
    requires
        s.no_duplicates(),
        0 <= k < s.len(),
    ensures
        s.remove(k).no_duplicates(),
        !s.remove(k).contains(s[k]),
{
    let r = s.remove(k);
    assert forall|i: int, j: int| 0 <= i < r.len() && 0 <= j < r.len() && i != j implies r[i] != r[j] by {
        let i2 = if i < k { i } else { i + 1 };
        let j2 = if j < k { j } else { j + 1 };
        assert(r[i] == s[i2] && r[j] == s[j2]);
    }
    if r.contains(s[k]) {
        let i = choose|i: int| 0 <= i < r.len() && r[i] == s[k];
        let i2 = if i < k { i } else { i + 1 };
        assert(r[i] == s[i2]);
    }
}

/// The global stock of frames.
pub struct Global {
    /// Frames returned since they were handed out; zeroed when handed out again.
    garbage: Vec<u64>,
    /// Frames known to hold zeroes.
    free: Vec<u64>,
    num_used: usize,
    num_total: usize,
}

impl Global {
    /// Every frame is either in stock or counted as used.
    pub closed spec fn wf(&self) -> bool {
        &&& self.num_used + self.free@.len() + self.garbage@.len() == self.num_total
        &&& (self.free@ + self.garbage@).no_duplicates()
        &&& forall|k: int| 0 <= k < self.free@.len() ==> good_frame(#[trigger] self.free@[k])
        &&& forall|k: int| 0 <= k < self.garbage@.len() ==> good_frame(#[trigger] self.garbage@[k])
    }

    /// Frames known to be zero, handed out first, newest first.
    pub closed spec fn zeroed(&self) -> Seq<u64> {
        self.free@
    }

    /// Frames taken back, handed out (and zeroed) when no zero frame is left,
    /// newest first.
    pub closed spec fn returned(&self) -> Seq<u64> {
        self.garbage@
    }

    /// The frames in stock.
    pub closed spec fn stock(&self) -> Seq<u64> {
        self.free@ + self.garbage@
    }

    pub closed spec fn spec_used(&self) -> nat {
        self.num_used as nat
    }

    pub closed spec fn spec_total(&self) -> nat {
        self.num_total as nat
    }

    pub fn new() -> (g: Global)
        ensures
            g.wf(),
            g.stock() == Seq::<u64>::empty(),
            g.spec_used() == 0,
            g.spec_total() == 0,
    {
        let g = Global { garbage: Vec::new(), free: Vec::new(), num_used: 0, num_total: 0 };
        assert(g.stock() =~= Seq::<u64>::empty());
        g
    }

    /// Donates every whole frame of usable RAM in `mmap` that lies in
    /// `[min_addr, max_addr)`. Nothing is donated unless `info` announces a
    /// memory map.
    pub fn init(&mut self, info: &Info, mmap: &Vec<MemoryMapItem>, min_addr: u64, max_addr: u64)
        requires
            old(self).wf(),
            old(self).stock() == Seq::<u64>::empty(),
            old(self).spec_used() == 0,
        ensures
            final(self).wf(),
            final(self).spec_used() == 0,
            final(self).spec_total() == final(self).stock().len(),
            info.flags & InfoFlags::MemoryMap.spec_bits() == 0 ==> final(self).stock() == Seq::<u64>::empty(),
            info.flags & InfoFlags::MemoryMap.spec_bits() != 0 ==> forall|f: u64|
                final(self).stock().contains(f) <==> donated(mmap@, min_addr, max_addr, f),
    {
        if !info.has(InfoFlags::MemoryMap) {
            return;
        }
        let mut i: usize = 0;
        while i < mmap.len()
            invariant
                i <= mmap@.len(),
                self.free@ == Seq::<u64>::empty(),
                self.num_used == 0,
                self.num_total == 0,
                forall|k: int| 0 <= k < self.garbage@.len() ==> good_frame(#[trigger] self.garbage@[k]),
                self.garbage@.no_duplicates(),
                forall|f: u64| #[trigger] self.garbage@.contains(f) <==> donated_before(mmap@, i as int, min_addr, max_addr, f),
            decreases mmap@.len() - i,
        {
            let item = mmap[i];
            if item.item_type == MemoryTypeMemory {
                let mut off: u64 = 0;
                loop
                    invariant
                        i < mmap@.len(),
                        item == mmap@[i as int],
                        item.item_type == MemoryTypeMemory,
                        off % 4096 == 0,
                        self.free@ == Seq::<u64>::empty(),
                        self.num_used == 0,
                        self.num_total == 0,
                        forall|k: int| 0 <= k < self.garbage@.len() ==> good_frame(#[trigger] self.garbage@[k]),
                        self.garbage@.no_duplicates(),
                        forall|f: u64| #[trigger] self.garbage@.contains(f) <==> donated_before(mmap@, i as int, min_addr, max_addr, f) || (
                            frame_of_item(item, min_addr, max_addr, f) && f - item.start < off),
                    ensures
                        forall|f: u64| #[trigger] self.garbage@.contains(f) <==> donated_before(mmap@, i + 1, min_addr, max_addr, f),
                    decreases item.length - off,
                {
                    if off > item.length || item.length - off < PAGE_SIZE || off > u64::MAX - item.start {
                        proof {
                            lemma_item_closed(self.garbage@, mmap@, i as int, item, min_addr, max_addr, off);
                        }
                        break;
                    }
                    let p = item.start + off;
                    let ghost g0 = self.garbage@;
                    let mut pushed = false;
                    // A frame that overlapping ranges name twice is donated once.
                    if min_addr <= p && p < max_addr && p & 0xfff == 0 && p != 0 && !contains_frame(&self.garbage, p) {
                        proof {
                            lemma_push_no_dup(self.garbage@, p);
                        }
                        self.garbage.push(p);
                        pushed = true;
                    }
                    proof {
                        assert forall|f: u64|
                            self.garbage@.contains(f) <==> (g0.contains(f) || (min_addr <= p < max_addr && good_frame(p)
                                && f == p)) by {
                            if pushed {
                                if self.garbage@.contains(f) && !(min_addr <= p < max_addr && good_frame(p) && f == p) {
                                    let k = choose|k: int| 0 <= k < self.garbage@.len() && self.garbage@[k] == f;
                                    assert(g0[k] == f);
                                }
                                if g0.contains(f) {
                                    let k = choose|k: int| 0 <= k < g0.len() && g0[k] == f;
                                    assert(self.garbage@[k] == f);
                                }
                                if min_addr <= p < max_addr && good_frame(p) && f == p {
                                    assert(self.garbage@[self.garbage@.len() - 1] == f);
                                }
                            }
                        }
                        assert forall|f: u64| #[trigger] self.garbage@.contains(f) <==> donated_before(mmap@, i as int, min_addr, max_addr, f) || (
                            frame_of_item(item, min_addr, max_addr, f) && f - item.start < off + 4096) by {
                            assert(g0.contains(f) <==> donated_before(mmap@, i as int, min_addr, max_addr, f) || (
                                frame_of_item(item, min_addr, max_addr, f) && f - item.start < off));
                            assert(self.garbage@.contains(f) <==> (g0.contains(f) || (min_addr <= p < max_addr && good_frame(p) && f == p)));
                            if f == p && min_addr <= p < max_addr && good_frame(p) {
                                assert(p - item.start == off);
                                assert(frame_of_item(item, min_addr, max_addr, f));
                            }
                            if frame_of_item(item, min_addr, max_addr, f) && f - item.start < off + 4096 && f - item.start >= off {
                                let d = f - item.start;
                                assert(d == off) by (nonlinear_arith)
                                    requires
                                        d % 4096 == 0,
                                        off % 4096 == 0,
                                        off <= d < off + 4096,
                                ;
                            }
                        }
                    }
                    off = off + PAGE_SIZE;
                }
            } else {
                proof {
                    assert forall|f: u64| #[trigger] self.garbage@.contains(f) <==> donated_before(mmap@, i + 1, min_addr, max_addr, f) by {
                        if donated_before(mmap@, i + 1, min_addr, max_addr, f) {
                            let j = choose|j: int| 0 <= j < i + 1 && frame_of_item(#[trigger] mmap@[j], min_addr, max_addr, f);
                            assert(j != i);
                            assert(donated_before(mmap@, i as int, min_addr, max_addr, f));
                        }
                        if donated_before(mmap@, i as int, min_addr, max_addr, f) {
                            let j = choose|j: int| 0 <= j < i && frame_of_item(#[trigger] mmap@[j], min_addr, max_addr, f);
                            assert(0 <= j < i + 1 && frame_of_item(mmap@[j], min_addr, max_addr, f));
                        }
                    }
                }
            }
            i = i + 1;
        }
        self.num_total = self.garbage.len();
        proof {
            assert(self.stock() =~= self.garbage@);
            assert forall|f: u64| self.stock().contains(f) <==> donated(mmap@, min_addr, max_addr, f) by {
                assert(self.garbage@.contains(f) <==> donated_before(mmap@, mmap@.len() as int, min_addr, max_addr, f));
            }
        }
    }
}

impl Global {
    /// Takes a frame back into stock.
    pub fn free_frame(&mut self, frame: u64)
        requires
            old(self).wf(),
            old(self).spec_used() > 0,
            good_frame(frame),
            !old(self).stock().contains(frame),
        ensures
            final(self).wf(),
            final(self).stock() == old(self).stock().push(frame),
            final(self).returned() == old(self).returned().push(frame),
            final(self).zeroed() == old(self).zeroed(),
            final(self).spec_used() == old(self).spec_used() - 1,
            final(self).spec_total() == old(self).spec_total(),
    {
        proof {
            lemma_push_no_dup(old(self).stock(), frame);
        }
        self.num_used = self.num_used - 1;
        self.garbage.push(frame);
        assert(self.stock() =~= old(self).stock().push(frame));
    }

    /// Hands out a zero-filled frame: one known to be zero if there is one,
    /// else one that was returned. None when the stock is empty.
    pub fn alloc_frame(&mut self) -> (r: Option<u64>)
        requires
            old(self).wf(),
        ensures
            final(self).wf(),
            final(self).spec_total() == old(self).spec_total(),
            old(self).zeroed().len() > 0 ==> r == Some(old(self).zeroed().last()) && final(self).zeroed()
                == old(self).zeroed().drop_last() && final(self).returned() == old(self).returned(),
            old(self).zeroed().len() == 0 && old(self).returned().len() > 0 ==> r == Some(old(self).returned().last())
                && final(self).returned() == old(self).returned().drop_last() && final(self).zeroed() == old(self).zeroed(),
            match r {
                Some(f) => {
                    &&& good_frame(f)
                    &&& old(self).stock().len() > 0
                    &&& old(self).stock().contains(f)
                    &&& !final(self).stock().contains(f)
                    &&& final(self).stock().len() == old(self).stock().len() - 1
                    &&& forall|g: u64| #[trigger] final(self).stock().contains(g) ==> old(self).stock().contains(g)
                    &&& final(self).spec_used() == old(self).spec_used() + 1
                },
                None => {
                    &&& old(self).stock().len() == 0
                    &&& final(self).stock() == old(self).stock()
                    &&& final(self).spec_used() == old(self).spec_used()
                },
            },
    {
        let ghost st = self.stock();
        match self.free.pop() {
            Some(page) => {
                self.num_used = self.num_used + 1;
                proof {
                    assert(st[self.free@.len() as int] == page);
                    assert(self.stock() =~= st.remove(self.free@.len() as int));
                    lemma_remove_no_dup(st, self.free@.len() as int);
                    assert forall|g: u64| #[trigger] self.stock().contains(g) implies st.contains(g) by {
                        let k = choose|k: int| 0 <= k < self.stock().len() && self.stock()[k] == g;
                        if k < self.free@.len() {
                            assert(st[k] == g);
                        } else {
                            assert(st[k + 1] == g);
                        }
                    }
                }
                Some(page)
            },
            None => match self.garbage.pop() {
                Some(page) => {
                    self.num_used = self.num_used + 1;
                    proof {
                        assert(st =~= old(self).garbage@);
                        assert(self.stock() =~= self.garbage@);
                        assert(st[self.garbage@.len() as int] == page);
                        assert(self.stock() =~= st.remove(self.garbage@.len() as int));
                        lemma_remove_no_dup(st, self.garbage@.len() as int);
                        assert forall|g: u64| #[trigger] self.stock().contains(g) implies st.contains(g) by {
                            let k = choose|k: int| 0 <= k < self.stock().len() && self.stock()[k] == g;
                            assert(st[k] == g);
                        }
                    }
                    Some(page)
                },
                None => None,
            },
        }
    }

    pub fn free_pages(&self) -> (r: usize)
        requires
            self.wf(),
        ensures
            r == self.spec_total() - self.spec_used(),
            r == self.stock().len(),
    {
        self.num_total - self.num_used
    }

    /// Writes "Free: <n>KiB, Used: <m>KiB" and a newline.
    pub fn stat(&self, con: &mut Console)
        requires
            self.wf(),
            old(con).wf(),
        ensures
            final(con).wf(),
            (final(con).cells(), final(con).spec_position()) == put_all(old(con).cells(), old(con).spec_position(), old(con).color,
                stat_text((self.spec_total() - self.spec_used()) as nat, self.spec_used())),
    {
        let free = self.free_pages() as u64;
        let used = self.used_pages() as u64;
        let ghost c0 = *con;
        con.write("Free: ");
        let ghost c1 = *con;
        con.writeUInt(free.wrapping_mul(4));
        let ghost c2 = *con;
        con.write("KiB, Used: ");
        let ghost c3 = *con;
        con.writeUInt(used.wrapping_mul(4));
        let ghost c4 = *con;
        con.write("KiB\n");
        proof {
            reveal_strlit("Free: ");
            reveal_strlit("KiB, Used: ");
            reveal_strlit("KiB\n");
            let col = c0.color;
            let a = "Free: ".spec_bytes();
            let b = formatted(0, false, 10, false, free.wrapping_mul(4) as nat);
            let c = "KiB, Used: ".spec_bytes();
            let d = formatted(0, false, 10, false, used.wrapping_mul(4) as nat);
            let e = "KiB\n".spec_bytes();
            lemma_put_all_concat(c0.cells(), c0.spec_position(), col, a, b);
            lemma_put_all_concat(c0.cells(), c0.spec_position(), col, a + b, c);
            lemma_put_all_concat(c0.cells(), c0.spec_position(), col, a + b + c, d);
            lemma_put_all_concat(c0.cells(), c0.spec_position(), col, a + b + c + d, e);
        }
    }

    pub fn used_pages(&self) -> (r: usize)
        ensures
            r == self.spec_used(),
    {
        self.num_used
    }
}

/// The per-CPU frame cache, in front of the global stock.
pub struct PerCpu {
    free: Vec<u64>,
    global: Global,
}

impl PerCpu {
    /// The cached frames are counted as used by the global stock.
    pub closed spec fn wf(&self) -> bool {
        &&& self.global.wf()
        &&& self.global.spec_used() >= self.free@.len()
        &&& forall|k: int| 0 <= k < self.free@.len() ==> good_frame(#[trigger] self.free@[k])
        &&& (self.free@ + self.global.stock()).no_duplicates()
    }

    /// How many frames this CPU has handed out and not taken back.
    pub closed spec fn handed(&self) -> int {
        self.global.spec_used() - self.free@.len()
    }

    /// The frames in the global stock.
    pub closed spec fn stocked(&self) -> Seq<u64> {
        self.global.stock()
    }

    /// How many frames are handed out.
    pub closed spec fn used(&self) -> nat {
        self.global.spec_used()
    }

    /// The frames held in the cache.
    pub closed spec fn cached(&self) -> Seq<u64> {
        self.free@
    }

    /// Every frame this allocator can still hand out.
    pub closed spec fn available(&self) -> Seq<u64> {
        self.free@ + self.global.stock()
    }

    pub fn new(global: Global) -> (p: PerCpu)
        requires
            global.wf(),
        ensures
            p.wf(),
            p.available() == global.stock(),
            p.handed() == global.spec_used(),
    {
        let p = PerCpu { free: Vec::new(), global };
        assert(p.available() =~= global.stock());
        p
    }

    /// A frame from the cache, else one from the global stock.
    pub fn alloc_frame_(&mut self) -> (r: Option<u64>)
        requires
            old(self).wf(),
        ensures
            final(self).wf(),
            r matches Some(f) ==> good_frame(f) && !final(self).available().contains(f),
            r is Some ==> final(self).handed() == old(self).handed() + 1,
            r is None ==> final(self).handed() == old(self).handed(),
            r is None <==> old(self).available().len() == 0,
            r is None ==> final(self).available() == old(self).available(),
            r matches Some(f) ==> old(self).available().contains(f) && final(self).available().len()
                == old(self).available().len() - 1 && forall|g: u64| #[trigger]
                final(self).available().contains(g) ==> old(self).available().contains(g),
    {
        let ghost av = self.available();
        match self.free.pop() {
            Some(page) => {
                proof {
                    assert(av[self.free@.len() as int] == page);
                    assert(self.available() =~= av.remove(self.free@.len() as int));
                    lemma_remove_no_dup(av, self.free@.len() as int);
                    assert forall|g: u64| #[trigger] self.available().contains(g) implies av.contains(g) by {
                        let k = choose|k: int| 0 <= k < self.available().len() && self.available()[k] == g;
                        if k < self.free@.len() {
                            assert(av[k] == g);
                        } else {
                            assert(av[k + 1] == g);
                        }
                    }
                }
                Some(page)
            },
            None => {
                proof {
                    assert(av =~= self.global.stock());
                }
                let r = self.steal_frame();
                proof {
                    assert(self.available() =~= self.global.stock());
                }
                r
            },
        }
    }

    /// A frame straight from the global stock.
    pub fn steal_frame(&mut self) -> (r: Option<u64>)
        requires
            old(self).wf(),
        ensures
            final(self).wf(),
            r matches Some(f) ==> good_frame(f) && !final(self).available().contains(f),
            r is Some ==> final(self).handed() == old(self).handed() + 1,
            r is None ==> final(self).handed() == old(self).handed(),
            final(self).cached() == old(self).cached(),
            r is None <==> old(self).stocked().len() == 0,
            r is None ==> final(self).stocked() == old(self).stocked(),
            r matches Some(f) ==> old(self).stocked().contains(f) && final(self).stocked().len()
                == old(self).stocked().len() - 1 && forall|g: u64| #[trigger]
                final(self).stocked().contains(g) ==> old(self).stocked().contains(g),
    {
        let ghost av = self.available();
        let ghost zl = self.global.zeroed().len();
        let ghost gl = self.global.returned().len();
        let r = self.global.alloc_frame();
        proof {
            if r is Some {
                let k = if zl > 0 { self.free@.len() + zl - 1 } else { self.free@.len() + gl - 1 };
                assert(self.available() =~= av.remove(k));
                assert(av[k] == r.unwrap());
                lemma_remove_no_dup(av, k);
            } else {
                assert(self.available() =~= av);
            }
        }
        r
    }

    /// A frame, or None when memory is exhausted.
    pub fn alloc_frame(&mut self) -> (r: Option<u64>)
        requires
            old(self).wf(),
        ensures
            final(self).wf(),
            r matches Some(f) ==> good_frame(f) && !final(self).available().contains(f),
            r is Some ==> final(self).handed() == old(self).handed() + 1,
            r is None ==> final(self).handed() == old(self).handed(),
            r is None <==> old(self).available().len() == 0,
            r is None ==> final(self).available() == old(self).available(),
            r matches Some(f) ==> old(self).available().contains(f) && final(self).available().len()
                == old(self).available().len() - 1 && forall|g: u64| #[trigger]
                final(self).available().contains(g) ==> old(self).available().contains(g),
    {
        self.alloc_frame_()
    }

    /// Returns a frame to the global stock.
    pub fn free_frame(&mut self, frame: u64)
        requires
            old(self).wf(),
            old(self).handed() > 0,
            good_frame(frame),
            !old(self).available().contains(frame),
        ensures
            final(self).wf(),
            final(self).available() == old(self).available().push(frame),
            final(self).handed() == old(self).handed() - 1,
    {
        proof {
            assert(!self.global.stock().contains(frame)) by {
                if self.global.stock().contains(frame) {
                    let k = choose|k: int| 0 <= k < self.global.stock().len() && self.global.stock()[k] == frame;
                    assert(self.available()[self.free@.len() + k] == frame);
                }
            }
            lemma_push_no_dup(old(self).available(), frame);
        }
        self.global.free_frame(frame);
        assert(self.available() =~= old(self).available().push(frame));
    }

    /// Takes every frame there is, then gives them all back; returns how
    /// many there were.
    pub fn test(&mut self) -> (count: usize)
        requires
            old(self).wf(),
        ensures
            final(self).wf(),
            count == old(self).available().len(),
            final(self).available().len() == old(self).available().len(),
            final(self).handed() == old(self).handed(),
    {
        let mut held: Vec<u64> = Vec::new();
        loop
            invariant
                self.wf(),
                held@.len() + self.available().len() == old(self).available().len(),
                self.handed() == old(self).handed() + held@.len(),
                forall|k: int| 0 <= k < held@.len() ==> good_frame(#[trigger] held@[k]),
                held@.no_duplicates(),
                forall|k: int| 0 <= k < held@.len() ==> !self.available().contains(#[trigger] held@[k]),
            ensures
                self.available().len() == 0,
            decreases self.available().len(),
        {
            let ghost av0 = self.available();
            match self.alloc_frame_() {
                Some(p) => {
                    proof {
                        assert(!held@.contains(p)) by {
                            if held@.contains(p) {
                                let k = choose|k: int| 0 <= k < held@.len() && held@[k] == p;
                                assert(!av0.contains(held@[k]));
                            }
                        }
                        lemma_push_no_dup(held@, p);
                    }
                    held.push(p);
                },
                None => break,
            }
        }
        let count = held.len();
        while held.len() > 0
            invariant
                self.wf(),
                held@.len() + self.available().len() == old(self).available().len(),
                self.handed() == old(self).handed() + held@.len(),
                old(self).handed() >= 0,
                forall|k: int| 0 <= k < held@.len() ==> good_frame(#[trigger] held@[k]),
                held@.no_duplicates(),
                forall|k: int| 0 <= k < held@.len() ==> !self.available().contains(#[trigger] held@[k]),
            decreases held@.len(),
        {
            let ghost h0 = held@;
            let p = held.pop().unwrap();
            proof {
                assert(h0[h0.len() - 1] == p);
                assert(held@ =~= h0.remove(h0.len() - 1));
                lemma_remove_no_dup(h0, h0.len() - 1);
            }
            self.free_frame(p);
        }
        count
    }
}

} // verus!
