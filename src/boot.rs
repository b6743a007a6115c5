//! Bringing the system up: an empty kernel, one process per boot module,
//! and a handle between every two of them.
use vstd::prelude::*;
use crate::aspace::{AddressSpace, MapCard};
use crate::con::Console;
use crate::dlist::DList;
use crate::kernel::{Kernel, PerCpu, lemma_handle_from_bounds};
use crate::mapflag::{Anon, Phys, R, W, X};
use crate::mboot::{Info, InfoFlags, Module};
use crate::mem;
use crate::process::{FlagBit, Handle, Process};

verus! {

/// Where a boot module's image is mapped, and the top of its stack.
pub const IMAGE_BASE: u64 = 0x100000;

/// The cards that `new_proc_simple` gives a module at `[start, end)`.
pub open spec fn module_cards(start: u32, end: u32) -> Map<u64, MapCard> {
    let end_page = ((end as u64 + 0xfff) as u64) & !0xfffu64;
    let start_page = (start as u64) & !0xfffu64;
    let top = vstd::wrapping::u64_specs::wrapping_add(
        0x100000,
        vstd::wrapping::u64_specs::wrapping_sub(end_page, start_page),
    );
    Map::<u64, MapCard>::empty().insert(
        0x0ff000,
        MapCard { key: 0x0ff000, handle: 0, offset: 0 | ((Anon | R | W) as u64) },
    ).insert(
        0x100000,
        MapCard {
            key: 0x100000,
            handle: 0,
            offset: vstd::wrapping::u64_specs::wrapping_sub(start_page, 0x100000) | ((Phys | R | X) as u64),
        },
    ).insert(top, MapCard { key: top, handle: 0, offset: 0 | (0u8 as u64) })
}

/// The handles for every pair among `n` modules fit the handle table.
pub open spec fn pairs_fit(n: int) -> bool {
    2 * (n * n) + 2 < usize::MAX
}

impl Kernel {
    /// Process `k` was started from boot module `k` of `modules`: stack at
    /// 1 MiB, entry at the image's first byte, the module's cards.
    pub open spec fn image_ok(&self, modules: Seq<Module>, k: int) -> bool {
        let pr = self.procs@[k];
        &&& pr.regs.rsp == IMAGE_BASE
        &&& pr.rip == IMAGE_BASE + (modules[k].start & 0xfff) as u64
        &&& pr.aspace < self.spaces@.len()
        &&& self.spaces@[pr.aspace as int].cards() == module_cards(modules[k].start, modules[k].end)
    }

    /// Processes `x < y` hold paired handles to each other: `x` under id
    /// `y + 1`, `y` under id `x + 1`.
    pub open spec fn modules_paired(&self, x: int, y: int) -> bool {
        match (self.spec_find_handle(x as usize, (y + 1) as u64), self.spec_find_handle(y as usize, (x + 1) as u64)) {
            (Some(hx), Some(hy)) => {
                &&& self.handles@[hx].process == y
                &&& self.handles@[hy].process == x
                &&& self.handles@[hx].other == Some(hy as usize)
                &&& self.handles@[hy].other == Some(hx as usize)
            },
            _ => false,
        }
    }

    /// A kernel with no processes, taking frames from `memory`, mapping the
    /// kernel through `kernel_pdp` in every address space.
    pub fn new(memory: mem::PerCpu, kernel_pdp: u64) -> (k: Kernel)
        requires
            memory.wf(),
        ensures
            k.wf(),
            k.in_kernel(),
            k.at_user(),
            k.procs@.len() == 0,
            k.handles@.len() == 0,
            k.spaces@.len() == 0,
            k.cpu.runqueue@.len() == 0,
            k.cpu.process is None,
            k.cpu.irq_process is None,
            k.cpu.irq_delayed == 0,
            k.kernel_pdp == kernel_pdp,
            k.cpu.memory == memory,
    {
        Kernel {
            procs: Vec::new(),
            handles: Vec::new(),
            spaces: Vec::new(),
            cpu: PerCpu { process: None, memory, runqueue: DList::empty(), irq_process: None, irq_delayed: 0 },
            kernel_pdp,
            con: Console::new(),
        }
    }

    /// A process for the boot module at `[start, end_unaligned)`: its image
    /// mapped at 1 MiB, a stack page below it, execution starting at the
    /// image's first byte. None when no frame is left for its page tables.
    pub fn new_proc_simple(&mut self, start: u32, end_unaligned: u32) -> (r: Option<usize>)
        requires
            old(self).wf(),
        ensures
            final(self).wf(),
            old(self).in_kernel() ==> final(self).in_kernel(),
            final(self).handles@ == old(self).handles@,
            final(self).cpu.runqueue == old(self).cpu.runqueue,
            final(self).cpu.process == old(self).cpu.process,
            final(self).cpu.irq_process == old(self).cpu.irq_process,
            final(self).cpu.irq_delayed == old(self).cpu.irq_delayed,
            r is None ==> final(self).procs@ == old(self).procs@,
            r is Some <==> old(self).cpu.memory.available().len() > 0,
            r is Some ==> final(self).cpu.memory.available().len() == old(self).cpu.memory.available().len() - 1,
            final(self).spaces@.len() >= old(self).spaces@.len(),
            forall|x: int| 0 <= x < old(self).spaces@.len() ==> #[trigger] final(self).spaces@[x] == old(self).spaces@[x],
            r matches Some(pid) ==> {
                let pr = final(self).procs@[pid as int];
                &&& pid == old(self).procs@.len()
                &&& pr.aspace == old(self).spaces@.len()
                &&& pr.aspace < final(self).spaces@.len()
                &&& final(self).procs@.len() == pid + 1
                &&& forall|q: int| 0 <= q < pid ==> #[trigger] final(self).procs@[q] == old(self).procs@[q]
                &&& pr.regs.rsp == IMAGE_BASE
                &&& pr.rip == IMAGE_BASE + (start & 0xfff) as u64
                &&& pr.spec_flags() == FlagBit::FastRet.spec_mask()
                &&& pr.spec_waiting_for() is None
                &&& final(self).spaces@[pr.aspace as int].cards() == module_cards(start, end_unaligned)
            },
    {
        let end = (end_unaligned as u64 + 0xfff) & !0xfffu64;
        let start_page = (start as u64) & !0xfffu64;
        let space = match AddressSpace::new(&mut self.cpu.memory, self.kernel_pdp) {
            Some(s) => s,
            None => return None,
        };
        let a = self.spaces.len();
        self.spaces.push(space);
        let cr3 = self.spaces[a].cr3();
        let mut p = Process::new(a, cr3);
        p.regs.rsp = IMAGE_BASE;
        p.rip = IMAGE_BASE + (start & 0xfff) as u64;
        // The stack: one page below the image, not executable.
        self.spaces[a].mapcard_set(0x0ff000, 0, 0, Anon | R | W);
        self.spaces[a].mapcard_set(IMAGE_BASE, 0, start_page.wrapping_sub(IMAGE_BASE), Phys | R | X);
        self.spaces[a].mapcard_set(IMAGE_BASE.wrapping_add(end.wrapping_sub(start_page)), 0, 0, 0);
        proof {
            assert(self.spaces@[a as int].cards() =~= module_cards(start, end_unaligned));
        }
        let pid = self.procs.len();
        proof {
            lemma_fresh_flags();
        }
        self.procs.push(p);
        proof {
            assert forall|q: int|
                0 <= q < self.procs@.len() && (#[trigger] self.procs@[q]).spec_is(FlagBit::Queued) implies self.cpu.runqueue@.contains(
                q as usize,
            ) && self.procs@[q].spec_ipc_state() == 0 by {
                if q == pid {
                    lemma_fresh_flags();
                }
            }
        }
        Some(pid)
    }

    /// Gives process `p` handle `j` to process `q`, and `q` handle `i` to `p`,
    /// paired.
    pub fn assoc_procs(&mut self, p: usize, i: u64, q: usize, j: u64)
        requires
            old(self).wf(),
            p < old(self).procs@.len(),
            q < old(self).procs@.len(),
            old(self).handles@.len() < usize::MAX - 1,
        ensures
            final(self).wf(),
            final(self).procs@.len() == old(self).procs@.len(),
            final(self).handles@.len() == old(self).handles@.len() + 2,
            forall|x: int| 0 <= x < final(self).procs@.len() ==> (#[trigger] final(self).procs@[x]) == (Process {
                pending: final(self).procs@[x].pending,
                ..old(self).procs@[x]
            }),
            final(self).cpu == old(self).cpu,
            final(self).spaces@ == old(self).spaces@,
            p != q || i != j ==> final(self).spec_find_handle(p, j) == Some(old(self).handles@.len() as int)
                && final(self).spec_find_handle(q, i) == Some(old(self).handles@.len() as int + 1),
            (p != q || i != j) && old(self).spec_find_handle(p, j) is None && old(self).spec_find_handle(q, i) is None
                ==> forall|k: int| 0 <= k < old(self).handles@.len() ==> #[trigger] final(self).handles@[k] == old(self).handles@[k],
            p != q || i != j ==> {
                let x = old(self).handles@.len() as int;
                &&& final(self).handles@[x].owner == p && final(self).handles@[x].id == j
                &&& final(self).handles@[x].process == q && final(self).handles@[x].other == Some((x + 1) as usize)
                &&& final(self).handles@[x + 1].owner == q && final(self).handles@[x + 1].id == i
                &&& final(self).handles@[x + 1].process == p && final(self).handles@[x + 1].other == Some(x as usize)
            },
    {
        self.assoc_handles(p, j, q, i);
    }

    /// Starts one process per boot module, gives every two of them a pair of
    /// handles (module `i` holds handle `j` to module `j`, numbering from
    /// 1), makes the first the interrupt process and queues them all in
    /// order. False when memory ran out.
    pub fn init_modules(&mut self, info: &Info, modules: &Vec<Module>) -> (r: bool)
        requires
            old(self).wf(),
            old(self).procs@.len() == 0,
            old(self).handles@.len() == 0,
            old(self).cpu.runqueue@.len() == 0,
        ensures
            final(self).wf(),
            info.flags & InfoFlags::Modules.spec_bits() == 0 ==> r && *final(self) == *old(self),
            info.flags & InfoFlags::Modules.spec_bits() != 0 && old(self).cpu.memory.available().len() >= modules@.len()
                && pairs_fit(modules@.len() as int) ==> r,
            r && info.flags & InfoFlags::Modules.spec_bits() != 0 ==> {
                &&& final(self).procs@.len() == modules@.len()
                &&& forall|k: int| 0 <= k < modules@.len() ==> final(self).image_ok(modules@, k)
                &&& forall|x: int, y: int| 0 <= x < y < modules@.len() ==> #[trigger] final(self).modules_paired(x, y)
                &&& final(self).cpu.runqueue@ == Seq::new(modules@.len(), |k: int| k as usize)
                &&& modules@.len() > 0 ==> final(self).cpu.irq_process == Some(0usize)
            },
    {
        if !info.has(InfoFlags::Modules) {
            return true;
        }
        let n = modules.len();
        // Every pair of modules takes two handles; the table must hold them.
        if n > 0 {
            let n2 = n as u128;
            if n2 >= 0x1_0000_0000 {
                proof {
                    assert(!pairs_fit(n as int)) by (nonlinear_arith)
                        requires
                            n as int >= 0x1_0000_0000,
                            usize::MAX < 0x1_0000_0000_0000_0000,
                    ;
                }
                return false;
            }
            proof {
                assert(n2 * n2 < 0x1_0000_0000_0000_0000) by (nonlinear_arith)
                    requires
                        n2 < 0x1_0000_0000,
                ;
            }
            if n2 * n2 >= (usize::MAX as u128) / 2 {
                proof {
                    assert(!pairs_fit(n as int)) by (nonlinear_arith)
                        requires
                            (n as int) * (n as int) >= (usize::MAX as int) / 2,
                    ;
                }
                return false;
            }
        }
        proof {
            assert(pairs_fit(n as int)) by (nonlinear_arith)
                requires
                    n == 0 || (n as int) * (n as int) < (usize::MAX as int) / 2,
            ;
        }
        let ghost av0 = self.cpu.memory.available().len();
        let mut i: usize = 0;
        while i < n
            invariant
                self.wf(),
                i <= n,
                n == modules@.len(),
                pairs_fit(n as int),
                info.flags & InfoFlags::Modules.spec_bits() != 0,
                self.procs@.len() == i,
                self.handles@.len() == 0,
                self.cpu.runqueue@.len() == 0,
                av0 == old(self).cpu.memory.available().len(),
                av0 >= n ==> self.cpu.memory.available().len() >= n - i,
                forall|k: int| 0 <= k < i ==> (#[trigger] self.procs@[k]).flags == FlagBit::FastRet.spec_mask(),
                forall|k: int| 0 <= k < i ==> self.image_ok(modules@, k),
            decreases n - i,
        {
            let ghost before = *self;
            match self.new_proc_simple(modules[i].start, modules[i].end) {
                Some(_) => {},
                None => return false,
            }
            proof {
                assert forall|k: int| 0 <= k <= i implies self.image_ok(modules@, k) by {
                    if k < i {
                        assert(before.image_ok(modules@, k));
                        assert(self.procs@[k] == before.procs@[k]);
                    }
                }
            }
            i = i + 1;
        }
        let mut a: usize = 0;
        while a < n
            invariant
                self.wf(),
                a <= n,
                n == modules@.len(),
                pairs_fit(n as int),
                info.flags & InfoFlags::Modules.spec_bits() != 0,
                self.procs@.len() == n,
                self.cpu.runqueue@.len() == 0,
                self.handles@.len() <= 2 * ((a as int) * (n as int)),
                forall|x: int, y: int| 0 <= x < y < n && x < a ==> #[trigger] self.modules_paired(x, y),
                forall|i: int| 0 <= i < self.handles@.len() ==> pair_handle(#[trigger] self.handles@[i], n as int, a as int, a as int + 1),
                forall|k: int| 0 <= k < n ==> (#[trigger] self.procs@[k]).flags == FlagBit::FastRet.spec_mask(),
                forall|k: int| 0 <= k < n ==> self.image_ok(modules@, k),
            decreases n - a,
        {
            let mut b: usize = a + 1;
            while b < n
                invariant
                    self.wf(),
                    a < n,
                    b <= n,
                    n == modules@.len(),
                    pairs_fit(n as int),
                    info.flags & InfoFlags::Modules.spec_bits() != 0,
                    self.procs@.len() == n,
                    self.cpu.runqueue@.len() == 0,
                    self.handles@.len() <= 2 * ((a as int) * (n as int)) + 2 * (b as int),
                    a < b,
                    forall|x: int, y: int| 0 <= x < y < n && (x < a || (x == a && y < b)) ==> #[trigger] self.modules_paired(x, y),
                    forall|i: int| 0 <= i < self.handles@.len() ==> pair_handle(#[trigger] self.handles@[i], n as int, a as int, b as int),
                    forall|k: int| 0 <= k < n ==> (#[trigger] self.procs@[k]).flags == FlagBit::FastRet.spec_mask(),
                    forall|k: int| 0 <= k < n ==> self.image_ok(modules@, k),
                decreases n - b,
            {
                proof {
                    assert(2 * ((a as int) * (n as int)) + 2 * (b as int) + 2 < usize::MAX) by (nonlinear_arith)
                        requires
                            a < n,
                            b < n,
                            pairs_fit(n as int),
                    ;
                    assert(self.handles@.len() < usize::MAX - 1);
                }
                let ghost before = *self;
                proof {
                    lemma_handle_from_bounds(self.handles@, a, ((b as u64) + 1) as u64, 0);
                    lemma_handle_from_bounds(self.handles@, b, ((a as u64) + 1) as u64, 0);
                    if let Some(k) = self.spec_find_handle(a, ((b as u64) + 1) as u64) {
                        assert(pair_handle(self.handles@[k], n as int, a as int, b as int));
                    }
                    if let Some(k) = self.spec_find_handle(b, ((a as u64) + 1) as u64) {
                        assert(pair_handle(self.handles@[k], n as int, a as int, b as int));
                    }
                }
                self.assoc_procs(a, (a as u64) + 1, b, (b as u64) + 1);
                proof {
                    assert forall|k: int| 0 <= k < n implies self.image_ok(modules@, k) by {
                        assert(before.image_ok(modules@, k));
                    }
                    let len0 = before.handles@.len() as int;
                    assert forall|i: int| 0 <= i < self.handles@.len() implies pair_handle(#[trigger] self.handles@[i], n as int, a as int, b + 1) by {
                        if i < len0 {
                            assert(self.handles@[i] == before.handles@[i]);
                            assert(pair_handle(before.handles@[i], n as int, a as int, b as int));
                        }
                    }
                    assert forall|x: int, y: int| 0 <= x < y < n && (x < a || (x == a && y < b + 1)) implies #[trigger] self.modules_paired(x, y) by {
                        if !(x == a && y == b) {
                            assert(before.modules_paired(x, y));
                            let hx = before.spec_find_handle(x as usize, (y + 1) as u64).unwrap();
                            let hy = before.spec_find_handle(y as usize, (x + 1) as u64).unwrap();
                            lemma_handle_from_bounds(before.handles@, x as usize, (y + 1) as u64, 0);
                            lemma_handle_from_bounds(before.handles@, y as usize, (x + 1) as u64, 0);
                            assert(self.handles@[hx] == before.handles@[hx]);
                            assert(self.handles@[hy] == before.handles@[hy]);
                            self.lemma_find_handle(x as usize, (y + 1) as u64, hx);
                            self.lemma_find_handle(y as usize, (x + 1) as u64, hy);
                        }
                    }
                }
                b = b + 1;
            }
            proof {
                assert((a as int + 1) * (n as int) == (a as int) * (n as int) + n) by (nonlinear_arith);
                assert forall|i: int| 0 <= i < self.handles@.len() implies pair_handle(#[trigger] self.handles@[i], n as int, a as int + 1, a as int + 2) by {
                    assert(pair_handle(self.handles@[i], n as int, a as int, b as int));
                }
            }
            a = a + 1;
        }
        let ghost before = *self;
        if n > 0 {
            self.cpu.irq_process = Some(0);
        }
        proof {
            assert forall|x: int| 0 <= x < n implies self.image_ok(modules@, x) by {
                assert(before.image_ok(modules@, x));
            }
            assert forall|x: int, y: int| 0 <= x < y < n implies #[trigger] self.modules_paired(x, y) by {
                assert(before.modules_paired(x, y));
            }
        }
        let mut k: usize = 0;
        proof {
            lemma_fresh_flags();
        }
        while k < n
            invariant
                self.wf(),
                k <= n,
                n == modules@.len(),
                info.flags & InfoFlags::Modules.spec_bits() != 0,
                self.procs@.len() == n,
                n > 0 ==> self.cpu.irq_process == Some(0usize),
                self.cpu.runqueue@ == Seq::new(k as nat, |x: int| x as usize),
                forall|x: int| k <= x < n ==> (#[trigger] self.procs@[x]).flags == FlagBit::FastRet.spec_mask(),
                forall|x: int| 0 <= x < n ==> self.image_ok(modules@, x),
                forall|x: int, y: int| 0 <= x < y < n ==> #[trigger] self.modules_paired(x, y),
            decreases n - k,
        {
            proof {
                lemma_fresh_flags();
            }
            let ghost before = *self;
            self.queue(k);
            proof {
                assert forall|x: int| 0 <= x < n implies self.image_ok(modules@, x) by {
                    assert(before.image_ok(modules@, x));
                }
                assert forall|x: int, y: int| 0 <= x < y < n implies #[trigger] self.modules_paired(x, y) by {
                    assert(before.modules_paired(x, y));
                }
            }
            k = k + 1;
            assert(self.cpu.runqueue@ =~= Seq::new(k as nat, |x: int| x as usize));
        }
        true
    }
}

/// Handle `h` is one of the pair made for modules `x < y` (its owner and the
/// module its id names), a pair made before `(a, b)` among `n` modules.
pub open spec fn pair_handle(h: Handle, n: int, a: int, b: int) -> bool {
    let o = h.owner as int;
    let d = h.id as int - 1;
    let x = if o < d { o } else { d };
    let y = if o < d { d } else { o };
    &&& h.live
    &&& 0 <= d < n
    &&& o < n
    &&& o != d
    &&& (x < a || (x == a && y < b))
}

/// A new process is neither queued, nor running, nor in IPC.
proof fn lemma_fresh_flags()
    ensures
        !crate::process::has_flag(FlagBit::FastRet.spec_mask(), FlagBit::Queued),
        !crate::process::has_flag(FlagBit::FastRet.spec_mask(), FlagBit::Running),
        FlagBit::FastRet.spec_mask() & crate::process::IPC_BITS == 0,
{
    assert((2u8 & 1u8) == 0 && (2u8 & 16u8) == 0 && (2u8 & 44u8) == 0) by (bit_vector);
}
} // verus!
