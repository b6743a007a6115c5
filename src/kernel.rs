//! The whole system on one CPU: processes, handles and address spaces held in
//! tables, the scheduler's state, and the IPC engine that moves messages,
//! pulses and pages between processes.
use vstd::prelude::*;
use crate::aspace::{AddressSpace, Backing, BackingError, BackingRef, SharingRef, backing_at};
use crate::con::Console;
use crate::dlist::DList;
use crate::mem;
use crate::process::{FlagBit, Handle, Process, Regs, fresh_handle, lemma_flag_ops};

verus! {

/// How the kernel leaves: into a process, into the idle loop, or halted on a
/// broken rule.
#[derive(Clone, Copy, PartialEq, Eq, Structural, Debug)]
pub enum Exit {
    /// Resume `pid` by the fast path, with `rax` as the syscall's result.
    FastRet { pid: usize, rax: u64 },
    /// Resume `pid` restoring its whole register file.
    SlowRet { pid: usize },
    /// Nothing is runnable: wait for an interrupt.
    Idle,
    /// `pid` asked for port I/O; the result goes back through `resume`.
    PortIo { pid: usize, port: u16, op: PortOp, data: u64 },
    /// A kernel rule was broken; the CPU stops.
    Halt(Fault),
}

/// A single port access: its width and direction.
#[derive(Clone, Copy, PartialEq, Eq, Structural, Debug)]
pub enum PortOp {
    In8,
    In16,
    In32,
    Out8,
    Out16,
    Out32,
}

/// The rule whose breach halted the kernel.
#[derive(Clone, Copy, PartialEq, Eq, Structural, Debug)]
pub enum Fault {
    /// A send, call or grant through a handle the process does not hold.
    NoRecipient,
    /// A message for a handle that is not paired with the sender's.
    HandleMismatch,
    /// A transfer needs the other side of a handle that has none.
    UnpairedHandle,
    /// A grant to a process that is not waiting for a page.
    GrantToNonFaulting,
    /// A grant by a process that the faulting mapping does not name.
    WrongHandleGranted,
    /// The page to share or to map could not be backed.
    BackingFailed,
    /// A user message code whose kind is neither send nor call.
    UnknownIpcKind,
    /// A system call number with no operation.
    UnhandledSyscall,
    /// A port operation code with no access.
    UnhandledPortIo,
    /// An interrupt vector outside 32 to 48.
    InvalidIrqVector,
    /// An interrupt arrived with no process to receive it.
    NoIrqProcess,
    /// A page fault in kernel mode.
    KernelPageFault,
    /// A page fault at a kernel address.
    KernelAddressFault,
    /// A system call or fault with no current process.
    NoProcess,
    /// The device-not-available exception.
    DeviceNotAvailable,
    /// No frame was left for a page table.
    OutOfMemory,
}

/// The CPU's scheduling state.
pub struct PerCpu {
    /// The process executing, or last executed, on this CPU.
    pub process: Option<usize>,
    pub memory: mem::PerCpu,
    pub runqueue: DList,
    /// The process that receives hardware interrupts as pulses.
    pub irq_process: Option<usize>,
    /// Interrupt bits (vector - 32) that arrived while it could not receive.
    pub irq_delayed: u64,
}

pub struct Kernel {
    pub procs: Vec<Process>,
    pub handles: Vec<Handle>,
    pub spaces: Vec<AddressSpace>,
    pub cpu: PerCpu,
    /// The kernel's upper-level page table, shared by every address space.
    pub kernel_pdp: u64,
    pub con: Console,
}

/// The first live handle at or after slot `i` that process `p` holds under `id`.
pub open spec fn handle_from(h: Seq<Handle>, p: usize, id: u64, i: int) -> Option<int>
    decreases h.len() - i,
{
    if i < 0 || i >= h.len() {
        None
    } else if h[i].live && h[i].owner == p && h[i].id == id {
        Some(i)
    } else {
        handle_from(h, p, id, i + 1)
    }
}

/// A lookup finds a live handle of `p` under `id`, or there is none.
pub proof fn lemma_handle_from_bounds(h: Seq<Handle>, p: usize, id: u64, i: int)
    requires
        0 <= i,
    ensures
        handle_from(h, p, id, i) matches Some(c) ==> i <= c < h.len() && h[c].live && h[c].owner == p
            && h[c].id == id,
        handle_from(h, p, id, i) is None ==> forall|j: int|
            i <= j < h.len() ==> !(#[trigger] h[j].live && h[j].owner == p && h[j].id == id),
    decreases h.len() - i,
{
    if i < h.len() {
        lemma_handle_from_bounds(h, p, id, i + 1);
    }
}

impl Kernel {
    /// The handle that process `p` holds under `id`.
    pub open spec fn spec_find_handle(&self, p: usize, id: u64) -> Option<int> {
        handle_from(self.handles@, p, id, 0)
    }

    pub open spec fn procs_wf(&self) -> bool {
        let n = self.procs@.len();
        &&& forall|p: int| 0 <= p < n ==> (#[trigger] self.procs@[p]).wf()
        &&& forall|p: int| 0 <= p < n ==> (#[trigger] self.procs@[p]).aspace < self.spaces@.len()
        &&& forall|p: int, k: int|
            0 <= p < n && 0 <= k < self.procs@[p].waiters@.len() ==> {
                let w = #[trigger] self.procs@[p].waiters@[k];
                &&& w < n
                &&& self.procs@[w as int].waiting_for == Some(p as usize)
            }
        &&& forall|w: int|
            0 <= w < n && (#[trigger] self.procs@[w]).waiting_for is Some ==> {
                let p = self.procs@[w].waiting_for.unwrap();
                &&& p < n
                &&& self.procs@[p as int].waiters@.contains(w as usize)
            }
        &&& forall|p: int, k: int|
            0 <= p < n && 0 <= k < self.procs@[p].pending@.len() ==> #[trigger] self.procs@[p].pending@[k]
                < self.handles@.len()
    }

    /// Handles sit at their slots, name existing processes, and pair up: if
    /// A names B as its other side then B names A. A process holds at most
    /// one live handle under each id.
    pub open spec fn handles_wf(&self) -> bool {
        let h = self.handles@;
        &&& forall|i: int| 0 <= i < h.len() ==> (#[trigger] h[i]).slot == i
        &&& forall|i: int| 0 <= i < h.len() ==> (#[trigger] h[i]).owner < self.procs@.len()
        &&& forall|i: int| 0 <= i < h.len() ==> (#[trigger] h[i]).process < self.procs@.len()
        &&& forall|i: int| 0 <= i < h.len() && !(#[trigger] h[i]).live ==> h[i].other is None
        &&& forall|i: int, j: int|
            0 <= i < h.len() && 0 <= j < h.len() && (#[trigger] h[i]).live && (#[trigger] h[j]).live && h[i].owner
                == h[j].owner && h[i].id == h[j].id ==> i == j
        &&& forall|i: int|
            0 <= i < h.len() && (#[trigger] h[i]).other is Some ==> {
                let j = h[i].other.unwrap();
                &&& j < h.len()
                &&& j != i
                &&& h[j as int].other == Some(i as usize)
            }
    }

    /// Every process on the run queue is marked queued and is not running;
    /// every queued process is on the run queue and has no IPC in progress;
    /// only the CPU's current process can be running.
    pub open spec fn sched_wf(&self) -> bool {
        let n = self.procs@.len();
        let rq = self.cpu.runqueue@;
        &&& self.cpu.runqueue.wf()
        &&& forall|k: int|
            0 <= k < rq.len() ==> {
                let p = #[trigger] rq[k];
                &&& p < n
                &&& self.procs@[p as int].spec_is(FlagBit::Queued)
                &&& !self.procs@[p as int].spec_is(FlagBit::Running)
            }
        &&& forall|p: int|
            0 <= p < n && (#[trigger] self.procs@[p]).spec_is(FlagBit::Queued) ==> rq.contains(p as usize)
                && self.procs@[p].spec_ipc_state() == 0
        &&& forall|p: int|
            0 <= p < n && (#[trigger] self.procs@[p]).spec_is(FlagBit::Running) ==> self.cpu.process == Some(
                p as usize,
            ) && self.procs@[p].spec_ipc_state() == 0
        &&& self.cpu.process matches Some(c) ==> c < n
        &&& self.cpu.irq_process matches Some(i) ==> i < n
    }

    pub open spec fn spaces_wf(&self) -> bool {
        &&& forall|s: int| 0 <= s < self.spaces@.len() ==> (#[trigger] self.spaces@[s]).wf()
        &&& forall|s: int|
            0 <= s < self.spaces@.len() ==> (#[trigger] self.spaces@[s]).spec_kernel_pdp() == self.kernel_pdp
    }

    /// Every backing that a sharing lists exists, names that sharing as its
    /// parent and lies on the sharing's physical page.
    pub open spec fn sharings_wf(&self) -> bool {
        forall|s: int, k: u64, c: int|
            0 <= s < self.spaces@.len() && #[trigger] self.spaces@[s].sharing_map().contains_key(k) && 0 <= c
                < self.spaces@[s].sharing_map()[k].children@.len() ==> {
                let r = #[trigger] self.spaces@[s].sharing_map()[k].children@[c];
                &&& r.aspace < self.spaces@.len()
                &&& self.spaces@[r.aspace as int].backing_map().contains_key(r.key)
                &&& self.spaces@[r.aspace as int].backing_map()[r.key].parent == Some(
                    SharingRef { aspace: s as usize, vaddr: k },
                )
                &&& self.spaces@[r.aspace as int].backing_map()[r.key].phys == self.spaces@[s].sharing_map()[k].paddr
            }
    }

    /// Every backing taken from a sharing lies on the sharing's page and is
    /// listed among its observers.
    pub open spec fn parents_wf(&self) -> bool {
        forall|s: int, k: u64|
            0 <= s < self.spaces@.len() && #[trigger] self.spaces@[s].backing_map().contains_key(k) && self.spaces@[s].backing_map()[k].parent
                is Some ==> {
                let sr = self.spaces@[s].backing_map()[k].parent.unwrap();
                &&& sr.aspace < self.spaces@.len()
                &&& self.spaces@[sr.aspace as int].sharing_map().contains_key(sr.vaddr)
                &&& self.spaces@[s].backing_map()[k].phys == self.spaces@[sr.aspace as int].sharing_map()[sr.vaddr].paddr
                &&& self.spaces@[sr.aspace as int].sharing_map()[sr.vaddr].children@.contains(BackingRef { aspace: s as usize, key: k })
            }
    }

    /// The spaces of `self` extend those of `o`: no space is lost, every
    /// backing stays as it was, and every sharing stays as it was or is new
    /// with no observers.
    pub open spec fn spaces_extend(&self, o: &Kernel) -> bool {
        &&& self.spaces@.len() >= o.spaces@.len()
        &&& forall|s: int, k: u64|
            0 <= s < o.spaces@.len() && #[trigger] o.spaces@[s].backing_map().contains_key(k) ==> self.spaces@[s].backing_map().contains_key(k)
                && self.spaces@[s].backing_map()[k] == o.spaces@[s].backing_map()[k]
        &&& forall|s: int, k: u64|
            0 <= s < o.spaces@.len() && #[trigger] o.spaces@[s].sharing_map().contains_key(k) ==> self.spaces@[s].sharing_map().contains_key(k)
        &&& forall|s: int, k: u64|
            0 <= s < self.spaces@.len() && #[trigger] self.spaces@[s].backing_map().contains_key(k) && !(s < o.spaces@.len()
                && o.spaces@[s].backing_map().contains_key(k)) ==> self.spaces@[s].backing_map()[k].parent is None
        &&& forall|s: int, k: u64|
            0 <= s < self.spaces@.len() && #[trigger] self.spaces@[s].sharing_map().contains_key(k) ==> if s < o.spaces@.len()
                && o.spaces@[s].sharing_map().contains_key(k) {
                self.spaces@[s].sharing_map()[k] == o.spaces@[s].sharing_map()[k]
            } else {
                self.spaces@[s].sharing_map()[k].children@.len() == 0
            }
    }

    /// Extending the spaces keeps every sharing's observers in place.
    pub proof fn lemma_sharings_extend(&self, o: &Kernel)
        requires
            o.sharings_wf(),
            o.parents_wf(),
            self.spaces_extend(o),
        ensures
            self.sharings_wf(),
            self.parents_wf(),
    {
        assert forall|s: int, k: u64|
            0 <= s < self.spaces@.len() && #[trigger] self.spaces@[s].backing_map().contains_key(k) && self.spaces@[s].backing_map()[k].parent
                is Some implies {
                let sr = self.spaces@[s].backing_map()[k].parent.unwrap();
                &&& sr.aspace < self.spaces@.len()
                &&& self.spaces@[sr.aspace as int].sharing_map().contains_key(sr.vaddr)
                &&& self.spaces@[s].backing_map()[k].phys == self.spaces@[sr.aspace as int].sharing_map()[sr.vaddr].paddr
                &&& self.spaces@[sr.aspace as int].sharing_map()[sr.vaddr].children@.contains(BackingRef { aspace: s as usize, key: k })
            } by {
            assert(s < o.spaces@.len() && o.spaces@[s].backing_map().contains_key(k));
            let sr = o.spaces@[s].backing_map()[k].parent.unwrap();
            assert(o.spaces@[sr.aspace as int].sharing_map().contains_key(sr.vaddr));
        }
        assert forall|s: int, k: u64, c: int|
            0 <= s < self.spaces@.len() && #[trigger] self.spaces@[s].sharing_map().contains_key(k) && 0 <= c
                < self.spaces@[s].sharing_map()[k].children@.len() implies {
                let r = #[trigger] self.spaces@[s].sharing_map()[k].children@[c];
                &&& r.aspace < self.spaces@.len()
                &&& self.spaces@[r.aspace as int].backing_map().contains_key(r.key)
                &&& self.spaces@[r.aspace as int].backing_map()[r.key].parent == Some(
                    SharingRef { aspace: s as usize, vaddr: k },
                )
                &&& self.spaces@[r.aspace as int].backing_map()[r.key].phys == self.spaces@[s].sharing_map()[k].paddr
            } by {
            assert(s < o.spaces@.len() && o.spaces@[s].sharing_map().contains_key(k));
            let r = o.spaces@[s].sharing_map()[k].children@[c];
            assert(o.spaces@[r.aspace as int].backing_map().contains_key(r.key));
        }
    }

    /// No frame left to hand out holds a page table of any space.
    pub open spec fn frames_wf(&self) -> bool {
        forall|s: int, f: u64|
            0 <= s < self.spaces@.len() && self.cpu.memory.available().contains(f) ==> !(#[trigger] self.spaces@[s].uses_frame(f))
    }

    pub open spec fn wf(&self) -> bool {
        &&& self.frames_wf()
        &&& self.sharings_wf()
        &&& self.parents_wf()
        &&& self.procs_wf()
        &&& self.handles_wf()
        &&& self.sched_wf()
        &&& self.spaces_wf()
        &&& self.cpu.memory.wf()
        &&& self.con.wf()
    }

    /// Kernel code runs: no process is executing.
    pub open spec fn in_kernel(&self) -> bool {
        forall|p: int| 0 <= p < self.procs@.len() ==> !(#[trigger] self.procs@[p]).spec_is(FlagBit::Running)
    }

    /// The state the kernel leaves in, for exit `e`.
    pub open spec fn exited(&self, e: Exit) -> bool {
        match e {
            Exit::FastRet { pid, rax } => self.cpu.process == Some(pid) && pid < self.procs@.len()
                && self.procs@[pid as int].spec_is(FlagBit::Running),
            Exit::SlowRet { pid } => self.cpu.process == Some(pid) && pid < self.procs@.len()
                && self.procs@[pid as int].spec_is(FlagBit::Running),
            Exit::Idle => self.cpu.process is None && self.in_kernel(),
            Exit::PortIo { pid, port, op, data } => self.waits_for_io(pid),
            Exit::Halt(_) => self.in_kernel(),
        }
    }

    /// `pid`, the current process, is in the middle of a system call that
    /// only needs its result to return.
    pub open spec fn waits_for_io(&self, pid: usize) -> bool {
        &&& self.in_kernel()
        &&& self.cpu.process == Some(pid)
        &&& pid < self.procs@.len()
        &&& self.procs@[pid as int].spec_ipc_state() == 0
        &&& !self.procs@[pid as int].spec_is(FlagBit::Queued)
    }

    /// Between kernel entries: the current process, if any, is running.
    pub open spec fn at_user(&self) -> bool {
        self.cpu.process matches Some(c) ==> c < self.procs@.len() && self.procs@[c as int].spec_is(FlagBit::Running)
    }

    /// At most one process is running.
    pub proof fn lemma_at_most_one_running(&self)
        requires
            self.wf(),
        ensures
            forall|p: int, q: int|
                0 <= p < self.procs@.len() && 0 <= q < self.procs@.len() && (#[trigger] self.procs@[p]).spec_is(
                    FlagBit::Running,
                ) && (#[trigger] self.procs@[q]).spec_is(FlagBit::Running) ==> p == q,
    {
        assert forall|p: int, q: int|
            0 <= p < self.procs@.len() && 0 <= q < self.procs@.len() && (#[trigger] self.procs@[p]).spec_is(
                FlagBit::Running,
            ) && (#[trigger] self.procs@[q]).spec_is(FlagBit::Running) implies p == q by {
            assert(self.procs@.len() == self.procs.len());
            assert(self.cpu.process == Some(p as usize) && self.cpu.process == Some(q as usize));
        }
    }

    /// A process on the run queue is marked queued and is not running.
    pub proof fn lemma_runqueue_members(&self, p: usize)
        requires
            self.wf(),
            self.cpu.runqueue@.contains(p),
        ensures
            p < self.procs@.len(),
            self.procs@[p as int].spec_is(FlagBit::Queued),
            !self.procs@[p as int].spec_is(FlagBit::Running),
    {
        let k = choose|k: int| 0 <= k < self.cpu.runqueue@.len() && self.cpu.runqueue@[k] == p;
    }

    /// A queued process is on the run queue, so it is not running.
    pub proof fn lemma_queued_in_runqueue(&self, p: usize)
        requires
            self.wf(),
            p < self.procs@.len(),
            self.procs@[p as int].spec_is(FlagBit::Queued),
        ensures
            !self.procs@[p as int].spec_is(FlagBit::Running),
            self.cpu.runqueue@.contains(p),
    {
        assert(self.cpu.runqueue@.contains(p));
        self.lemma_runqueue_members(p);
    }

    /// A backing that a sharing lists names that sharing as its parent and
    /// lies on the sharing's physical page.
    pub proof fn lemma_sharing_children(&self, s: int, k: u64, c: int)
        requires
            self.wf(),
            0 <= s < self.spaces@.len(),
            self.spaces@[s].sharing_map().contains_key(k),
            0 <= c < self.spaces@[s].sharing_map()[k].children@.len(),
        ensures
            ({
                let r = self.spaces@[s].sharing_map()[k].children@[c];
                &&& r.aspace < self.spaces@.len()
                &&& self.spaces@[r.aspace as int].backing_map().contains_key(r.key)
                &&& self.spaces@[r.aspace as int].backing_map()[r.key].parent == Some(
                    SharingRef { aspace: s as usize, vaddr: k },
                )
                &&& self.spaces@[r.aspace as int].backing_map()[r.key].phys == self.spaces@[s].sharing_map()[k].paddr
            }),
    {
    }

    /// The live handle that `p` holds under `id` is the one found for it.
    pub proof fn lemma_find_handle(&self, p: usize, id: u64, i: int)
        requires
            self.wf(),
            0 <= i < self.handles@.len(),
            self.handles@[i].live,
            self.handles@[i].owner == p,
            self.handles@[i].id == id,
        ensures
            self.spec_find_handle(p, id) == Some(i),
    {
        lemma_handle_from_bounds(self.handles@, p, id, 0);
    }

    /// Paired handles name each other.
    pub proof fn lemma_handles_paired(&self, a: usize)
        requires
            self.wf(),
            a < self.handles@.len(),
            self.handles@[a as int].other is Some,
        ensures
            ({
                let b = self.handles@[a as int].other.unwrap();
                &&& b < self.handles@.len()
                &&& self.handles@[b as int].other == Some(a)
            }),
    {
    }

    /// Everything but the process table is as in `o`.
    pub open spec fn others_same(&self, o: &Kernel) -> bool {
        &&& self.handles@ == o.handles@
        &&& self.spaces@ == o.spaces@
        &&& self.cpu == o.cpu
        &&& self.kernel_pdp == o.kernel_pdp
        &&& self.con == o.con
    }

    /// Sets flag `f` on process `p`; an IPC flag only on a process that is not queued.
    pub(crate) fn set_flag(&mut self, p: usize, f: FlagBit)
        requires
            old(self).wf(),
            p < old(self).procs@.len(),
            f != FlagBit::Queued && f != FlagBit::Running,
            old(self).procs@[p as int].spec_is(FlagBit::Queued) ==> f == FlagBit::FastRet,
            old(self).procs@[p as int].spec_is(FlagBit::Running) ==> f == FlagBit::FastRet,
        ensures
            final(self).wf(),
            final(self).others_same(old(self)),
            final(self).procs@ == old(self).procs@.update(
                p as int,
                Process { flags: old(self).procs@[p as int].flags | f.spec_mask(), ..old(self).procs@[p as int] },
            ),
            old(self).in_kernel() ==> final(self).in_kernel(),
    {
        proof {
            lemma_flag_ops(self.procs@[p as int].flags, f, FlagBit::Queued);
            lemma_flag_ops(self.procs@[p as int].flags, f, FlagBit::Running);
        }
        self.procs[p].set(f);
        proof {
            assert(self.procs@[p as int].waiters == old(self).procs@[p as int].waiters);
        }
    }

    /// Clears flag `f` on process `p`.
    pub(crate) fn unset_flag(&mut self, p: usize, f: FlagBit)
        requires
            old(self).wf(),
            p < old(self).procs@.len(),
            f != FlagBit::Queued && f != FlagBit::Running,
        ensures
            final(self).wf(),
            final(self).others_same(old(self)),
            final(self).procs@ == old(self).procs@.update(
                p as int,
                Process { flags: old(self).procs@[p as int].flags & !f.spec_mask(), ..old(self).procs@[p as int] },
            ),
            old(self).in_kernel() ==> final(self).in_kernel(),
    {
        proof {
            lemma_flag_ops(self.procs@[p as int].flags, f, FlagBit::Queued);
            lemma_flag_ops(self.procs@[p as int].flags, f, FlagBit::Running);
        }
        self.procs[p].unset(f);
    }

    /// Replaces the saved registers of process `p`.
    pub(crate) fn set_regs(&mut self, p: usize, regs: Regs)
        requires
            old(self).wf(),
            p < old(self).procs@.len(),
        ensures
            final(self).wf(),
            final(self).others_same(old(self)),
            final(self).procs@ == old(self).procs@.update(p as int, Process { regs, ..old(self).procs@[p as int] }),
            old(self).in_kernel() ==> final(self).in_kernel(),
    {
        self.procs[p].regs = regs;
    }

    /// Puts `p` on the run queue unless it is there already.
    pub fn queue(&mut self, p: usize)
        requires
            old(self).wf(),
            p < old(self).procs@.len(),
            old(self).procs@[p as int].spec_ipc_state() == 0,
            !old(self).procs@[p as int].spec_is(FlagBit::Running),
        ensures
            final(self).wf(),
            final(self).procs@[p as int].spec_is(FlagBit::Queued),
            final(self).cpu.runqueue@.contains(p),
            old(self).procs@[p as int].spec_is(FlagBit::Queued) ==> final(self).procs@ == old(self).procs@
                && final(self).cpu == old(self).cpu,
            !old(self).procs@[p as int].spec_is(FlagBit::Queued) ==> final(self).cpu.runqueue@ == old(
                self,
            ).cpu.runqueue@.push(p) && final(self).procs@ == old(self).procs@.update(
                p as int,
                Process { flags: old(self).procs@[p as int].flags | FlagBit::Queued.spec_mask(), ..old(self).procs@[p as int] },
            ),
            final(self).handles@ == old(self).handles@,
            final(self).spaces@ == old(self).spaces@,
            final(self).kernel_pdp == old(self).kernel_pdp,
            final(self).cpu.process == old(self).cpu.process,
            final(self).cpu.irq_process == old(self).cpu.irq_process,
            final(self).cpu.irq_delayed == old(self).cpu.irq_delayed,
            final(self).cpu.memory == old(self).cpu.memory,
            old(self).in_kernel() ==> final(self).in_kernel(),
    {
        if !self.procs[p].is_queued() {
            proof {
                lemma_flag_ops(self.procs@[p as int].flags, FlagBit::Queued, FlagBit::Queued);
                lemma_flag_ops(self.procs@[p as int].flags, FlagBit::Queued, FlagBit::Running);
                lemma_flag_ops(self.procs@[p as int].flags, FlagBit::Queued, FlagBit::InRecv);
                if self.cpu.runqueue@.contains(p) {
                    let k = choose|k: int| 0 <= k < self.cpu.runqueue@.len() && self.cpu.runqueue@[k] == p;
                }
            }
            self.procs[p].set(FlagBit::Queued);
            self.cpu.runqueue.append(p);
            proof {
                assert(self.cpu.runqueue@.last() == p);
                assert forall|q: int|
                    0 <= q < self.procs@.len() && (#[trigger] self.procs@[q]).spec_is(FlagBit::Queued) implies self.cpu.runqueue@.contains(
                    q as usize,
                ) && self.procs@[q].spec_ipc_state() == 0 by {
                    if q != p {
                        assert(old(self).cpu.runqueue@.contains(q as usize));
                        let k = choose|k: int| 0 <= k < old(self).cpu.runqueue@.len() && old(self).cpu.runqueue@[k] == q as usize;
                        assert(self.cpu.runqueue@[k] == q as usize);
                    } else {
                        assert(self.cpu.runqueue@[self.cpu.runqueue@.len() - 1] == p);
                    }
                }
                assert forall|k: int| 0 <= k < self.cpu.runqueue@.len() implies {
                    let x = #[trigger] self.cpu.runqueue@[k];
                    &&& x < self.procs@.len()
                    &&& self.procs@[x as int].spec_is(FlagBit::Queued)
                    &&& !self.procs@[x as int].spec_is(FlagBit::Running)
                } by {
                    if k < old(self).cpu.runqueue@.len() {
                        assert(self.cpu.runqueue@[k] == old(self).cpu.runqueue@[k]);
                    }
                }
            }
        }
    }

    /// Marks `p` running as the CPU's current process and leaves into it, by
    /// the fast path when its flags allow.
    pub fn switch_to(&mut self, p: usize) -> (r: Exit)
        requires
            old(self).wf(),
            old(self).in_kernel(),
            p < old(self).procs@.len(),
            !old(self).procs@[p as int].spec_is(FlagBit::Queued),
            old(self).procs@[p as int].spec_ipc_state() == 0,
        ensures
            final(self).wf(),
            final(self).con == old(self).con,
            final(self).exited(r),
            final(self).cpu.process == Some(p),
            final(self).handles@ == old(self).handles@,
            final(self).spaces@ == old(self).spaces@,
            final(self).kernel_pdp == old(self).kernel_pdp,
            final(self).cpu.runqueue == old(self).cpu.runqueue,
            final(self).cpu.irq_process == old(self).cpu.irq_process,
            final(self).cpu.irq_delayed == old(self).cpu.irq_delayed,
            final(self).cpu.memory == old(self).cpu.memory,
            final(self).procs@.len() == old(self).procs@.len(),
            forall|q: int| 0 <= q < final(self).procs@.len() && q != p ==> #[trigger] final(self).procs@[q] == old(self).procs@[q],
            final(self).procs@[p as int].regs == old(self).procs@[p as int].regs,
            final(self).procs@[p as int].spec_ipc_state() == old(self).procs@[p as int].spec_ipc_state(),
            final(self).procs@[p as int].spec_is(FlagBit::Running),
            old(self).procs@[p as int].spec_is(FlagBit::FastRet) ==> r == (Exit::FastRet { pid: p, rax: old(self).procs@[p as int].regs.rax }),
            !old(self).procs@[p as int].spec_is(FlagBit::FastRet) ==> r == (Exit::SlowRet { pid: p }),
            !final(self).procs@[p as int].spec_is(FlagBit::FastRet),
            final(self).procs@[p as int] == (Process { flags: final(self).procs@[p as int].flags, ..old(self).procs@[p as int] }),
    {
        proof {
            let x = self.procs@[p as int].flags;
            lemma_flag_ops(x, FlagBit::Running, FlagBit::Queued);
            lemma_flag_ops(x, FlagBit::Running, FlagBit::Running);
            lemma_flag_ops(x, FlagBit::Running, FlagBit::FastRet);
            lemma_flag_ops(x | FlagBit::Running.spec_mask(), FlagBit::FastRet, FlagBit::Queued);
            lemma_flag_ops(x | FlagBit::Running.spec_mask(), FlagBit::FastRet, FlagBit::Running);
            lemma_flag_ops(x | FlagBit::Running.spec_mask(), FlagBit::FastRet, FlagBit::FastRet);
            if self.cpu.runqueue@.contains(p) {
                self.lemma_runqueue_members(p);
            }
        }
        self.procs[p].set(FlagBit::Running);
        self.cpu.process = Some(p);
        if self.procs[p].is(FlagBit::FastRet) {
            self.procs[p].unset(FlagBit::FastRet);
            let rax = self.procs[p].regs.rax;
            Exit::FastRet { pid: p, rax }
        } else {
            Exit::SlowRet { pid: p }
        }
    }

    /// Sets `p`'s syscall result and resumes it.
    pub fn syscall_return(&mut self, p: usize, rax: u64) -> (r: Exit)
        requires
            old(self).wf(),
            old(self).in_kernel(),
            p < old(self).procs@.len(),
            !old(self).procs@[p as int].spec_is(FlagBit::Queued),
            old(self).procs@[p as int].spec_ipc_state() == 0,
        ensures
            final(self).wf(),
            !final(self).procs@[p as int].spec_is(FlagBit::FastRet),
            final(self).con == old(self).con,
            final(self).exited(r),
            final(self).cpu.process == Some(p),
            final(self).handles@ == old(self).handles@,
            final(self).spaces@ == old(self).spaces@,
            final(self).cpu.runqueue == old(self).cpu.runqueue,
            final(self).cpu.irq_delayed == old(self).cpu.irq_delayed,
            final(self).cpu.irq_process == old(self).cpu.irq_process,
            final(self).cpu.memory == old(self).cpu.memory,
            final(self).kernel_pdp == old(self).kernel_pdp,
            final(self).procs@.len() == old(self).procs@.len(),
            forall|q: int| 0 <= q < final(self).procs@.len() && q != p ==> #[trigger] final(self).procs@[q] == old(self).procs@[q],
            final(self).procs@[p as int].regs == (Regs { rax, ..old(self).procs@[p as int].regs }),
            final(self).procs@[p as int] == (Process {
                flags: final(self).procs@[p as int].flags,
                regs: Regs { rax, ..old(self).procs@[p as int].regs },
                ..old(self).procs@[p as int]
            }),
            final(self).procs@[p as int].spec_ipc_state() == old(self).procs@[p as int].spec_ipc_state(),
            old(self).procs@[p as int].spec_is(FlagBit::FastRet) ==> r == (Exit::FastRet { pid: p, rax }),
            !old(self).procs@[p as int].spec_is(FlagBit::FastRet) ==> r == (Exit::SlowRet { pid: p }),
    {
        let mut regs = self.procs[p].regs;
        regs.rax = rax;
        self.set_regs(p, regs);
        self.switch_to(p)
    }

    /// Runs the process at the head of the run queue, or idles.
    pub fn run(&mut self) -> (r: Exit)
        requires
            old(self).wf(),
            old(self).in_kernel(),
        ensures
            final(self).wf(),
            final(self).exited(r),
            final(self).handles@ == old(self).handles@,
            final(self).spaces@ == old(self).spaces@,
            final(self).cpu.irq_delayed == old(self).cpu.irq_delayed,
            final(self).kernel_pdp == old(self).kernel_pdp,
            final(self).cpu.irq_process == old(self).cpu.irq_process,
            final(self).cpu.memory == old(self).cpu.memory,
            old(self).cpu.runqueue@.len() == 0 ==> r == Exit::Idle && final(self).cpu.runqueue@ == old(self).cpu.runqueue@,
            old(self).cpu.runqueue@.len() > 0 ==> final(self).cpu.process == Some(old(self).cpu.runqueue@[0])
                && final(self).cpu.runqueue@ == old(self).cpu.runqueue@.drop_first() && r != Exit::Idle,
            r is Halt ==> false,
            final(self).procs@.len() == old(self).procs@.len(),
            forall|q: int| 0 <= q < final(self).procs@.len() ==> {
                &&& (#[trigger] final(self).procs@[q]).spec_ipc_state() == old(self).procs@[q].spec_ipc_state()
                &&& final(self).procs@[q].regs == old(self).procs@[q].regs
                &&& final(self).procs@[q].waiting_for == old(self).procs@[q].waiting_for
                &&& final(self).procs@[q].waiters == old(self).procs@[q].waiters
                &&& final(self).procs@[q].pending == old(self).procs@[q].pending
                &&& final(self).procs@[q].aspace == old(self).procs@[q].aspace
                &&& final(self).procs@[q].fault_addr == old(self).procs@[q].fault_addr
                &&& (!old(self).procs@[q].spec_is(FlagBit::FastRet) ==> !final(self).procs@[q].spec_is(FlagBit::FastRet))
            },
    {
        match self.cpu.runqueue.pop() {
            Some(p) => {
                proof {
                    assert(old(self).cpu.runqueue@[0] == p);
                    let x = self.procs@[p as int].flags;
                    lemma_flag_ops(x, FlagBit::Queued, FlagBit::Queued);
                    lemma_flag_ops(x, FlagBit::Queued, FlagBit::Running);
                    assert(!self.cpu.runqueue@.contains(p)) by {
                        if self.cpu.runqueue@.contains(p) {
                            let k = choose|k: int| 0 <= k < self.cpu.runqueue@.len() && self.cpu.runqueue@[k] == p;
                            assert(old(self).cpu.runqueue@[k + 1] == p);
                        }
                    }
                    assert forall|k: int| 0 <= k < self.cpu.runqueue@.len() implies {
                        let x = #[trigger] self.cpu.runqueue@[k];
                        &&& x < self.procs@.len()
                        &&& self.procs@[x as int].spec_is(FlagBit::Queued)
                        &&& !self.procs@[x as int].spec_is(FlagBit::Running)
                    } by {
                        assert(self.cpu.runqueue@[k] == old(self).cpu.runqueue@[k + 1]);
                    }
                }
                self.procs[p].unset(FlagBit::Queued);
                proof {
                    lemma_flag_ops(old(self).procs@[p as int].flags, FlagBit::Queued, FlagBit::FastRet);
                    assert(self.procs@.len() == self.procs.len());
                    assert forall|q: int|
                        0 <= q < self.procs@.len() && (#[trigger] self.procs@[q]).spec_is(FlagBit::Queued) implies self.cpu.runqueue@.contains(
                        q as usize,
                    ) && self.procs@[q].spec_ipc_state() == 0 by {
                        assert(q != p);
                        assert(old(self).cpu.runqueue@.contains(q as usize));
                        let k = choose|k: int| 0 <= k < old(self).cpu.runqueue@.len() && old(self).cpu.runqueue@[k] == q as usize;
                        assert(k != 0);
                        assert(self.cpu.runqueue@[k - 1] == q as usize);
                    }
                }
                self.switch_to(p)
            },
            None => {
                self.cpu.process = None;
                Exit::Idle
            },
        }
    }

    /// On entry from user mode: the outgoing process stops running.
    pub fn leave_proc(&mut self)
        requires
            old(self).wf(),
        ensures
            final(self).wf(),
            final(self).in_kernel(),
            final(self).others_same(old(self)),
            match old(self).cpu.process {
                Some(c) => final(self).procs@ == old(self).procs@.update(
                    c as int,
                    Process { flags: old(self).procs@[c as int].flags & !FlagBit::Running.spec_mask(), ..old(self).procs@[c as int] },
                ),
                None => final(self).procs@ == old(self).procs@,
            },
    {
        proof {
            assert(self.procs@.len() == self.procs.len());
        }
        match self.cpu.process {
            Some(c) => {
                proof {
                    let x = self.procs@[c as int].flags;
                    lemma_flag_ops(x, FlagBit::Running, FlagBit::Queued);
                    lemma_flag_ops(x, FlagBit::Running, FlagBit::Running);
                    assert forall|q: int| 0 <= q < self.procs@.len() && q != c implies !(#[trigger] self.procs@[q]).spec_is(FlagBit::Running) by {
                        if self.procs@[q].spec_is(FlagBit::Running) {
                            assert(self.cpu.process == Some(q as usize));
                        }
                    }
                }
                self.procs[c].unset(FlagBit::Running);
            },
            None => {
                proof {
                    assert forall|q: int| 0 <= q < self.procs@.len() implies !(#[trigger] self.procs@[q]).spec_is(FlagBit::Running) by {
                        if self.procs@[q].spec_is(FlagBit::Running) {
                            assert(self.cpu.process == Some(q as usize));
                        }
                    }
                }
            },
        }
    }

    /// The CPU's current process.
    pub fn get_process(&self) -> (r: Option<usize>)
        ensures
            r == self.cpu.process,
    {
        self.cpu.process
    }

    /// The process that receives interrupts.
    pub fn irq_process(&self) -> (r: Option<usize>)
        ensures
            r == self.cpu.irq_process,
    {
        self.cpu.irq_process
    }

    pub fn is_irq_process(&self, p: usize) -> (r: bool)
        ensures
            r == (self.cpu.irq_process == Some(p)),
    {
        match self.cpu.irq_process {
            Some(q) => q == p,
            None => false,
        }
    }

    /// The live handle that process `p` holds under `id`.
    pub fn find_handle(&self, p: usize, id: u64) -> (r: Option<usize>)
        ensures
            r matches Some(i) ==> self.spec_find_handle(p, id) == Some(i as int) && i < self.handles@.len()
                && self.handles@[i as int].live && self.handles@[i as int].owner == p
                && self.handles@[i as int].id == id,
            r is None ==> self.spec_find_handle(p, id) is None,
    {
        let mut i: usize = 0;
        while i < self.handles.len()
            invariant
                i <= self.handles@.len(),
                handle_from(self.handles@, p, id, 0) == handle_from(self.handles@, p, id, i as int),
            decreases self.handles@.len() - i,
        {
            if self.handles[i].live && self.handles[i].owner == p && self.handles[i].id == id {
                return Some(i);
            }
            i = i + 1;
        }
        None
    }

    /// Unpairs handle `h`: neither it nor its former other side names the other.
    pub fn dissociate(&mut self, h: usize)
        requires
            old(self).wf(),
            h < old(self).handles@.len(),
        ensures
            final(self).wf(),
            final(self).procs@ == old(self).procs@,
            final(self).spaces@ == old(self).spaces@,
            final(self).cpu == old(self).cpu,
            final(self).kernel_pdp == old(self).kernel_pdp,
            final(self).handles@.len() == old(self).handles@.len(),
            final(self).handles@[h as int] == (Handle { other: None, ..old(self).handles@[h as int] }),
            old(self).handles@[h as int].other matches Some(g) ==> final(self).handles@[g as int] == (Handle {
                other: None,
                ..old(self).handles@[g as int]
            }),
            forall|i: int|
                0 <= i < final(self).handles@.len() && i != h && Some(i as usize) != old(self).handles@[h as int].other
                    ==> #[trigger] final(self).handles@[i] == old(self).handles@[i],
    {
        let mut a = self.handles[h];
        match a.dissociate() {
            Some(g) => {
                let mut b = self.handles[g];
                b.other = None;
                self.handles.set(g, b);
            },
            None => {},
        }
        self.handles.set(h, a);
    }

    /// Pairs two unpaired live handles with each other.
    pub fn associate(&mut self, a: usize, b: usize)
        requires
            old(self).wf(),
            a < old(self).handles@.len(),
            b < old(self).handles@.len(),
            a != b,
            old(self).handles@[a as int].live && old(self).handles@[b as int].live,
            old(self).handles@[a as int].other is None,
            old(self).handles@[b as int].other is None,
        ensures
            final(self).wf(),
            final(self).procs@ == old(self).procs@,
            final(self).spaces@ == old(self).spaces@,
            final(self).cpu == old(self).cpu,
            final(self).kernel_pdp == old(self).kernel_pdp,
            final(self).handles@ == old(self).handles@.update(
                a as int,
                Handle { other: Some(b), ..old(self).handles@[a as int] },
            ).update(b as int, Handle { other: Some(a), ..old(self).handles@[b as int] }),
    {
        let mut x = self.handles[a];
        let mut y = self.handles[b];
        x.associate(&mut y);
        self.handles.set(a, x);
        self.handles.set(b, y);
    }

    /// Deletes handle `h` of process `p`: unpairs it and drops its pending pulses.
    pub fn delete_handle(&mut self, p: usize, h: usize)
        requires
            old(self).wf(),
            p < old(self).procs@.len(),
            h < old(self).handles@.len(),
        ensures
            final(self).wf(),
            final(self).spaces@ == old(self).spaces@,
            final(self).cpu == old(self).cpu,
            final(self).kernel_pdp == old(self).kernel_pdp,
            final(self).handles@.len() == old(self).handles@.len(),
            !final(self).handles@[h as int].live,
            final(self).handles@[h as int].other is None,
            old(self).handles@[h as int].other matches Some(g) ==> final(self).handles@[g as int] == (Handle {
                other: None,
                ..old(self).handles@[g as int]
            }),
            final(self).handles@[h as int] == (Handle { other: None, live: false, ..old(self).handles@[h as int] }),
            final(self).procs@.len() == old(self).procs@.len(),
            forall|q: int| 0 <= q < final(self).procs@.len() && q != p ==> #[trigger] final(self).procs@[q] == old(self).procs@[q],
            final(self).procs@[p as int] == (Process { pending: final(self).procs@[p as int].pending, ..old(self).procs@[p as int] }),
            !final(self).procs@[p as int].pending@.contains(h),
            forall|i: int| 0 <= i < final(self).handles@.len() && i != h && Some(i as usize) != old(self).handles@[h as int].other
                ==> #[trigger] final(self).handles@[i] == old(self).handles@[i],
    {
        self.dissociate(h);
        self.procs[p].remove_pending_handle(h);
        let mut x = self.handles[h];
        x.live = false;
        self.handles.set(h, x);
        proof {
            assert forall|q: int, k: int|
                0 <= q < self.procs@.len() && 0 <= k < self.procs@[q].pending@.len() implies #[trigger] self.procs@[q].pending@[k]
                < self.handles@.len() by {
                if q == p {
                    let y = self.procs@[q].pending@[k];
                    assert(self.procs@[q].pending@.contains(y));
                    assert(old(self).procs@[q].pending@.contains(y));
                }
            }
        }
    }

    /// Renames handle `h` to `new_id`; a handle its owner held under
    /// `new_id` before is deleted.
    pub fn rename_handle(&mut self, h: usize, new_id: u64)
        requires
            old(self).wf(),
            h < old(self).handles@.len(),
        ensures
            final(self).wf(),
            final(self).spaces@ == old(self).spaces@,
            final(self).cpu == old(self).cpu,
            final(self).kernel_pdp == old(self).kernel_pdp,
            final(self).procs@.len() == old(self).procs@.len(),
            forall|q: int| 0 <= q < final(self).procs@.len() ==> (#[trigger] final(self).procs@[q]) == (Process {
                pending: final(self).procs@[q].pending,
                ..old(self).procs@[q]
            }),
            final(self).handles@.len() == old(self).handles@.len(),
            final(self).handles@[h as int].id == new_id,
            final(self).handles@[h as int].live == old(self).handles@[h as int].live,
            final(self).handles@[h as int].owner == old(self).handles@[h as int].owner,
            final(self).handles@[h as int].process == old(self).handles@[h as int].process,
            forall|i: int| 0 <= i < final(self).handles@.len() && i != h ==> (#[trigger] final(self).handles@[i]).id == old(
                self,
            ).handles@[i].id && final(self).handles@[i].owner == old(self).handles@[i].owner && final(self).handles@[i].process
                == old(self).handles@[i].process,
            old(self).handles@[h as int].live ==> final(self).spec_find_handle(old(self).handles@[h as int].owner, new_id) == Some(h as int),
            ({
                let found = old(self).spec_find_handle(old(self).handles@[h as int].owner, new_id);
                &&& (found is None || found == Some(h as int) || old(self).handles@[h as int].other != Some(found.unwrap() as usize))
                    ==> final(self).handles@[h as int] == (Handle { id: new_id, ..old(self).handles@[h as int] })
                &&& forall|i: int| 0 <= i < final(self).handles@.len() && i != h && Some(i) != found ==> (#[trigger] final(self).handles@[i]).live
                    == old(self).handles@[i].live
            }),
            ({
                let found = old(self).spec_find_handle(old(self).handles@[h as int].owner, new_id);
                found is Some && found.unwrap() != h ==> !final(self).handles@[found.unwrap()].live
                    && final(self).handles@[found.unwrap()].other is None
            }),
    {
        let owner = self.handles[h].owner;
        match self.find_handle(owner, new_id) {
            Some(x) => {
                if x != h {
                    self.delete_handle(owner, x);
                }
            },
            None => {},
        }
        let ghost mid = self.handles@;
        let mut hh = self.handles[h];
        hh.id = new_id;
        self.handles.set(h, hh);
        proof {
            lemma_handle_from_bounds(mid, owner, new_id, 0);
            if self.handles@[h as int].live {
                self.lemma_find_handle(owner, new_id, h as int);
            }
        }
    }

    /// Gives process `p` a fresh handle `id` to process `other`, replacing
    /// (and deleting) the handle it held under that id.
    pub fn new_handle(&mut self, p: usize, id: u64, other: usize) -> (r: usize)
        requires
            old(self).wf(),
            p < old(self).procs@.len(),
            other < old(self).procs@.len(),
            old(self).handles@.len() < usize::MAX,
        ensures
            final(self).wf(),
            final(self).spaces@ == old(self).spaces@,
            final(self).cpu == old(self).cpu,
            final(self).kernel_pdp == old(self).kernel_pdp,
            r == old(self).handles@.len(),
            final(self).handles@.len() == r + 1,
            final(self).handles@[r as int] == fresh_handle(r, id, p, other),
            final(self).procs@.len() == old(self).procs@.len(),
            forall|q: int| 0 <= q < final(self).procs@.len() && q != p ==> #[trigger] final(self).procs@[q] == old(self).procs@[q],
            final(self).procs@[p as int] == (Process { pending: final(self).procs@[p as int].pending, ..old(self).procs@[p as int] }),
            old(self).spec_find_handle(p, id) is None ==> final(self).procs@ == old(self).procs@ && final(self).handles@
                == old(self).handles@.push(fresh_handle(r, id, p, other)),
            forall|i: int| 0 <= i < old(self).handles@.len() && (old(self).handles@[i].owner != p || old(self).handles@[i].id != id) && old(self).handles@[i].other is None
                ==> #[trigger] final(self).handles@[i] == old(self).handles@[i],
            forall|i: int| 0 <= i < old(self).handles@.len() && (#[trigger] old(self).handles@[i]).other is None
                ==> final(self).handles@[i].other is None,
            final(self).spec_find_handle(p, id) == Some(r as int),
            forall|i: int| 0 <= i < old(self).handles@.len() && !(#[trigger] old(self).handles@[i]).live ==> !final(self).handles@[i].live,
            forall|i: int| 0 <= i < old(self).handles@.len() && (#[trigger] old(self).handles@[i]).live && !(old(self).handles@[i].owner == p && old(self).handles@[i].id == id)
                ==> final(self).handles@[i].live && final(self).handles@[i].owner == old(self).handles@[i].owner && final(self).handles@[i].id == old(self).handles@[i].id,
            old(self).spec_find_handle(p, id) matches Some(x) ==> !final(self).handles@[x].live && final(self).handles@[x].other
                is None && (old(self).handles@[x].other matches Some(y) ==> final(self).handles@[y as int].other is None),
    {
        match self.find_handle(p, id) {
            Some(h) => {
                self.delete_handle(p, h);
            },
            None => {},
        }
        let ghost mid = self.handles@;
        proof {
            lemma_handle_from_bounds(old(self).handles@, p, id, 0);
            assert forall|j: int| 0 <= j < mid.len() implies !(#[trigger] mid[j].live && mid[j].owner == p && mid[j].id == id) by {
                if mid[j].live && mid[j].owner == p && mid[j].id == id {
                    assert(old(self).handles@[j].live && old(self).handles@[j].owner == p && old(self).handles@[j].id == id);
                }
            }
        }
        let slot = self.handles.len();
        self.handles.push(Handle::new(slot, id, p, other));
        proof {
            self.lemma_find_handle(p, id, slot as int);
        }
        slot
    }

    /// Creates handle `id` in `p` to `q` and handle `qid` in `q` to `p`, and
    /// pairs them.
    pub fn assoc_handles(&mut self, p: usize, id: u64, q: usize, qid: u64)
        requires
            old(self).wf(),
            p < old(self).procs@.len(),
            q < old(self).procs@.len(),
            old(self).handles@.len() < usize::MAX - 1,
        ensures
            final(self).wf(),
            final(self).spaces@ == old(self).spaces@,
            final(self).cpu == old(self).cpu,
            final(self).procs@.len() == old(self).procs@.len(),
            final(self).handles@.len() == old(self).handles@.len() + 2,
            forall|x: int| 0 <= x < final(self).procs@.len() ==> (#[trigger] final(self).procs@[x]) == (Process {
                pending: final(self).procs@[x].pending,
                ..old(self).procs@[x]
            }),
            final(self).spaces@ == old(self).spaces@,
            p != q || id != qid ==> final(self).spec_find_handle(p, id) == Some(old(self).handles@.len() as int)
                && final(self).spec_find_handle(q, qid) == Some(old(self).handles@.len() as int + 1),
            old(self).spec_find_handle(p, id) matches Some(x0) ==> !final(self).handles@[x0].live,
            (p != q || id != qid) && old(self).spec_find_handle(q, qid) is Some ==> !final(self).handles@[old(
                self,
            ).spec_find_handle(q, qid).unwrap()].live,
            (p != q || id != qid) && old(self).spec_find_handle(p, id) is None && old(self).spec_find_handle(q, qid) is None
                ==> forall|i: int| 0 <= i < old(self).handles@.len() ==> #[trigger] final(self).handles@[i] == old(self).handles@[i],
            p != q || id != qid ==> {
                let x = old(self).handles@.len() as int;
                &&& final(self).handles@[x] == (Handle { other: Some((x + 1) as usize), ..fresh_handle(x as usize, id, p, q) })
                &&& final(self).handles@[x + 1] == (Handle { other: Some(x as usize), ..fresh_handle((x + 1) as usize, qid, q, p) })
            },
    {
        let x = self.new_handle(p, id, q);
        let ghost mid = *self;
        proof {
            lemma_handle_from_bounds(old(self).handles@, q, qid, 0);
            lemma_handle_from_bounds(old(self).handles@, p, id, 0);
            if let Some(x0) = old(self).spec_find_handle(p, id) {
                assert(!mid.handles@[x0].live);
            }
            if p != q || id != qid {
                if let Some(y0) = old(self).spec_find_handle(q, qid) {
                    mid.lemma_find_handle(q, qid, y0);
                }
                if old(self).spec_find_handle(p, id) is None && old(self).spec_find_handle(q, qid) is None {
                    lemma_handle_from_bounds(mid.handles@, q, qid, 0);
                    if let Some(j) = mid.spec_find_handle(q, qid) {
                        if j < old(self).handles@.len() {
                            assert(mid.handles@[j] == old(self).handles@[j]);
                        }
                    }
                    assert(mid.spec_find_handle(q, qid) is None);
                }
            }
        }
        let y = self.new_handle(q, qid, p);
        if self.handles[x].live {
            self.associate(x, y);
        }
        proof {
            if let Some(x0) = old(self).spec_find_handle(p, id) {
                assert(!self.handles@[x0].live);
            }
            if p != q || id != qid {
                assert(self.handles@[x as int].live && self.handles@[x as int].owner == p && self.handles@[x as int].id == id);
                self.lemma_find_handle(p, id, x as int);
                self.lemma_find_handle(q, qid, y as int);
            }
        }
    }

    /// Blocks `w` on `p`, unless `w` is blocked on some process already.
    pub fn add_waiter(&mut self, p: usize, w: usize)
        requires
            old(self).wf(),
            p < old(self).procs@.len(),
            w < old(self).procs@.len(),
        ensures
            final(self).wf(),
            final(self).others_same(old(self)),
            final(self).procs@.len() == old(self).procs@.len(),
            old(self).procs@[w as int].waiting_for is Some ==> final(self).procs@ == old(self).procs@,
            old(self).procs@[w as int].waiting_for is None ==> {
                &&& final(self).procs@[w as int].waiting_for == Some(p)
                &&& final(self).procs@[p as int].waiters@ == old(self).procs@[p as int].waiters@.push(w)
            },
            forall|q: int| 0 <= q < final(self).procs@.len() ==> (#[trigger] final(self).procs@[q]).flags == old(self).procs@[q].flags
                && final(self).procs@[q].regs == old(self).procs@[q].regs && final(self).procs@[q].pending == old(self).procs@[q].pending
                && final(self).procs@[q].fault_addr == old(self).procs@[q].fault_addr,
    {
        if self.procs[w].waiting_for.is_none() {
            proof {
                assert(!self.procs@[p as int].waiters@.contains(w));
            }
            self.procs[p].waiters.append(w);
            self.procs[w].set_waiting_for(Some(p));
            proof {
                assert forall|x: int, k: int|
                    0 <= x < self.procs@.len() && 0 <= k < self.procs@[x].waiters@.len() implies {
                        let v = #[trigger] self.procs@[x].waiters@[k];
                        &&& v < self.procs@.len()
                        &&& self.procs@[v as int].waiting_for == Some(x as usize)
                    } by {
                    if x == p && k == self.procs@[x].waiters@.len() - 1 {
                    } else {
                        assert(self.procs@[x].waiters@[k] == old(self).procs@[x].waiters@[k]);
                    }
                }
                assert forall|v: int|
                    0 <= v < self.procs@.len() && (#[trigger] self.procs@[v]).waiting_for is Some implies {
                        let x = self.procs@[v].waiting_for.unwrap();
                        &&& x < self.procs@.len()
                        &&& self.procs@[x as int].waiters@.contains(v as usize)
                    } by {
                    let x = self.procs@[v].waiting_for.unwrap();
                    if v != w {
                        let k = choose|k: int| 0 <= k < old(self).procs@[x as int].waiters@.len() && old(self).procs@[x as int].waiters@[k] == v as usize;
                        assert(self.procs@[x as int].waiters@[k] == v as usize);
                    } else {
                        assert(self.procs@[p as int].waiters@[self.procs@[p as int].waiters@.len() - 1] == w);
                    }
                }
            }
        }
    }

    /// Unblocks `w` from `p`, if it is blocked on `p`.
    pub fn remove_waiter(&mut self, p: usize, w: usize)
        requires
            old(self).wf(),
            p < old(self).procs@.len(),
            w < old(self).procs@.len(),
        ensures
            final(self).wf(),
            final(self).others_same(old(self)),
            final(self).procs@.len() == old(self).procs@.len(),
            old(self).procs@[w as int].waiting_for != Some(p) ==> final(self).procs@ == old(self).procs@,
            old(self).procs@[w as int].waiting_for == Some(p) ==> {
                &&& final(self).procs@[w as int].waiting_for is None
                &&& !final(self).procs@[p as int].waiters@.contains(w)
                &&& final(self).procs@[p as int].waiters@ == old(self).procs@[p as int].waiters@.filter(|x: usize| x != w)
            },
            !final(self).procs@[p as int].waiters@.contains(w) || final(self).procs@[w as int].waiting_for != Some(p),
            forall|q: int| 0 <= q < final(self).procs@.len() && q != p ==> (#[trigger] final(self).procs@[q]).waiters == old(self).procs@[q].waiters,
            forall|q: int| 0 <= q < final(self).procs@.len() ==> (#[trigger] final(self).procs@[q]).flags == old(self).procs@[q].flags
                && final(self).procs@[q].regs == old(self).procs@[q].regs && final(self).procs@[q].pending == old(self).procs@[q].pending
                && final(self).procs@[q].fault_addr == old(self).procs@[q].fault_addr,
    {
        if self.procs[w].waiting_for == Some(p) {
            self.procs[p].waiters.remove(w);
            self.procs[w].set_waiting_for(None);
            proof {
                assert(self.procs@.len() == self.procs.len());
                assert forall|x: int, k: int|
                    0 <= x < self.procs@.len() && 0 <= k < self.procs@[x].waiters@.len() implies {
                        let v = #[trigger] self.procs@[x].waiters@[k];
                        &&& v < self.procs@.len()
                        &&& self.procs@[v as int].waiting_for == Some(x as usize)
                    } by {
                    let v = self.procs@[x].waiters@[k];
                    if x == p {
                        assert(self.procs@[x].waiters@.contains(v));
                        assert(v != w);
                        assert(old(self).procs@[x].waiters@.contains(v));
                        let k2 = choose|k2: int| 0 <= k2 < old(self).procs@[x].waiters@.len() && old(self).procs@[x].waiters@[k2] == v;
                        assert(old(self).procs@[v as int].waiting_for == Some(x as usize));
                        assert(self.procs@[v as int].waiting_for == old(self).procs@[v as int].waiting_for);
                    } else {
                        assert(self.procs@[x].waiters@[k] == old(self).procs@[x].waiters@[k]);
                        if v == w {
                            assert(old(self).procs@[w as int].waiting_for == Some(x as usize));
                        }
                    }
                }
                assert forall|v: int|
                    0 <= v < self.procs@.len() && (#[trigger] self.procs@[v]).waiting_for is Some implies {
                        let x = self.procs@[v].waiting_for.unwrap();
                        &&& x < self.procs@.len()
                        &&& self.procs@[x as int].waiters@.contains(v as usize)
                    } by {
                    let x = self.procs@[v].waiting_for.unwrap();
                    assert(v != w);
                    assert(old(self).procs@[x as int].waiters@.contains(v as usize));
                    if x != p {
                        let k = choose|k: int| 0 <= k < old(self).procs@[x as int].waiters@.len() && old(self).procs@[x as int].waiters@[k] == v as usize;
                        assert(self.procs@[x as int].waiters@[k] == v as usize);
                    }
                }
            }
        }
    }
}

impl Kernel {
    /// Installs at page `vaddr` of space `a` a backing with access `prot`
    /// on the page of sharing `share`, and lists it among the sharing's
    /// observers. A page that already has a backing keeps it.
    pub fn add_shared_backing(&mut self, a: usize, vaddr: u64, prot: u8, share: SharingRef) -> (r: Result<
        Backing,
        BackingError,
    >)
        requires
            old(self).wf(),
            a < old(self).spaces@.len(),
            vaddr & 0xfff == 0,
            share.aspace < old(self).spaces@.len(),
            old(self).spaces@[share.aspace as int].sharing_map().contains_key(share.vaddr),
        ensures
            final(self).wf(),
            final(self).procs@ == old(self).procs@,
            final(self).handles@ == old(self).handles@,
            final(self).cpu == old(self).cpu,
            final(self).con == old(self).con,
            final(self).kernel_pdp == old(self).kernel_pdp,
            final(self).spaces@.len() == old(self).spaces@.len(),
            backing_at(old(self).spaces@[a as int].backing_map(), vaddr) is Some ==> r == Err::<Backing, BackingError>(
                BackingError::AlreadyBacked,
            ) && final(self).spaces@ == old(self).spaces@,
            backing_at(old(self).spaces@[a as int].backing_map(), vaddr) is None ==> {
                let sh = old(self).spaces@[share.aspace as int].sharing_map()[share.vaddr];
                let b = Backing { key: vaddr | (prot as u64), phys: sh.paddr, parent: Some(share) };
                let nsh = final(self).spaces@[share.aspace as int].sharing_map()[share.vaddr];
                &&& r == Ok::<Backing, BackingError>(b)
                &&& b.spec_vaddr() == vaddr
                &&& b.spec_flags() == prot
                &&& final(self).spaces@[a as int].backing_map().contains_key(b.key)
                &&& final(self).spaces@[a as int].backing_map()[b.key] == b
                &&& nsh.children@ == sh.children@.push(BackingRef { aspace: a, key: b.key })
                &&& nsh.paddr == sh.paddr
                &&& nsh.vaddr == sh.vaddr
                &&& nsh.aspace == sh.aspace
                &&& final(self).spaces@[share.aspace as int].sharing_map().dom() == old(self).spaces@[share.aspace as int].sharing_map().dom()
                &&& forall|k: u64| k != share.vaddr && #[trigger] old(self).spaces@[share.aspace as int].sharing_map().contains_key(k)
                    ==> final(self).spaces@[share.aspace as int].sharing_map()[k] == old(self).spaces@[share.aspace as int].sharing_map()[k]
                &&& a != share.aspace ==> final(self).spaces@[share.aspace as int].backing_map() == old(self).spaces@[share.aspace as int].backing_map()
                    && final(self).spaces@[a as int].sharing_map() == old(self).spaces@[a as int].sharing_map()
                &&& forall|x: int| 0 <= x < final(self).spaces@.len() && x != a && x != share.aspace ==> #[trigger] final(self).spaces@[x]
                    == old(self).spaces@[x]
            },
    {
        let paddr = match self.spaces[share.aspace].sharing_paddr(share.vaddr) {
            Some(pa) => pa,
            None => return Err(BackingError::NoMapping),
        };
        if self.spaces[a].find_backing(vaddr).is_some() {
            return Err(BackingError::AlreadyBacked);
        }
        let ghost k0 = *self;
        let b = match self.spaces[a].add_shared_backing(vaddr, prot, share, paddr) {
            Ok(b) => b,
            Err(e) => return Err(e),
        };
        let ghost k1 = *self;
        let child = BackingRef { aspace: a, key: b.key };
        self.spaces[share.aspace].add_sharing_child(share.vaddr, child);
        proof {
            crate::aspace::lemma_backing_key(vaddr, prot);
            let sv = share.vaddr;
            let sa = share.aspace as int;
            assert(self.spaces@[a as int].backing_map() == k1.spaces@[a as int].backing_map());
            assert forall|s: int, k: u64, c: int|
                0 <= s < self.spaces@.len() && #[trigger] self.spaces@[s].sharing_map().contains_key(k) && 0 <= c
                    < self.spaces@[s].sharing_map()[k].children@.len() implies {
                    let r = #[trigger] self.spaces@[s].sharing_map()[k].children@[c];
                    &&& r.aspace < self.spaces@.len()
                    &&& self.spaces@[r.aspace as int].backing_map().contains_key(r.key)
                    &&& self.spaces@[r.aspace as int].backing_map()[r.key].parent == Some(
                        SharingRef { aspace: s as usize, vaddr: k },
                    )
                    &&& self.spaces@[r.aspace as int].backing_map()[r.key].phys == self.spaces@[s].sharing_map()[k].paddr
                } by {
                if s == sa && k == sv && c == k1.spaces@[s].sharing_map()[k].children@.len() {
                    k0.spaces@[sa].lemma_keys();
                } else {
                    assert(k0.spaces@[s].sharing_map().contains_key(k));
                    assert(self.spaces@[s].sharing_map()[k].children@[c] == k0.spaces@[s].sharing_map()[k].children@[c]);
                    let r = k0.spaces@[s].sharing_map()[k].children@[c];
                    assert(k0.spaces@[r.aspace as int].backing_map().contains_key(r.key));
                }
            }
            assert forall|s: int, k: u64|
                0 <= s < self.spaces@.len() && #[trigger] self.spaces@[s].backing_map().contains_key(k) && self.spaces@[s].backing_map()[k].parent
                    is Some implies {
                    let sr = self.spaces@[s].backing_map()[k].parent.unwrap();
                    &&& sr.aspace < self.spaces@.len()
                    &&& self.spaces@[sr.aspace as int].sharing_map().contains_key(sr.vaddr)
                    &&& self.spaces@[s].backing_map()[k].phys == self.spaces@[sr.aspace as int].sharing_map()[sr.vaddr].paddr
                    &&& self.spaces@[sr.aspace as int].sharing_map()[sr.vaddr].children@.contains(BackingRef { aspace: s as usize, key: k })
                } by {
                if s == a && k == b.key {
                    assert(self.spaces@[sa].sharing_map()[sv].children@.last() == child);
                } else {
                    assert(k0.spaces@[s].backing_map().contains_key(k));
                    let sr = k0.spaces@[s].backing_map()[k].parent.unwrap();
                    let old_ch = k0.spaces@[sr.aspace as int].sharing_map()[sr.vaddr].children@;
                    let t = BackingRef { aspace: s as usize, key: k };
                    let j = choose|j: int| 0 <= j < old_ch.len() && old_ch[j] == t;
                    assert(self.spaces@[sr.aspace as int].sharing_map()[sr.vaddr].children@[j] == t);
                }
            }
        }
        Ok(b)
    }
}

} // verus!
