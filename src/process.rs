//! Processes and the handles that connect them.
use vstd::prelude::*;
use crate::dlist::DList;

verus! {

pub type Flags = u8;

/// The state bits of a process.
#[derive(Clone, Copy, PartialEq, Eq, Structural, Debug)]
pub enum FlagBit {
    /// On the run queue.
    Queued,
    /// Can return to user mode restoring only rsp, rip, rflags and rax.
    FastRet,
    /// Waiting to receive; the saved rdi holds the handle received from.
    InRecv,
    /// Trying to send; the saved rdi holds the handle sent to.
    InSend,
    /// Currently executing.
    Running,
    /// Waiting for a backer to grant the page at `fault_addr`.
    PFault,
}

impl FlagBit {
    pub open spec fn spec_mask(self) -> Flags {
        match self {
            FlagBit::Queued => 1,
            FlagBit::FastRet => 2,
            FlagBit::InRecv => 4,
            FlagBit::InSend => 8,
            FlagBit::Running => 16,
            FlagBit::PFault => 32,
        }
    }

    /// The flag's bit in a flag set.
    pub fn mask(self) -> (r: Flags)
        ensures
            r == self.spec_mask(),
    {
        match self {
            FlagBit::Queued => 1,
            FlagBit::FastRet => 2,
            FlagBit::InRecv => 4,
            FlagBit::InSend => 8,
            FlagBit::Running => 16,
            FlagBit::PFault => 32,
        }
    }
}

/// The bits that make up a process's IPC state.
pub const IPC_BITS: Flags = 44;

/// Flag `f` is set in `flags`.
pub open spec fn has_flag(flags: Flags, f: FlagBit) -> bool {
    flags & f.spec_mask() != 0
}

/// Setting or clearing one flag leaves the others as they were.
pub proof fn lemma_flag_ops(x: Flags, a: FlagBit, b: FlagBit)
    ensures
        has_flag(x | a.spec_mask(), b) == (a == b || has_flag(x, b)),
        has_flag(x & !a.spec_mask(), b) == (a != b && has_flag(x, b)),
        (x | a.spec_mask()) & IPC_BITS == 0 ==> a != FlagBit::InRecv && a != FlagBit::InSend && a
            != FlagBit::PFault,
        ((x | a.spec_mask()) & IPC_BITS == 0) == (x & IPC_BITS == 0 && a != FlagBit::InRecv && a
            != FlagBit::InSend && a != FlagBit::PFault),
        ((x & !a.spec_mask()) & IPC_BITS == 0) == (x & IPC_BITS == 0 || (x & IPC_BITS
            == a.spec_mask())),
        ((x & !a.spec_mask()) & IPC_BITS) == (if a == FlagBit::InRecv || a == FlagBit::InSend || a
            == FlagBit::PFault {
            (x & IPC_BITS) & !a.spec_mask()
        } else {
            x & IPC_BITS
        }),
        ((x | a.spec_mask()) & IPC_BITS) == (if a == FlagBit::InRecv || a == FlagBit::InSend || a
            == FlagBit::PFault {
            (x & IPC_BITS) | a.spec_mask()
        } else {
            x & IPC_BITS
        }),
{
    let ma = a.spec_mask();
    let mb = b.spec_mask();
    let same = a == b;
    let ipc = a == FlagBit::InRecv || a == FlagBit::InSend || a == FlagBit::PFault;
    assert(((x | ma) & mb != 0) == (same || x & mb != 0) && ((x & !ma) & mb != 0) == (!same && x & mb
        != 0)) by (bit_vector)
        requires
            ma == 1 || ma == 2 || ma == 4 || ma == 8 || ma == 16 || ma == 32,
            mb == 1 || mb == 2 || mb == 4 || mb == 8 || mb == 16 || mb == 32,
            same == (ma == mb),
    ;
    assert(((x | ma) & 44 == 0) == (x & 44 == 0 && !ipc) && ((x & !ma) & 44 == 0) == (x & 44 == 0 || (
    x & 44 == ma)) && ((x & !ma) & 44) == (if ipc {
        (x & 44) & !ma
    } else {
        x & 44
    }) && ((x | ma) & 44) == (if ipc {
        (x & 44) | ma
    } else {
        x & 44
    })) by (bit_vector)
        requires
            ma == 1 || ma == 2 || ma == 4 || ma == 8 || ma == 16 || ma == 32,
            ipc == (ma == 4 || ma == 8 || ma == 32),
    ;
}

/// The IPC flags are read off the IPC state alone.
pub proof fn lemma_ipc_bits(x: Flags)
    ensures
        has_flag(x, FlagBit::InRecv) == ((x & IPC_BITS) & 4 != 0),
        has_flag(x, FlagBit::InSend) == ((x & IPC_BITS) & 8 != 0),
        has_flag(x, FlagBit::PFault) == ((x & IPC_BITS) & 32 != 0),
        (x & IPC_BITS == 4) ==> !has_flag(x, FlagBit::InSend) && has_flag(x, FlagBit::InRecv),
        (x & IPC_BITS == 0) ==> !has_flag(x, FlagBit::InSend) && !has_flag(x, FlagBit::InRecv)
            && !has_flag(x, FlagBit::PFault),
{
    assert(((x & 4) != 0) == ((x & 44) & 4 != 0) && ((x & 8) != 0) == ((x & 44) & 8 != 0) && ((x & 32)
        != 0) == ((x & 44) & 32 != 0) && ((x & 44 == 4) ==> (x & 8 == 0 && x & 4 != 0)) && ((x & 44
        == 0) ==> (x & 8 == 0 && x & 4 == 0 && x & 32 == 0))) by (bit_vector);
}

/// A process's saved user registers.
#[derive(Clone, Copy)]
pub struct Regs {
    pub rax: u64,
    pub rcx: u64,
    pub rdx: u64,
    pub rbx: u64,
    pub rsp: u64,
    pub rbp: u64,
    pub rsi: u64,
    pub rdi: u64,
    pub r8: u64,
    pub r9: u64,
    pub r10: u64,
    pub r11: u64,
    pub r12: u64,
    pub r13: u64,
    pub r14: u64,
    pub r15: u64,
}

impl Regs {
    pub fn zero() -> (r: Regs)
        ensures
            r.rax == 0 && r.rdi == 0 && r.rsi == 0 && r.rdx == 0 && r.rsp == 0,
    {
        Regs {
            rax: 0,
            rcx: 0,
            rdx: 0,
            rbx: 0,
            rsp: 0,
            rbp: 0,
            rsi: 0,
            rdi: 0,
            r8: 0,
            r9: 0,
            r10: 0,
            r11: 0,
            r12: 0,
            r13: 0,
            r14: 0,
            r15: 0,
        }
    }
}

/// One end of a channel between two processes. Handles live in one table
/// for the whole system; `slot` is this handle's place in it.
#[derive(Clone, Copy)]
pub struct Handle {
    pub slot: usize,
    /// The id by which the owning process names this handle.
    pub id: u64,
    /// The process that holds this handle.
    pub owner: usize,
    /// The process at the other end.
    pub process: usize,
    /// The paired handle in the other process, if the pair is made.
    pub other: Option<usize>,
    pub pulses: u64,
    /// False once the handle is deleted.
    pub live: bool,
}

/// A live, unpaired handle with no pulses.
pub open spec fn fresh_handle(slot: usize, id: u64, owner: usize, process: usize) -> Handle {
    Handle { slot, id, owner, process, other: None, pulses: 0, live: true }
}

impl Handle {
    pub fn new(slot: usize, id: u64, owner: usize, process: usize) -> (h: Handle)
        ensures
            h == fresh_handle(slot, id, owner, process),
    {
        Handle { slot, id, owner, process, other: None, pulses: 0, live: true }
    }

    pub fn id(&self) -> (r: u64)
        ensures
            r == self.id,
    {
        self.id
    }

    pub fn process(&self) -> (r: usize)
        ensures
            r == self.process,
    {
        self.process
    }

    pub fn other(&self) -> (r: Option<usize>)
        ensures
            r == self.other,
    {
        self.other
    }

    /// Pairs this handle with `other`, each naming the other.
    pub fn associate(&mut self, other: &mut Handle)
        ensures
            *final(self) == (Handle { other: Some(old(other).slot), ..*old(self) }),
            *final(other) == (Handle { other: Some(old(self).slot), ..*old(other) }),
    {
        self.other = Some(other.slot);
        other.other = Some(self.slot);
    }

    /// Drops this side of the pair and returns the handle it was paired with;
    /// the caller clears that handle's side.
    pub fn dissociate(&mut self) -> (r: Option<usize>)
        ensures
            r == old(self).other,
            *final(self) == (Handle { other: None, ..*old(self) }),
    {
        let r = self.other;
        self.other = None;
        r
    }

    /// Adds pulses and returns the pulses held before.
    pub fn add_pulses(&mut self, pulses: u64) -> (r: u64)
        ensures
            r == old(self).pulses,
            *final(self) == (Handle { pulses: old(self).pulses | pulses, ..*old(self) }),
    {
        let res = self.pulses;
        self.pulses = self.pulses | pulses;
        res
    }

    /// Takes the pulses held, leaving none.
    pub fn pop_pulses(&mut self) -> (r: u64)
        ensures
            r == old(self).pulses,
            *final(self) == (Handle { pulses: 0, ..*old(self) }),
    {
        let res = self.pulses;
        self.pulses = 0;
        res
    }
}

/// The IF bit of rflags: interrupts enabled.
pub const RFLAGS_IF: u64 = 0x200;

pub struct Process {
    pub regs: Regs,
    pub rip: u64,
    pub rflags: u64,
    /// Physical address of the root page table.
    pub cr3: u64,
    pub flags: Flags,
    /// The process this one is blocked on, if any.
    pub waiting_for: Option<usize>,
    /// Processes blocked on this one, oldest first.
    pub waiters: DList,
    pub aspace: usize,
    /// Handles (by slot) holding pulses for this process.
    pub pending: DList,
    /// The page that faulted, while `PFault` is set.
    pub fault_addr: u64,
}

impl Process {
    pub open spec fn spec_flags(&self) -> Flags {
        self.flags
    }

    pub open spec fn spec_is(&self, f: FlagBit) -> bool {
        has_flag(self.spec_flags(), f)
    }

    pub open spec fn spec_ipc_state(&self) -> Flags {
        self.spec_flags() & IPC_BITS
    }

    pub open spec fn spec_waiting_for(&self) -> Option<usize> {
        self.waiting_for
    }

    pub open spec fn spec_aspace(&self) -> usize {
        self.aspace
    }

    pub open spec fn spec_pending(&self) -> Seq<usize> {
        self.pending@
    }

    pub open spec fn wf(&self) -> bool {
        &&& self.waiters.wf()
        &&& self.spec_pending().no_duplicates()
    }

    /// A process in address space `aspace`, whose root table is at `cr3`,
    /// that will return to user mode the fast way with interrupts enabled.
    pub fn new(aspace: usize, cr3: u64) -> (p: Process)
        ensures
            p.wf(),
            p.spec_flags() == FlagBit::FastRet.spec_mask(),
            p.spec_aspace() == aspace,
            p.cr3 == cr3,
            p.rflags == RFLAGS_IF,
            p.spec_waiting_for() is None,
            p.waiters@ == Seq::<usize>::empty(),
            p.spec_pending() == Seq::<usize>::empty(),
            p.regs.rdi == 0 && p.regs.rax == 0,
    {
        Process {
            regs: Regs::zero(),
            rip: 0,
            rflags: RFLAGS_IF,
            cr3,
            flags: FlagBit::FastRet.mask(),
            waiting_for: None,
            waiters: DList::empty(),
            aspace,
            pending: DList::empty(),
            fault_addr: 0,
        }
    }

    pub fn regs(&self) -> (r: Regs)
        ensures
            r == self.regs,
    {
        self.regs
    }

    pub fn is(&self, f: FlagBit) -> (r: bool)
        ensures
            r == self.spec_is(f),
    {
        self.flags & f.mask() != 0
    }

    pub fn ipc_state(&self) -> (r: Flags)
        ensures
            r == self.spec_ipc_state(),
    {
        self.flags & IPC_BITS
    }

    pub fn set(&mut self, f: FlagBit)
        ensures
            *final(self) == (Process { flags: old(self).flags | f.spec_mask(), ..*old(self) }),
            final(self).spec_flags() == old(self).spec_flags() | f.spec_mask(),
    {
        self.flags = self.flags | f.mask();
    }

    pub fn unset(&mut self, f: FlagBit)
        ensures
            *final(self) == (Process { flags: old(self).flags & !f.spec_mask(), ..*old(self) }),
            final(self).spec_flags() == old(self).spec_flags() & !f.spec_mask(),
    {
        self.flags = self.flags & !f.mask();
    }

    pub fn is_queued(&self) -> (r: bool)
        ensures
            r == self.spec_is(FlagBit::Queued),
    {
        self.is(FlagBit::Queued)
    }

    /// No IPC operation is in progress.
    pub fn is_runnable(&self) -> (r: bool)
        ensures
            r == (self.spec_ipc_state() == 0),
    {
        self.ipc_state() == 0
    }

    pub fn aspace(&self) -> (r: usize)
        ensures
            r == self.spec_aspace(),
    {
        self.aspace
    }

    pub fn waiting_for(&self) -> (r: Option<usize>)
        ensures
            r == self.spec_waiting_for(),
    {
        self.waiting_for
    }

    /// Notes that handle `slot` holds pulses for this process.
    pub fn add_pending_handle(&mut self, slot: usize)
        requires
            old(self).wf(),
        ensures
            final(self).wf(),
            old(self).spec_pending().contains(slot) ==> final(self).spec_pending() == old(self).spec_pending(),
            !old(self).spec_pending().contains(slot) ==> final(self).spec_pending() == old(
                self,
            ).spec_pending().push(slot),
            *final(self) == (Process { pending: final(self).pending, ..*old(self) }),
    {
        if !self.pending.contains(slot) {
            self.pending.append(slot);
        }
    }

    /// Takes one handle off the pending set.
    pub fn pop_pending_handle(&mut self) -> (r: Option<usize>)
        requires
            old(self).wf(),
        ensures
            final(self).wf(),
            old(self).spec_pending().len() == 0 ==> r is None && final(self).spec_pending() == old(
                self,
            ).spec_pending(),
            old(self).spec_pending().len() > 0 ==> r == Some(old(self).spec_pending()[0])
                && final(self).spec_pending() == old(self).spec_pending().drop_first(),
            *final(self) == (Process { pending: final(self).pending, ..*old(self) }),
    {
        self.pending.pop()
    }

    /// Drops handle `slot` from the pending set.
    pub fn remove_pending_handle(&mut self, slot: usize)
        requires
            old(self).wf(),
        ensures
            final(self).wf(),
            !final(self).spec_pending().contains(slot),
            forall|x: usize| x != slot ==> (final(self).spec_pending().contains(x) <==> old(
                self,
            ).spec_pending().contains(x)),
            *final(self) == (Process { pending: final(self).pending, ..*old(self) }),
    {
        self.pending.remove(slot);
    }

    /// Records whom this process is blocked on.
    pub fn set_waiting_for(&mut self, w: Option<usize>)
        ensures
            *final(self) == (Process { waiting_for: w, ..*old(self) }),
            final(self).spec_waiting_for() == w,
    {
        self.waiting_for = w;
    }
}

} // verus!
