//! The IPC engine and the system-call dispatcher: rendezvous send and
//! receive, pulses, page faults served by other processes, and grants.
use vstd::prelude::*;
use crate::aspace::{BackingRef, PAGE_MASK, lemma_page_bits, SharingRef, backing_at, card_flags, lemma_backing_key, effective_card, map_range_spec, needs_frame, new_backing};
use crate::con::put;
use crate::kernel::{Exit, Fault, Kernel, PortOp, lemma_handle_from_bounds};
use crate::mapflag::{DMA, Phys, R, RWX, UserAllowed, W, X};
use crate::mem::good_frame;
use crate::process::{FlagBit, Handle, Process, Regs, fresh_handle, lemma_flag_ops, lemma_ipc_bits};

verus! {

pub const RECV: u64 = 0;

pub const MAP: u64 = 1;

pub const PFAULT: u64 = 2;

pub const UNMAP: u64 = 3;

pub const HMOD: u64 = 4;

pub const NEWPROC: u64 = 5;

pub const WRITE: u64 = 6;

pub const PORTIO: u64 = 7;

pub const GRANT: u64 = 8;

pub const PULSE: u64 = 9;

/// Message codes from here up are user messages.
pub const USER: u64 = 16;

pub const MSG_MASK: u64 = 0xff;

pub const MSG_KIND_MASK: u64 = 0x300;

pub const MSG_KIND_SEND: u64 = 0;

pub const MSG_KIND_CALL: u64 = 0x100;

/// Page-fault error code: the fault happened in user mode.
pub const PF_USER: u64 = 4;

/// Page-fault error code: the access was a write.
pub const PF_WRITE: u64 = 2;

/// Page-fault error code: the access was an instruction fetch.
pub const PF_INSTR: u64 = 16;

/// The call form of message code `msg`.
pub fn call(msg: u64) -> (r: u64)
    ensures
        r == msg | MSG_KIND_CALL,
{
    msg | MSG_KIND_CALL
}

/// The rules that a message transfer can find broken.
pub open spec fn ipc_fault(e: Fault) -> bool {
    e == Fault::NoRecipient || e == Fault::UnpairedHandle || e == Fault::HandleMismatch
}

impl Kernel {
    /// `p` waits in a receive that a pulse arriving on its handle `rcpt`
    /// satisfies: from any handle, or from `rcpt` itself.
    pub open spec fn spec_can_deliver(&self, p: usize, rcpt: u64) -> bool {
        let rdi = self.procs@[p as int].regs.rdi;
        &&& self.procs@[p as int].spec_ipc_state() == FlagBit::InRecv.spec_mask()
        &&& (rdi == 0 || rdi == rcpt)
    }

    pub fn can_deliver_pulse(&self, p: usize, rcpt: u64) -> (r: bool)
        requires
            p < self.procs@.len(),
        ensures
            r == self.spec_can_deliver(p, rcpt),
    {
        let rdi = self.procs[p].regs.rdi;
        self.procs[p].ipc_state() == FlagBit::InRecv.mask() && (rdi == 0 || rdi == rcpt)
    }

    /// Ends `p`'s receive with a pulse: rdi names the handle, rsi holds the bits.
    fn deliver_pulse(&mut self, p: usize, rcpt: u64, pulses: u64) -> (r: Exit)
        requires
            old(self).wf(),
            old(self).in_kernel(),
            p < old(self).procs@.len(),
            old(self).procs@[p as int].spec_ipc_state() == FlagBit::InRecv.spec_mask(),
        ensures
            final(self).wf(),
            final(self).exited(r),
            r == (Exit::SlowRet { pid: p }),
            final(self).cpu.process == Some(p),
            final(self).procs@[p as int].regs == (Regs { rax: PULSE, rdi: rcpt, rsi: pulses, ..old(self).procs@[p as int].regs }),
            final(self).procs@[p as int].spec_ipc_state() == 0,
            final(self).handles@ == old(self).handles@,
            final(self).spaces@ == old(self).spaces@,
            final(self).kernel_pdp == old(self).kernel_pdp,
            final(self).cpu.runqueue == old(self).cpu.runqueue,
            final(self).cpu.irq_delayed == old(self).cpu.irq_delayed,
            final(self).cpu.irq_process == old(self).cpu.irq_process,
            final(self).procs@.len() == old(self).procs@.len(),
            !final(self).procs@[p as int].spec_is(FlagBit::InRecv),
            !final(self).procs@[p as int].spec_is(FlagBit::FastRet),
    {
        proof {
            let x = self.procs@[p as int].flags;
            lemma_flag_ops(x, FlagBit::FastRet, FlagBit::Queued);
            lemma_flag_ops(x, FlagBit::FastRet, FlagBit::FastRet);
            lemma_flag_ops(x & !FlagBit::FastRet.spec_mask(), FlagBit::InRecv, FlagBit::Queued);
            lemma_flag_ops(x & !FlagBit::FastRet.spec_mask(), FlagBit::InRecv, FlagBit::FastRet);
            assert(!self.procs@[p as int].spec_is(FlagBit::Queued));
        }
        let mut regs = self.procs[p].regs;
        regs.rdi = rcpt;
        regs.rsi = pulses;
        self.set_regs(p, regs);
        self.unset_flag(p, FlagBit::FastRet);
        self.unset_flag(p, FlagBit::InRecv);
        let r = self.syscall_return(p, PULSE);
        proof {
            lemma_ipc_bits(self.procs@[p as int].flags);
        }
        r
    }

    /// The handle id under which `target` receives the message that `source`
    /// sends, or the rule the transfer would break.
    pub open spec fn transfer_rcpt(&self, target: usize, source: usize) -> Result<u64, Fault> {
        self.transfer_rcpt_as(target, self.procs@[target as int].regs.rdi, source)
    }

    /// `transfer_rcpt` for a receiver whose saved rdi is `rcpt`.
    pub open spec fn transfer_rcpt_as(&self, target: usize, rcpt: u64, source: usize) -> Result<u64, Fault> {
        let from = self.procs@[source as int].regs.rdi;
        match self.spec_find_handle(source, from) {
            None => Err(Fault::NoRecipient),
            Some(h) => {
                let other = self.handles@[h].other;
                if rcpt == 0 {
                    match other {
                        Some(g) => Ok(self.handles@[g as int].id),
                        None => Err(Fault::UnpairedHandle),
                    }
                } else if self.spec_find_handle(target, rcpt) is None {
                    match other {
                        Some(g) => Ok(self.handles@[g as int].id),
                        None => Ok(rcpt),
                    }
                } else {
                    match other {
                        Some(g) => if self.handles@[g as int].id == rcpt {
                            Ok(rcpt)
                        } else {
                            Err(Fault::HandleMismatch)
                        },
                        None => Err(Fault::UnpairedHandle),
                    }
                }
            },
        }
    }

    /// The transfer pairs a fresh id of the receiver with the sender's handle.
    pub open spec fn transfer_pairs(&self, target: usize, source: usize) -> bool {
        let rcpt = self.procs@[target as int].regs.rdi;
        let from = self.procs@[source as int].regs.rdi;
        &&& self.spec_find_handle(source, from) is Some
        &&& rcpt != 0
        &&& self.spec_find_handle(target, rcpt) is None
        &&& self.handles@[self.spec_find_handle(source, from).unwrap()].other is None
    }

    /// Resolves the id under which `target` receives from `source`, pairing a
    /// fresh id with the sender's handle, and puts it in `target`'s rdi.
    fn transfer_set_handle(&mut self, target: usize, source: usize) -> (r: Result<u64, Fault>)
        requires
            old(self).wf(),
            target < old(self).procs@.len(),
            source < old(self).procs@.len(),
            old(self).handles@.len() < usize::MAX,
        ensures
            final(self).wf(),
            r == old(self).transfer_rcpt(target, source),
            final(self).spaces@ == old(self).spaces@,
            final(self).cpu == old(self).cpu,
            final(self).kernel_pdp == old(self).kernel_pdp,
            final(self).procs@.len() == old(self).procs@.len(),
            forall|q: int| 0 <= q < final(self).procs@.len() && q != target ==> #[trigger] final(self).procs@[q] == old(self).procs@[q],
            r matches Ok(rc) ==> final(self).procs@[target as int] == (Process {
                regs: Regs { rdi: rc, ..old(self).procs@[target as int].regs },
                ..old(self).procs@[target as int]
            }),
            r is Err ==> final(self).procs@ == old(self).procs@,
            old(self).transfer_pairs(target, source) ==> {
                let h = old(self).spec_find_handle(source, old(self).procs@[source as int].regs.rdi).unwrap();
                let n = old(self).handles@.len();
                &&& final(self).handles@ == old(self).handles@.update(h, Handle { other: Some(n as usize), ..old(self).handles@[h] }).push(
                    Handle { other: Some(h as usize), ..fresh_handle(n as usize, old(self).procs@[target as int].regs.rdi, target, source) })
            },
            !old(self).transfer_pairs(target, source) ==> final(self).handles@ == old(self).handles@,
    {
        let rcpt0 = self.procs[target].regs.rdi;
        let from = self.procs[source].regs.rdi;
        let h = match self.find_handle(source, from) {
            Some(h) => h,
            None => return Err(Fault::NoRecipient),
        };
        let rcpt = if rcpt0 == 0 {
            match self.handles[h].other {
                Some(g) => self.handles[g].id,
                None => return Err(Fault::UnpairedHandle),
            }
        } else if self.find_handle(target, rcpt0).is_none() {
            match self.handles[h].other {
                // Already paired: the fresh id is dropped and the existing pair used.
                Some(g) => self.handles[g].id,
                None => {
                    let g = self.new_handle(target, rcpt0, source);
                    self.associate(g, h);
                    rcpt0
                },
            }
        } else {
            match self.handles[h].other {
                Some(g) => {
                    if self.handles[g].id != rcpt0 {
                        return Err(Fault::HandleMismatch);
                    }
                    rcpt0
                },
                None => return Err(Fault::UnpairedHandle),
            }
        };
        let mut regs = self.procs[target].regs;
        regs.rdi = rcpt;
        self.set_regs(target, regs);
        Ok(rcpt)
    }

    /// Copies the message registers from `source` to `target`, ends
    /// `target`'s receive and `source`'s send (so `source` no longer waits on
    /// `target`), queues `target`, and, when `source` has no IPC left in
    /// progress, unblocks `target` from it and queues it too.
    fn hand_over(&mut self, target: usize, source: usize)
        requires
            old(self).wf(),
            old(self).in_kernel(),
            target < old(self).procs@.len(),
            source < old(self).procs@.len(),
            old(self).procs@[target as int].spec_ipc_state() == FlagBit::InRecv.spec_mask(),
            old(self).procs@[source as int].spec_is(FlagBit::InSend),
        ensures
            final(self).wf(),
            final(self).in_kernel(),
            final(self).spaces@ == old(self).spaces@,
            final(self).kernel_pdp == old(self).kernel_pdp,
            final(self).handles@ == old(self).handles@,
            final(self).procs@.len() == old(self).procs@.len(),
            final(self).cpu.irq_process == old(self).cpu.irq_process,
            final(self).cpu.irq_delayed == old(self).cpu.irq_delayed,
            final(self).cpu.process == old(self).cpu.process,
            ({
                let src = old(self).procs@[source as int].regs;
                let t = final(self).procs@[target as int];
                let s = final(self).procs@[source as int];
                &&& t.regs == Regs {
                    rax: src.rax,
                    rsi: src.rsi,
                    rdx: src.rdx,
                    r8: src.r8,
                    r9: src.r9,
                    r10: src.r10,
                    ..old(self).procs@[target as int].regs
                }
                &&& t.spec_ipc_state() == 0
                &&& !t.spec_is(FlagBit::FastRet)
                &&& !s.spec_is(FlagBit::InSend)
                &&& s.spec_is(FlagBit::InRecv) == old(self).procs@[source as int].spec_is(FlagBit::InRecv)
                &&& s.spec_is(FlagBit::PFault) == old(self).procs@[source as int].spec_is(FlagBit::PFault)
                &&& !t.waiters@.contains(source)
                &&& s.spec_ipc_state() == 0 ==> !s.waiters@.contains(target)
                &&& final(self).cpu.runqueue@.contains(target)
                &&& s.spec_ipc_state() == 0 ==> final(self).cpu.runqueue@.contains(source)
            }),
    {
        let src = self.procs[source].regs;
        let mut regs = self.procs[target].regs;
        regs.rax = src.rax;
        regs.rsi = src.rsi;
        regs.rdx = src.rdx;
        regs.r8 = src.r8;
        regs.r9 = src.r9;
        regs.r10 = src.r10;
        self.set_regs(target, regs);
        let ghost t0 = self.procs@[target as int].flags;
        let ghost s0 = self.procs@[source as int].flags;
        proof {
            lemma_ipc_bits(t0);
            lemma_ipc_bits(s0);
            lemma_flag_ops(t0, FlagBit::InRecv, FlagBit::FastRet);
            lemma_flag_ops(t0, FlagBit::InRecv, FlagBit::InRecv);
            lemma_flag_ops(t0 & !FlagBit::InRecv.spec_mask(), FlagBit::FastRet, FlagBit::FastRet);
            lemma_flag_ops(t0 & !FlagBit::InRecv.spec_mask(), FlagBit::FastRet, FlagBit::InRecv);
            lemma_flag_ops(s0, FlagBit::InSend, FlagBit::InSend);
        }
        self.unset_flag(target, FlagBit::InRecv);
        self.unset_flag(target, FlagBit::FastRet);
        proof {
            lemma_flag_ops(s0, FlagBit::InSend, FlagBit::InRecv);
            lemma_flag_ops(s0, FlagBit::InSend, FlagBit::PFault);
        }
        self.unset_flag(source, FlagBit::InSend);
        self.remove_waiter(target, source);
        let ghost t1 = self.procs@[target as int].flags;
        proof {
            lemma_ipc_bits(t1);
            lemma_flag_ops(t1, FlagBit::Queued, FlagBit::FastRet);
            lemma_flag_ops(t1, FlagBit::Queued, FlagBit::InRecv);
            lemma_flag_ops(t1, FlagBit::Queued, FlagBit::Running);
            lemma_flag_ops(t1, FlagBit::Queued, FlagBit::InSend);
        }
        self.queue(target);
        let ghost s1 = self.procs@[source as int].flags;
        proof {
            lemma_ipc_bits(s1);
            lemma_flag_ops(s1, FlagBit::Queued, FlagBit::InSend);
            lemma_flag_ops(s1, FlagBit::Queued, FlagBit::Running);
        }
        proof {
            lemma_flag_ops(s1, FlagBit::Queued, FlagBit::InRecv);
            lemma_flag_ops(s1, FlagBit::Queued, FlagBit::PFault);
        }
        if self.procs[source].ipc_state() == 0 {
            self.remove_waiter(source, target);
            self.queue(source);
        }
    }

    /// Moves the message staged in `source`'s registers to `target`, which
    /// waits in a receive; both leave their send and receive, and whichever
    /// has no IPC left in progress is queued. Then the next process runs.
    fn transfer_message(&mut self, target: usize, source: usize) -> (r: Exit)
        requires
            old(self).wf(),
            old(self).in_kernel(),
            target < old(self).procs@.len(),
            source < old(self).procs@.len(),
            old(self).handles@.len() < usize::MAX,
            old(self).procs@[target as int].spec_ipc_state() == FlagBit::InRecv.spec_mask(),
            old(self).procs@[source as int].spec_is(FlagBit::InSend),
        ensures
            final(self).wf(),
            r matches Exit::Halt(e) ==> ipc_fault(e),
            final(self).spaces@ == old(self).spaces@,
            final(self).kernel_pdp == old(self).kernel_pdp,
            final(self).exited(r),
            final(self).procs@.len() == old(self).procs@.len(),
            final(self).cpu.irq_process == old(self).cpu.irq_process,
            final(self).cpu.irq_delayed == old(self).cpu.irq_delayed,
            old(self).transfer_rcpt(target, source) matches Err(e) ==> r == Exit::Halt(e),
            old(self).transfer_rcpt(target, source) matches Ok(rc) ==> {
                let src = old(self).procs@[source as int].regs;
                let t = final(self).procs@[target as int];
                let s = final(self).procs@[source as int];
                &&& t.regs == Regs {
                    rax: src.rax,
                    rdi: rc,
                    rsi: src.rsi,
                    rdx: src.rdx,
                    r8: src.r8,
                    r9: src.r9,
                    r10: src.r10,
                    ..old(self).procs@[target as int].regs
                }
                &&& !t.spec_is(FlagBit::InRecv)
                &&& !t.spec_is(FlagBit::FastRet)
                &&& !t.spec_is(FlagBit::PFault)
                &&& !s.spec_is(FlagBit::InSend)
                &&& s.spec_is(FlagBit::InRecv) == old(self).procs@[source as int].spec_is(FlagBit::InRecv)
                &&& s.spec_is(FlagBit::PFault) == old(self).procs@[source as int].spec_is(FlagBit::PFault)
                &&& !t.waiters@.contains(source)
                &&& s.spec_ipc_state() == 0 ==> !s.waiters@.contains(target)
                &&& final(self).cpu.runqueue@.contains(target) || final(self).cpu.process == Some(target)
                &&& s.spec_ipc_state() == 0 ==> final(self).cpu.runqueue@.contains(source)
                    || final(self).cpu.process == Some(source)
                &&& r !is Halt
            },
    {
        match self.transfer_set_handle(target, source) {
            Err(e) => return Exit::Halt(e),
            Ok(_) => {},
        }
        self.hand_over(target, source);
        let ghost before = *self;
        let r = self.run();
        proof {
            let rq = before.cpu.runqueue@;
            lemma_in_after_pop(rq, target);
            if self.procs@[source as int].spec_ipc_state() == 0 {
                assert(before.procs@[source as int].spec_ipc_state() == 0);
                lemma_in_after_pop(rq, source);
            }
            lemma_ipc_bits(self.procs@[target as int].flags);
            lemma_ipc_bits(before.procs@[target as int].flags);
            lemma_ipc_bits(self.procs@[source as int].flags);
            lemma_ipc_bits(before.procs@[source as int].flags);
        }
        r
    }

    /// The receiver at the other end of handle `h` is ready for a message
    /// sent through it: waiting in a receive from any handle, from a fresh id,
    /// or from the handle paired with `h`.
    pub open spec fn ready_to_receive(&self, h: int) -> bool {
        let p = self.handles@[h].process;
        let rcpt = self.procs@[p as int].regs.rdi;
        let other_id = match self.handles@[h].other {
            Some(g) => self.handles@[g as int].id,
            None => 0,
        };
        &&& self.procs@[p as int].spec_ipc_state() == FlagBit::InRecv.spec_mask()
        &&& (rcpt == other_id || self.spec_find_handle(p, rcpt) is None)
    }

    /// Stages the message in `sender`'s registers and hands it over at once
    /// if the receiver is ready; else `sender` waits on the receiver.
    fn send_or_block(
        &mut self,
        sender: usize,
        h: usize,
        msg: u64,
        arg1: u64,
        arg2: u64,
        arg3: u64,
        arg4: u64,
        arg5: u64,
    ) -> (r: Exit)
        requires
            old(self).wf(),
            old(self).in_kernel(),
            sender < old(self).procs@.len(),
            h < old(self).handles@.len(),
            old(self).handles@.len() < usize::MAX,
            old(self).procs@[sender as int].spec_is(FlagBit::InSend),
            old(self).handles@[h as int].live,
            old(self).handles@[h as int].owner == sender,
        ensures
            old(self).ready_to_receive(h as int) && old(self).handles@[h as int].other is Some ==> r !is Halt,
            final(self).wf(),
            r matches Exit::Halt(e) ==> ipc_fault(e),
            final(self).spaces@ == old(self).spaces@,
            final(self).kernel_pdp == old(self).kernel_pdp,
            final(self).exited(r),
            final(self).procs@.len() == old(self).procs@.len(),
            final(self).cpu.irq_process == old(self).cpu.irq_process,
            !old(self).ready_to_receive(h as int) ==> {
                let t = old(self).handles@[h as int].process;
                &&& r !is Halt
                &&& final(self).procs@[sender as int].spec_ipc_state() == old(self).procs@[sender as int].spec_ipc_state()
                &&& final(self).procs@[sender as int].regs.rax == msg
                &&& final(self).procs@[sender as int].regs.rdi == old(self).handles@[h as int].id
                &&& final(self).procs@[sender as int].regs.rsi == arg1
                &&& final(self).procs@[sender as int].regs.rdx == arg2
                &&& old(self).procs@[sender as int].waiting_for is None ==> final(self).procs@[t as int].waiters@.contains(sender)
                &&& t != sender ==> final(self).procs@[t as int].spec_ipc_state() == old(self).procs@[t as int].spec_ipc_state()
            },
            old(self).ready_to_receive(h as int) && r !is Halt ==> {
                let t = old(self).handles@[h as int].process;
                &&& !final(self).procs@[sender as int].spec_is(FlagBit::InSend)
                &&& final(self).procs@[sender as int].spec_is(FlagBit::InRecv) == old(self).procs@[sender as int].spec_is(FlagBit::InRecv)
                &&& final(self).procs@[sender as int].spec_is(FlagBit::PFault) == old(self).procs@[sender as int].spec_is(FlagBit::PFault)
                &&& !final(self).procs@[t as int].spec_is(FlagBit::InRecv)
                &&& !final(self).procs@[t as int].spec_is(FlagBit::PFault)
                &&& final(self).procs@[t as int].regs.rax == msg
                &&& final(self).procs@[t as int].regs.rsi == arg1
                &&& final(self).procs@[t as int].regs.rdx == arg2
            },
    {
        let p = self.handles[h].process;
        let mut regs = self.procs[sender].regs;
        regs.rax = msg;
        regs.rdi = self.handles[h].id;
        regs.rsi = arg1;
        regs.rdx = arg2;
        regs.r10 = arg3;
        regs.r8 = arg4;
        regs.r9 = arg5;
        self.set_regs(sender, regs);
        let other_id = match self.handles[h].other {
            Some(g) => self.handles[g].id,
            None => 0,
        };
        if self.procs[p].ipc_state() == FlagBit::InRecv.mask() {
            let rcpt = self.procs[p].regs.rdi;
            if rcpt == other_id || self.find_handle(p, rcpt).is_none() {
                proof {
                    lemma_ipc_bits(self.procs@[p as int].flags);
                    assert(p != sender);
                    self.lemma_find_handle(sender, self.handles@[h as int].id, h as int);
                    if self.handles@[h as int].other is Some {
                        assert(self.transfer_rcpt(p, sender) is Ok);
                    }
                }
                return self.transfer_message(p, sender);
            }
        }
        self.add_waiter(p, sender);
        let ghost mid = *self;
        let r = self.run();
        proof {
            lemma_ipc_bits(mid.procs@[sender as int].flags);
            lemma_ipc_bits(self.procs@[sender as int].flags);
        }
        r
    }

    /// Sends message `msg` through handle `to`; the sender blocks until it
    /// is received.
    pub fn ipc_send(
        &mut self,
        p: usize,
        msg: u64,
        to: u64,
        arg1: u64,
        arg2: u64,
        arg3: u64,
        arg4: u64,
        arg5: u64,
    ) -> (r: Exit)
        requires
            old(self).wf(),
            old(self).in_kernel(),
            p < old(self).procs@.len(),
            old(self).procs@[p as int].spec_ipc_state() == 0,
            !old(self).procs@[p as int].spec_is(FlagBit::Queued),
            old(self).handles@.len() < usize::MAX,
        ensures
            final(self).wf(),
            r matches Exit::Halt(e) ==> ipc_fault(e),
            final(self).spaces@ == old(self).spaces@,
            final(self).kernel_pdp == old(self).kernel_pdp,
            final(self).exited(r),
            final(self).procs@.len() == old(self).procs@.len(),
            final(self).cpu.irq_process == old(self).cpu.irq_process,
            old(self).spec_find_handle(p, to) is None ==> r == Exit::Halt(Fault::NoRecipient),
            old(self).spec_find_handle(p, to) is Some && old(self).handles@[old(self).spec_find_handle(p, to).unwrap()].other
                is Some ==> r !is Halt,
            old(self).spec_find_handle(p, to) matches Some(h) ==> {
                let t = old(self).handles@[h].process;
                &&& !old(self).ready_to_receive(h) ==> {
                    &&& r !is Halt
                    &&& final(self).procs@[p as int].spec_is(FlagBit::InSend)
                    &&& final(self).procs@[p as int].regs.rax == msg
                    &&& final(self).procs@[p as int].regs.rdi == to
                    &&& final(self).procs@[p as int].regs.rsi == arg1
                    &&& old(self).procs@[p as int].waiting_for is None ==> final(self).procs@[t as int].waiters@.contains(p)
                    &&& t != p ==> final(self).procs@[t as int].spec_ipc_state() == old(self).procs@[t as int].spec_ipc_state()
                }
                &&& old(self).ready_to_receive(h) && r !is Halt ==> {
                    &&& !final(self).procs@[p as int].spec_is(FlagBit::InSend)
                    &&& final(self).procs@[t as int].regs.rax == msg
                    &&& final(self).procs@[t as int].regs.rsi == arg1
                    &&& !final(self).procs@[t as int].spec_is(FlagBit::InRecv)
                    &&& !final(self).procs@[t as int].spec_is(FlagBit::PFault)
                }
            },
    {
        let h = match self.find_handle(p, to) {
            Some(h) => h,
            None => return Exit::Halt(Fault::NoRecipient),
        };
        proof {
            lemma_flag_ops(self.procs@[p as int].flags, FlagBit::InSend, FlagBit::InSend);
        }
        self.set_flag(p, FlagBit::InSend);
        proof {
            let t = self.handles@[h as int].process;
            lemma_ipc_bits(old(self).procs@[p as int].flags);
            lemma_ipc_bits(self.procs@[p as int].flags);
            if t == p {
                assert(!old(self).ready_to_receive(h as int));
                assert(!self.ready_to_receive(h as int));
            } else {
                assert(self.procs@[t as int] == old(self).procs@[t as int]);
                assert(self.ready_to_receive(h as int) == old(self).ready_to_receive(h as int));
            }
        }
        let ghost mid = *self;
        let r = self.send_or_block(p, h, msg, arg1, arg2, arg3, arg4, arg5);
        proof {
            lemma_ipc_bits(mid.procs@[p as int].flags);
            lemma_ipc_bits(self.procs@[p as int].flags);
        }
        r
    }

    /// Sends message `msg` through handle `to` and then receives the reply
    /// from the same handle.
    pub fn ipc_call(
        &mut self,
        p: usize,
        msg: u64,
        to: u64,
        arg1: u64,
        arg2: u64,
        arg3: u64,
        arg4: u64,
        arg5: u64,
    ) -> (r: Exit)
        requires
            old(self).wf(),
            old(self).in_kernel(),
            p < old(self).procs@.len(),
            old(self).procs@[p as int].spec_ipc_state() & !32u8 == 0,
            !old(self).procs@[p as int].spec_is(FlagBit::Queued),
            old(self).handles@.len() < usize::MAX,
        ensures
            final(self).wf(),
            r matches Exit::Halt(e) ==> ipc_fault(e),
            final(self).spaces@ == old(self).spaces@,
            final(self).kernel_pdp == old(self).kernel_pdp,
            final(self).exited(r),
            final(self).procs@.len() == old(self).procs@.len(),
            final(self).cpu.irq_process == old(self).cpu.irq_process,
            old(self).spec_find_handle(p, to) is None ==> r == Exit::Halt(Fault::NoRecipient),
            old(self).spec_find_handle(p, to) is Some && old(self).handles@[old(self).spec_find_handle(p, to).unwrap()].other
                is Some ==> r !is Halt,
            old(self).spec_find_handle(p, to) matches Some(h) ==> {
                let t = old(self).handles@[h].process;
                &&& !old(self).ready_to_receive(h) ==> {
                    &&& r !is Halt
                    &&& final(self).procs@[p as int].spec_is(FlagBit::InSend)
                    &&& final(self).procs@[p as int].spec_is(FlagBit::InRecv)
                    &&& final(self).procs@[p as int].spec_is(FlagBit::PFault) == old(self).procs@[p as int].spec_is(FlagBit::PFault)
                    &&& final(self).procs@[p as int].regs.rax == msg
                    &&& final(self).procs@[p as int].regs.rdi == to
                    &&& final(self).procs@[p as int].regs.rsi == arg1
                    &&& final(self).procs@[p as int].regs.rdx == arg2
                    &&& old(self).procs@[p as int].waiting_for is None ==> final(self).procs@[t as int].waiters@.contains(p)
                }
                &&& old(self).ready_to_receive(h) && r !is Halt ==> {
                    &&& !final(self).procs@[p as int].spec_is(FlagBit::InSend)
                    &&& final(self).procs@[p as int].spec_is(FlagBit::InRecv)
                    &&& final(self).procs@[p as int].spec_is(FlagBit::PFault) == old(self).procs@[p as int].spec_is(FlagBit::PFault)
                    &&& final(self).procs@[t as int].regs.rax == msg
                    &&& final(self).procs@[t as int].regs.rsi == arg1
                    &&& final(self).procs@[t as int].regs.rdx == arg2
                    &&& !final(self).procs@[t as int].spec_is(FlagBit::InRecv)
                }
            },
    {
        let h = match self.find_handle(p, to) {
            Some(h) => h,
            None => return Exit::Halt(Fault::NoRecipient),
        };
        proof {
            let x = self.procs@[p as int].flags;
            lemma_flag_ops(x, FlagBit::InSend, FlagBit::InSend);
            lemma_flag_ops(x, FlagBit::InSend, FlagBit::Queued);
            lemma_flag_ops(x, FlagBit::InSend, FlagBit::PFault);
            lemma_flag_ops(x | FlagBit::InSend.spec_mask(), FlagBit::InRecv, FlagBit::InSend);
            lemma_flag_ops(x | FlagBit::InSend.spec_mask(), FlagBit::InRecv, FlagBit::InRecv);
            lemma_flag_ops(x | FlagBit::InSend.spec_mask(), FlagBit::InRecv, FlagBit::PFault);
        }
        self.set_flag(p, FlagBit::InSend);
        self.set_flag(p, FlagBit::InRecv);
        let mut regs = self.procs[p].regs;
        regs.rdi = to;
        self.set_regs(p, regs);
        proof {
            let t = self.handles@[h as int].process;
            lemma_ipc_bits(old(self).procs@[p as int].flags);
            lemma_ipc_bits(self.procs@[p as int].flags);
            let x = old(self).procs@[p as int].flags;
            assert(((x & 44u8) & !32u8 == 0) ==> (x & 44u8) != 4u8) by (bit_vector);
            if t == p {
                assert(!old(self).ready_to_receive(h as int));
                assert(!self.ready_to_receive(h as int));
            } else {
                assert(self.procs@[t as int] == old(self).procs@[t as int]);
                assert(self.ready_to_receive(h as int) == old(self).ready_to_receive(h as int));
            }
        }
        let ghost mid = *self;
        let r = self.send_or_block(p, h, msg, arg1, arg2, arg3, arg4, arg5);
        proof {
            lemma_ipc_bits(mid.procs@[p as int].flags);
            lemma_ipc_bits(self.procs@[p as int].flags);
        }
        r
    }

    /// The process at the other end of handle `h` is sending to the handle
    /// paired with `h`.
    pub open spec fn peer_sending(&self, h: int) -> bool {
        let t = self.handles@[h].process;
        &&& self.procs@[t as int].spec_is(FlagBit::InSend)
        &&& self.handles@[h].other is Some
        &&& self.handles@[self.handles@[h].other.unwrap() as int].id == self.procs@[t as int].regs.rdi
    }

    /// `p` receives from its handle `h`: at once if the process at the other
    /// end is sending to the handle paired with `h`, else as from any handle.
    fn recv(&mut self, p: usize, h: usize) -> (r: Exit)
        requires
            old(self).wf(),
            old(self).in_kernel(),
            p < old(self).procs@.len(),
            h < old(self).handles@.len(),
            old(self).handles@.len() < usize::MAX,
            old(self).procs@[p as int].spec_ipc_state() == FlagBit::InRecv.spec_mask(),
        ensures
            final(self).wf(),
            r matches Exit::Halt(e) ==> ipc_fault(e),
            final(self).spaces@ == old(self).spaces@,
            final(self).kernel_pdp == old(self).kernel_pdp,
            final(self).exited(r),
            final(self).procs@.len() == old(self).procs@.len(),
            final(self).cpu.irq_process == old(self).cpu.irq_process,
            old(self).peer_sending(h as int) && old(self).transfer_rcpt(p, old(self).handles@[h as int].process) is Ok ==> r !is Halt,
            old(self).peer_sending(h as int) && r !is Halt ==> !final(self).procs@[p as int].spec_is(FlagBit::InRecv),
            !old(self).peer_sending(h as int) && old(self).no_sender(p) ==> old(self).recv_any_outcome(p, *final(self), r),
    {
        let t = self.handles[h].process;
        if self.procs[t].is(FlagBit::InSend) {
            match self.handles[h].other {
                Some(g) => {
                    if self.handles[g].id == self.procs[t].regs.rdi {
                        proof {
                            lemma_ipc_bits(self.procs@[p as int].flags);
                        }
                        return self.transfer_message(p, t);
                    }
                },
                None => {},
            }
        }
        self.recv_from_any(p)
    }

    /// Takes the pulses held by handle `h`.
    fn take_pulses(&mut self, h: usize) -> (r: u64)
        requires
            old(self).wf(),
            h < old(self).handles@.len(),
        ensures
            final(self).wf(),
            r == old(self).handles@[h as int].pulses,
            final(self).handles@ == old(self).handles@.update(h as int, Handle { pulses: 0, ..old(self).handles@[h as int] }),
            final(self).procs@ == old(self).procs@,
            final(self).spaces@ == old(self).spaces@,
            final(self).cpu == old(self).cpu,
            final(self).kernel_pdp == old(self).kernel_pdp,
    {
        let mut x = self.handles[h];
        let r = x.pop_pulses();
        self.handles.set(h, x);
        r
    }

    /// No process blocked on `p` is sending.
    pub open spec fn no_sender(&self, p: usize) -> bool {
        forall|k: int|
            0 <= k < self.procs@[p as int].waiters@.len() ==> !self.procs@[self.procs@[p as int].waiters@[k] as int].spec_is(
                FlagBit::InSend,
            )
    }

    /// Position `k` holds the oldest waiter of `p` that is sending.
    pub open spec fn is_first_sender(&self, p: usize, k: int) -> bool {
        let w = self.procs@[p as int].waiters@;
        &&& 0 <= k < w.len()
        &&& self.procs@[w[k] as int].spec_is(FlagBit::InSend)
        &&& forall|j: int| 0 <= j < k ==> !self.procs@[w[j] as int].spec_is(FlagBit::InSend)
    }

    /// The position of the oldest waiter of `p` that is sending.
    pub open spec fn first_sender(&self, p: usize) -> int {
        choose|k: int| self.is_first_sender(p, k)
    }

    proof fn lemma_first_sender_unique(&self, p: usize, k: int)
        requires
            self.is_first_sender(p, k),
        ensures
            self.first_sender(p) == k,
    {
        let c = choose|c: int| self.is_first_sender(p, c);
        assert(self.is_first_sender(p, c));
        if c < k {
            assert(!self.procs@[self.procs@[p as int].waiters@[c] as int].spec_is(FlagBit::InSend));
        } else if c > k {
            assert(!self.procs@[self.procs@[p as int].waiters@[k] as int].spec_is(FlagBit::InSend));
        }
    }

    /// What a receive from any handle by `p` leads to when no sender waits:
    /// the first pending pulse, else the delayed interrupts (for the
    /// interrupt process), else `p` stays blocked and the next process runs.
    pub open spec fn recv_any_outcome(&self, p: usize, after: Kernel, r: Exit) -> bool {
        let pending = self.procs@[p as int].pending@;
        if pending.len() > 0 {
            let h = pending[0] as int;
            &&& r == (Exit::SlowRet { pid: p })
            &&& after.procs@[p as int].regs.rax == PULSE
            &&& after.procs@[p as int].regs.rdi == self.handles@[h].id
            &&& after.procs@[p as int].regs.rsi == self.handles@[h].pulses
            &&& after.handles@[h].pulses == 0
        } else if self.cpu.irq_process == Some(p) && self.cpu.irq_delayed != 0 {
            &&& r == (Exit::SlowRet { pid: p })
            &&& after.procs@[p as int].regs.rax == PULSE
            &&& after.procs@[p as int].regs.rdi == 0
            &&& after.procs@[p as int].regs.rsi == self.cpu.irq_delayed
            &&& after.cpu.irq_delayed == 0
        } else {
            &&& after.procs@[p as int].spec_ipc_state() == FlagBit::InRecv.spec_mask()
            &&& (self.cpu.runqueue@.len() == 0 <==> r == Exit::Idle)
        }
    }

    /// `p` receives from any handle: from the oldest waiting sender, else a
    /// pending pulse, else (for the interrupt process) the delayed interrupts;
    /// else it stays blocked and the next process runs.
    fn recv_from_any(&mut self, p: usize) -> (r: Exit)
        requires
            old(self).wf(),
            old(self).in_kernel(),
            p < old(self).procs@.len(),
            old(self).handles@.len() < usize::MAX,
            old(self).procs@[p as int].spec_ipc_state() == FlagBit::InRecv.spec_mask(),
        ensures
            final(self).wf(),
            r matches Exit::Halt(e) ==> ipc_fault(e),
            final(self).spaces@ == old(self).spaces@,
            final(self).kernel_pdp == old(self).kernel_pdp,
            final(self).exited(r),
            final(self).procs@.len() == old(self).procs@.len(),
            final(self).cpu.irq_process == old(self).cpu.irq_process,
            old(self).cpu.irq_process == Some(p) && final(self).procs@[p as int].spec_is(FlagBit::InRecv) && r !is Halt
                ==> final(self).cpu.irq_delayed == 0,
            !old(self).no_sender(p) && r !is Halt ==> !final(self).procs@[p as int].spec_is(FlagBit::InRecv),
            !old(self).no_sender(p) ==> {
                let s = old(self).procs@[p as int].waiters@[old(self).first_sender(p)];
                match old(self).transfer_rcpt(p, s) {
                    Err(e) => r == Exit::Halt(e),
                    Ok(rc) => {
                        let src = old(self).procs@[s as int].regs;
                        let t = final(self).procs@[p as int];
                        let sp = final(self).procs@[s as int];
                        &&& r !is Halt
                        &&& t.regs == Regs {
                            rax: src.rax,
                            rdi: rc,
                            rsi: src.rsi,
                            rdx: src.rdx,
                            r8: src.r8,
                            r9: src.r9,
                            r10: src.r10,
                            ..old(self).procs@[p as int].regs
                        }
                        &&& !t.spec_is(FlagBit::InRecv)
                        &&& !t.spec_is(FlagBit::FastRet)
                        &&& !sp.spec_is(FlagBit::InSend)
                        &&& sp.spec_is(FlagBit::InRecv) == old(self).procs@[s as int].spec_is(FlagBit::InRecv)
                        &&& sp.spec_is(FlagBit::PFault) == old(self).procs@[s as int].spec_is(FlagBit::PFault)
                        &&& !t.waiters@.contains(s)
                        &&& sp.spec_ipc_state() == 0 ==> !sp.waiters@.contains(p)
                        &&& final(self).cpu.runqueue@.contains(p) || final(self).cpu.process == Some(p)
                        &&& sp.spec_ipc_state() == 0 ==> final(self).cpu.runqueue@.contains(s)
                            || final(self).cpu.process == Some(s)
                    },
                }
            },
            old(self).no_sender(p) ==> old(self).recv_any_outcome(p, *final(self), r),
    {
        let mut sender: Option<usize> = None;
        let mut i: usize = 0;
        let n = self.procs[p].waiters.iter().len();
        while i < n
            invariant
                self.wf(),
                *self == *old(self),
                p < self.procs@.len(),
                n == self.procs@[p as int].waiters@.len(),
                i <= n,
                sender matches Some(s) ==> s < self.procs@.len() && self.procs@[s as int].spec_is(FlagBit::InSend),
                sender is None ==> forall|j: int| 0 <= j < i ==> !self.procs@[self.procs@[p as int].waiters@[j] as int].spec_is(FlagBit::InSend),
                sender is Some ==> !self.no_sender(p),
                sender matches Some(w) ==> i < n && self.procs@[p as int].waiters@[i as int] == w && self.is_first_sender(p, i as int),
            ensures
                sender is None ==> self.no_sender(p),
            decreases n - i,
        {
            let w = self.procs[p].waiters.iter()[i];
            proof {
                assert(w < self.procs@.len());
            }
            if self.procs[w].is(FlagBit::InSend) {
                sender = Some(w);
                break;
            }
            i = i + 1;
        }
        match sender {
            Some(s) => {
                proof {
                    self.lemma_first_sender_unique(p, i as int);
                }
                self.remove_waiter(p, s);
                proof {
                    lemma_ipc_bits(self.procs@[p as int].flags);
                    assert(self.transfer_rcpt(p, s) == old(self).transfer_rcpt(p, s));
                }
                return self.transfer_message(p, s);
            },
            None => {},
        }
        match self.procs[p].pop_pending_handle() {
            Some(h) => {
                proof {
                    assert(old(self).procs@[p as int].pending@.contains(h));
                    let k = choose|k: int| 0 <= k < old(self).procs@[p as int].pending@.len() && old(self).procs@[p as int].pending@[k] == h;
                    assert(h < self.handles@.len());
                    assert forall|q: int, k: int|
                        0 <= q < self.procs@.len() && 0 <= k < self.procs@[q].pending@.len() implies #[trigger] self.procs@[q].pending@[k]
                        < self.handles@.len() by {
                        if q == p {
                            assert(self.procs@[q].pending@[k] == old(self).procs@[q].pending@[k + 1]);
                        }
                    }
                    assert(self.procs@[p as int].pending@.no_duplicates());
                }
                let pulses = self.take_pulses(h);
                let id = self.handles[h].id;
                return self.deliver_pulse(p, id, pulses);
            },
            None => {},
        }
        if self.is_irq_process(p) && self.cpu.irq_delayed != 0 {
            let irqs = self.cpu.irq_delayed;
            self.cpu.irq_delayed = 0;
            return self.deliver_pulse(p, 0, irqs);
        }
        let r = self.run();
        proof {
            if old(self).cpu.irq_process == Some(p) && self.procs@[p as int].spec_is(FlagBit::InRecv) {
                assert(self.cpu.irq_delayed == old(self).cpu.irq_delayed);
            }
        }
        r
    }

    /// Starts a receive from handle `from` (0: from any).
    pub fn ipc_recv(&mut self, p: usize, from: u64) -> (r: Exit)
        requires
            old(self).wf(),
            old(self).in_kernel(),
            p < old(self).procs@.len(),
            old(self).procs@[p as int].spec_ipc_state() == 0,
            !old(self).procs@[p as int].spec_is(FlagBit::Queued),
            old(self).handles@.len() < usize::MAX,
        ensures
            final(self).wf(),
            r matches Exit::Halt(e) ==> ipc_fault(e),
            final(self).spaces@ == old(self).spaces@,
            final(self).kernel_pdp == old(self).kernel_pdp,
            final(self).exited(r),
            final(self).procs@.len() == old(self).procs@.len(),
            final(self).cpu.irq_process == old(self).cpu.irq_process,
            !(from != 0 && old(self).spec_find_handle(p, from) is Some && old(self).peer_sending(
                old(self).spec_find_handle(p, from).unwrap(),
            )) && old(self).no_sender(p) ==> old(self).recv_any_outcome(p, *final(self), r),
            from != 0 && old(self).spec_find_handle(p, from) is Some && old(self).peer_sending(
                old(self).spec_find_handle(p, from).unwrap(),
            ) && old(self).transfer_rcpt_as(p, from, old(self).handles@[old(self).spec_find_handle(p, from).unwrap()].process)
                is Ok ==> r !is Halt,
            from != 0 && old(self).spec_find_handle(p, from) is Some && old(self).peer_sending(
                old(self).spec_find_handle(p, from).unwrap(),
            ) && r !is Halt ==> !final(self).procs@[p as int].spec_is(FlagBit::InRecv),
    {
        let handle = if from != 0 {
            self.find_handle(p, from)
        } else {
            None
        };
        proof {
            let x = self.procs@[p as int].flags;
            lemma_flag_ops(x, FlagBit::InRecv, FlagBit::InRecv);
            assert((0u8 | 4u8) == 4u8) by (bit_vector);
        }
        self.set_flag(p, FlagBit::InRecv);
        let mut regs = self.procs[p].regs;
        regs.rdi = from;
        self.set_regs(p, regs);
        proof {
            lemma_flag_ops(old(self).procs@[p as int].flags, FlagBit::InRecv, FlagBit::InSend);
            lemma_ipc_bits(old(self).procs@[p as int].flags);
            if let Some(h) = handle {
                let t = self.handles@[h as int].process;
                if t != p {
                    assert(self.procs@[t as int] == old(self).procs@[t as int]);
                }
                assert(self.peer_sending(h as int) == old(self).peer_sending(h as int));
            }
            if old(self).no_sender(p) {
                assert forall|k: int| 0 <= k < self.procs@[p as int].waiters@.len() implies !self.procs@[self.procs@[p as int].waiters@[k] as int].spec_is(
                    FlagBit::InSend,
                ) by {
                    let w = self.procs@[p as int].waiters@[k];
                    assert(old(self).procs@[p as int].waiters@[k] == w);
                    assert(!old(self).procs@[w as int].spec_is(FlagBit::InSend));
                }
            }
        }
        match handle {
            Some(h) => self.recv(p, h),
            None => self.recv_from_any(p),
        }
    }

    /// Adds pulses to handle `g` and returns the pulses it held before.
    fn add_pulses(&mut self, g: usize, pulses: u64) -> (r: u64)
        requires
            old(self).wf(),
            g < old(self).handles@.len(),
        ensures
            final(self).wf(),
            r == old(self).handles@[g as int].pulses,
            final(self).handles@ == old(self).handles@.update(
                g as int,
                Handle { pulses: old(self).handles@[g as int].pulses | pulses, ..old(self).handles@[g as int] },
            ),
            final(self).procs@ == old(self).procs@,
            final(self).spaces@ == old(self).spaces@,
            final(self).cpu == old(self).cpu,
            final(self).kernel_pdp == old(self).kernel_pdp,
    {
        let mut x = self.handles[g];
        let r = x.add_pulses(pulses);
        self.handles.set(g, x);
        r
    }

    /// Notes that handle `g` holds pulses for process `q`.
    fn add_pending(&mut self, q: usize, g: usize)
        requires
            old(self).wf(),
            q < old(self).procs@.len(),
            g < old(self).handles@.len(),
        ensures
            final(self).wf(),
            final(self).others_same(old(self)),
            final(self).procs@.len() == old(self).procs@.len(),
            final(self).procs@[q as int].pending@.contains(g),
            forall|x: int| 0 <= x < final(self).procs@.len() && x != q ==> #[trigger] final(self).procs@[x] == old(self).procs@[x],
            final(self).procs@[q as int] == (Process { pending: final(self).procs@[q as int].pending, ..old(self).procs@[q as int] }),
            old(self).in_kernel() ==> final(self).in_kernel(),
    {
        self.procs[q].add_pending_handle(g);
        proof {
            assert forall|x: int, k: int|
                0 <= x < self.procs@.len() && 0 <= k < self.procs@[x].pending@.len() implies #[trigger] self.procs@[x].pending@[k]
                < self.handles@.len() by {
                if x == q && k < old(self).procs@[x].pending@.len() {
                    assert(self.procs@[x].pending@[k] == old(self).procs@[x].pending@[k]);
                }
            }
            if !old(self).procs@[q as int].pending@.contains(g) {
                assert(self.procs@[q as int].pending@.last() == g);
            }
        }
    }

    /// Sends `pulses` through handle `handle` of `p`: delivered at once when
    /// the other side waits in a matching receive (and `p` is queued behind
    /// it), else added to the other side's handle, which then becomes pending
    /// if it held no pulses.
    pub fn syscall_pulse(&mut self, p: usize, handle: u64, pulses: u64) -> (r: Exit)
        requires
            old(self).wf(),
            old(self).in_kernel(),
            p < old(self).procs@.len(),
            old(self).procs@[p as int].spec_ipc_state() == 0,
            !old(self).procs@[p as int].spec_is(FlagBit::Queued),
        ensures
            final(self).wf(),
            final(self).spaces@ == old(self).spaces@,
            final(self).kernel_pdp == old(self).kernel_pdp,
            final(self).exited(r),
            final(self).procs@.len() == old(self).procs@.len(),
            final(self).cpu.irq_process == old(self).cpu.irq_process,
            match old(self).spec_find_handle(p, handle) {
                None => final(self).cpu.process == Some(p) && final(self).procs@[p as int].regs.rax == 0,
                Some(h) => match old(self).handles@[h].other {
                    None => final(self).cpu.process == Some(p) && final(self).procs@[p as int].regs.rax == 0,
                    Some(g) => {
                        let q = old(self).handles@[h].process;
                        let gid = old(self).handles@[g as int].id;
                        if old(self).spec_can_deliver(q, gid) {
                            &&& r == (Exit::SlowRet { pid: q })
                            &&& final(self).procs@[q as int].regs.rax == PULSE
                            &&& final(self).procs@[q as int].regs.rdi == gid
                            &&& final(self).procs@[q as int].regs.rsi == pulses
                            &&& final(self).cpu.runqueue@.contains(p)
                        } else {
                            &&& final(self).cpu.process == Some(p)
                            &&& final(self).procs@[p as int].regs.rax == 0
                            &&& final(self).handles@[g as int].pulses == old(self).handles@[g as int].pulses | pulses
                            &&& old(self).handles@[g as int].pulses == 0 ==> final(self).procs@[q as int].pending@.contains(g)
                        }
                    },
                },
            },
    {
        let h = match self.find_handle(p, handle) {
            Some(h) => h,
            None => return self.syscall_return(p, 0),
        };
        let q = self.handles[h].process;
        let g = match self.handles[h].other {
            Some(g) => g,
            None => return self.syscall_return(p, 0),
        };
        let gid = self.handles[g].id;
        if self.can_deliver_pulse(q, gid) {
            proof {
                lemma_ipc_bits(self.procs@[q as int].flags);
                assert(q != p);
            }
            self.queue(p);
            proof {
                lemma_flag_ops(old(self).procs@[p as int].flags, FlagBit::Queued, FlagBit::InRecv);
            }
            let r = self.deliver_pulse(q, gid, pulses);
            return r;
        }
        if self.add_pulses(g, pulses) == 0 {
            self.add_pending(q, g);
        }
        self.syscall_return(p, 0)
    }

    /// Delivers the delayed interrupts to `p` as a pulse on id 0 if it waits
    /// in a matching receive.
    pub fn try_deliver_irq(&mut self, p: usize) -> (r: Option<Exit>)
        requires
            old(self).wf(),
            old(self).in_kernel(),
            p < old(self).procs@.len(),
        ensures
            final(self).wf(),
            final(self).procs@.len() == old(self).procs@.len(),
            final(self).spaces@ == old(self).spaces@,
            final(self).kernel_pdp == old(self).kernel_pdp,
            old(self).spec_can_deliver(p, 0) ==> r == Some(Exit::SlowRet { pid: p }) && final(self).exited(r.unwrap())
                && final(self).cpu.irq_delayed == 0 && final(self).procs@[p as int].regs.rsi == old(self).cpu.irq_delayed
                && final(self).procs@[p as int].regs.rdi == 0 && final(self).procs@[p as int].regs.rax == PULSE
                && !final(self).procs@[p as int].spec_is(FlagBit::InRecv) && !final(self).procs@[p as int].spec_is(FlagBit::FastRet),
            !old(self).spec_can_deliver(p, 0) ==> r is None && *final(self) == *old(self),
    {
        let irqs = self.cpu.irq_delayed;
        if self.can_deliver_pulse(p, 0) {
            self.cpu.irq_delayed = 0;
            Some(self.deliver_pulse(p, 0, irqs))
        } else {
            None
        }
    }

    /// An interrupt at vector `vec` (32 to 48): its bit is recorded, and
    /// delivered at once when the interrupt process waits in a matching
    /// receive. None when the kernel is to go on scheduling.
    pub fn generic_irq_handler(&mut self, vec: u8) -> (r: Option<Exit>)
        requires
            old(self).wf(),
            old(self).in_kernel(),
        ensures
            final(self).wf(),
            final(self).procs@.len() == old(self).procs@.len(),
            r matches Some(e) ==> final(self).exited(e),
            r is None ==> final(self).in_kernel() && final(self).procs@ == old(self).procs@ && final(self).cpu.runqueue
                == old(self).cpu.runqueue,
            !(32 <= vec <= 48) ==> r == Some(Exit::Halt(Fault::InvalidIrqVector)),
            32 <= vec <= 48 ==> {
                let mask = 1u64 << ((vec - 32) as u64);
                &&& old(self).cpu.irq_delayed & mask != 0 ==> r is None && *final(self) == *old(self)
                &&& old(self).cpu.irq_delayed & mask == 0 && old(self).cpu.irq_process is None ==> r == Some(
                    Exit::Halt(Fault::NoIrqProcess),
                )
                &&& (old(self).cpu.irq_delayed & mask == 0 && old(self).cpu.irq_process is Some) ==> {
                    let i = old(self).cpu.irq_process.unwrap();
                    if old(self).spec_can_deliver(i, 0) {
                        &&& r == Some(Exit::SlowRet { pid: i })
                        &&& final(self).cpu.irq_delayed == 0
                        &&& final(self).procs@[i as int].regs.rsi == old(self).cpu.irq_delayed | mask
                        &&& final(self).procs@[i as int].regs.rax == PULSE
                        &&& final(self).procs@[i as int].regs.rdi == 0
                        &&& !final(self).procs@[i as int].spec_is(FlagBit::InRecv)
                        &&& !final(self).procs@[i as int].spec_is(FlagBit::FastRet)
                    } else {
                        &&& r is None
                        &&& final(self).cpu.irq_delayed == old(self).cpu.irq_delayed | mask
                        &&& !final(self).spec_can_deliver(i, 0)
                    }
                }
            },
    {
        if vec < 32 || vec > 48 {
            return Some(Exit::Halt(Fault::InvalidIrqVector));
        }
        let mask: u64 = 1u64 << ((vec - 32) as u64);
        if self.cpu.irq_delayed & mask != 0 {
            return None;
        }
        self.cpu.irq_delayed = self.cpu.irq_delayed | mask;
        let p = match self.cpu.irq_process {
            Some(p) => p,
            None => return Some(Exit::Halt(Fault::NoIrqProcess)),
        };
        self.try_deliver_irq(p)
    }

    /// The kernel can back page `vaddr` of `p`'s space itself: a backing is
    /// there, or the covering card is kernel-backed with some access, and a
    /// frame is left if it is anonymous.
    pub open spec fn fault_servable(&self, p: usize, vaddr: u64) -> bool {
        let sp = self.spaces@[self.procs@[p as int].aspace as int];
        let c = sp.covering_card(vaddr);
        backing_at(sp.backing_map(), vaddr) is Some || (new_backing(c, vaddr, 0) is Ok && (needs_frame(c.unwrap())
            ==> self.cpu.memory.available().len() > 0))
    }

    /// A fault at page `vaddr` of `p`'s space is the backer's to serve: the
    /// covering card names a handle and no backing is installed.
    pub open spec fn fault_call(&self, p: usize, vaddr: u64) -> bool {
        let sp = self.spaces@[self.procs@[p as int].aspace as int];
        effective_card(sp.cards(), vaddr).handle != 0 && backing_at(sp.backing_map(), vaddr) is None
    }

    /// What a fault served by a backer leads to: a call to the card's handle
    /// with PFAULT, the offset in the backer's terms and the access; `p`
    /// waits for the page (in its send while the backer is not receiving).
    pub open spec fn fault_call_outcome(&self, p: usize, vaddr: u64, access: u64, after: Kernel, r: Exit) -> bool {
        let sp = self.spaces@[self.procs@[p as int].aspace as int];
        let card = effective_card(sp.cards(), vaddr);
        let pr = after.procs@[p as int];
        match self.spec_find_handle(p, card.handle) {
            None => r == Exit::Halt(Fault::NoRecipient),
            Some(h) => {
                &&& !self.ready_to_receive(h) ==> {
                    &&& r !is Halt
                    &&& pr.spec_is(FlagBit::PFault)
                    &&& pr.spec_is(FlagBit::InSend)
                    &&& pr.spec_is(FlagBit::InRecv)
                    &&& pr.regs.rax == PFAULT | MSG_KIND_CALL
                    &&& pr.regs.rdi == card.handle
                    &&& pr.regs.rsi == vstd::wrapping::u64_specs::wrapping_add(vaddr, card.offset & !0xfffu64)
                    &&& pr.regs.rdx == access & 7
                }
                &&& self.ready_to_receive(h) && r !is Halt ==> pr.spec_is(FlagBit::PFault) && pr.spec_is(FlagBit::InRecv)
                    && !pr.spec_is(FlagBit::InSend)
            },
        }
    }

    /// A fault by `p` at page `vaddr` with access `access`: a page the kernel
    /// backs is installed at once; a page backed through a handle becomes a
    /// call to that handle's process, which answers with a grant.
    fn handle_fault(&mut self, p: usize, vaddr: u64, access: u64, from_syscall: bool) -> (r: Exit)
        requires
            old(self).wf(),
            old(self).in_kernel(),
            p < old(self).procs@.len(),
            old(self).procs@[p as int].spec_ipc_state() == 0,
            !old(self).procs@[p as int].spec_is(FlagBit::Queued),
            old(self).handles@.len() < usize::MAX,
            vaddr & 0xfff == 0,
        ensures
            final(self).wf(),
            final(self).exited(r),
            final(self).procs@.len() == old(self).procs@.len(),
            final(self).cpu.irq_process == old(self).cpu.irq_process,
            ({
                let a = old(self).procs@[p as int].aspace as int;
                let sp = old(self).spaces@[a];
                (effective_card(sp.cards(), vaddr).handle == 0 || backing_at(sp.backing_map(), vaddr) is Some)
                    && r !is Halt ==> {
                    &&& final(self).cpu.process == Some(p)
                    &&& final(self).spaces@[a].translation(vaddr) is Some
                    &&& !final(self).procs@[p as int].spec_is(FlagBit::PFault)
                }
            }),
            old(self).fault_servable(p, vaddr) ==> r != Exit::Halt(Fault::BackingFailed),
            old(self).fault_servable(p, vaddr) && vaddr < 0x8000_0000_0000 && old(self).cpu.memory.available().len() >= 4
                ==> r !is Halt,
            old(self).fault_call(p, vaddr) ==> old(self).fault_call_outcome(p, vaddr, access, *final(self), r),
    {
        self.procs[p].fault_addr = vaddr;
        proof {
            lemma_flag_ops(self.procs@[p as int].flags, FlagBit::PFault, FlagBit::PFault);
            assert((0u8 | 32u8) & !32u8 == 0) by (bit_vector);
        }
        self.set_flag(p, FlagBit::PFault);
        let prot = access & (RWX as u64);
        let a = self.procs[p].aspace;
        let card = self.spaces[a].mapcard_find_def(vaddr);
        // A page already backed (by the kernel or by a grant) only needs its entry.
        if card.handle == 0 || self.spaces[a].find_backing(vaddr).is_some() {
            let back = match self.spaces[a].find_add_backing(vaddr, &mut self.cpu.memory) {
                Ok(b) => b,
                Err(_) => return Exit::Halt(Fault::BackingFailed),
            };
            proof {
                assert forall|f: u64| #[trigger] self.cpu.memory.available().contains(f) implies !self.spaces@[a as int].uses_frame(f) by {
                    assert(old(self).cpu.memory.available().contains(f));
                    assert(!old(self).spaces@[a as int].uses_frame(f));
                }
            }
            if !self.spaces[a].add_pte(back.vaddr(), back.pte(), &mut self.cpu.memory) {
                return Exit::Halt(Fault::OutOfMemory);
            }
            proof {
                lemma_flag_ops(self.procs@[p as int].flags, FlagBit::PFault, FlagBit::Queued);
                lemma_flag_ops(self.procs@[p as int].flags, FlagBit::PFault, FlagBit::PFault);
                assert((32u8 & 44u8) & !32u8 == 0) by (bit_vector);
            }
            self.unset_flag(p, FlagBit::PFault);
            let ghost mid = *self;
            let r = if from_syscall {
                self.syscall_return(p, 0)
            } else {
                self.switch_to(p)
            };
            proof {
                lemma_ipc_bits(mid.procs@[p as int].flags);
                lemma_ipc_bits(self.procs@[p as int].flags);
                assert(mid.spaces@[a as int].translation(vaddr) is Some);
            }
            return r;
        }
        let offset = card.paddr(vaddr);
        proof {
            lemma_flag_ops(old(self).procs@[p as int].flags, FlagBit::PFault, FlagBit::InRecv);
            lemma_flag_ops(old(self).procs@[p as int].flags, FlagBit::PFault, FlagBit::PFault);
            lemma_ipc_bits(old(self).procs@[p as int].flags);
            lemma_ipc_bits(self.procs@[p as int].flags);
            assert(self.spec_find_handle(p, card.handle) == old(self).spec_find_handle(p, card.handle));
            lemma_handle_from_bounds(self.handles@, p, card.handle, 0);
            if let Some(h) = self.spec_find_handle(p, card.handle) {
                let t = self.handles@[h].process;
                if t != p {
                    assert(self.procs@[t as int] == old(self).procs@[t as int]);
                }
                assert(self.ready_to_receive(h) == old(self).ready_to_receive(h));
            }
            assert(prot == access & 7) by (bit_vector)
                requires
                    prot == access & (7u8 as u64),
            ;
        }
        let ghost mid = *self;
        self.ipc_call(p, call(PFAULT), card.handle, offset, prot, 0, 0, 0)
    }

    /// The page-fault system call: `p` asks for the page at `vaddr`.
    pub fn syscall_pfault(&mut self, p: usize, vaddr: u64, access: u64) -> (r: Exit)
        requires
            old(self).wf(),
            old(self).in_kernel(),
            p < old(self).procs@.len(),
            old(self).procs@[p as int].spec_ipc_state() == 0,
            !old(self).procs@[p as int].spec_is(FlagBit::Queued),
            old(self).handles@.len() < usize::MAX,
        ensures
            final(self).wf(),
            old(self).fault_servable(p, vaddr & !0xfffu64) && vaddr < 0x8000_0000_0000 && old(self).cpu.memory.available().len() >= 4
                ==> r !is Halt,
            old(self).fault_call(p, vaddr & !0xfffu64) ==> old(self).fault_call_outcome(p, vaddr & !0xfffu64, access, *final(self), r),
            old(self).fault_servable(p, vaddr & !0xfffu64) && (vaddr & !0xfffu64) < 0x8000_0000_0000_0000 ==> r != Exit::Halt(Fault::BackingFailed),
            final(self).exited(r),
            final(self).procs@.len() == old(self).procs@.len(),
            final(self).cpu.irq_process == old(self).cpu.irq_process,
            ({
                let a = old(self).procs@[p as int].aspace as int;
                let sp = old(self).spaces@[a];
                let v = vaddr & !0xfffu64;
                (effective_card(sp.cards(), v).handle == 0 || backing_at(sp.backing_map(), v) is Some) && r !is Halt
                    ==> final(self).cpu.process == Some(p) && final(self).spaces@[a].translation(v) is Some
                    && !final(self).procs@[p as int].spec_is(FlagBit::PFault)
            }),
    {
        proof {
            lemma_page_bits(vaddr);
        }
        self.handle_fault(p, vaddr & !PAGE_MASK, access, true)
    }

    /// A hardware page fault in `p` at `fault_addr`, with the CPU's error
    /// code `error`. Faults in kernel mode or at kernel addresses halt.
    pub fn page_fault(&mut self, p: usize, error: u64, fault_addr: u64) -> (r: Exit)
        requires
            old(self).wf(),
            old(self).in_kernel(),
            p < old(self).procs@.len(),
            old(self).procs@[p as int].spec_ipc_state() == 0,
            !old(self).procs@[p as int].spec_is(FlagBit::Queued),
            old(self).handles@.len() < usize::MAX,
        ensures
            final(self).wf(),
            old(self).fault_servable(p, fault_addr & !0xfffu64) && fault_addr < 0x8000_0000_0000 && old(self).cpu.memory.available().len() >= 4
                && error & PF_USER != 0 ==> r !is Halt,
            error & PF_USER != 0 && fault_addr < 0x8000_0000_0000_0000 && old(self).fault_call(p, fault_addr & !0xfffu64)
                ==> old(self).fault_call_outcome(
                p,
                fault_addr & !0xfffu64,
                if error & PF_WRITE != 0 { 2 } else if error & PF_INSTR != 0 { 1 } else { 4 },
                *final(self),
                r,
            ),
            old(self).fault_servable(p, fault_addr & !0xfffu64) && (fault_addr & !0xfffu64) < 0x8000_0000_0000_0000 ==> r != Exit::Halt(Fault::BackingFailed),
            final(self).exited(r),
            final(self).procs@.len() == old(self).procs@.len(),
            final(self).cpu.irq_process == old(self).cpu.irq_process,
            ({
                let a = old(self).procs@[p as int].aspace as int;
                let sp = old(self).spaces@[a];
                let v = fault_addr & !0xfffu64;
                (effective_card(sp.cards(), v).handle == 0 || backing_at(sp.backing_map(), v) is Some) && r !is Halt
                    ==> final(self).cpu.process == Some(p) && final(self).spaces@[a].translation(v) is Some
                    && !final(self).procs@[p as int].spec_is(FlagBit::PFault)
            }),
            error & PF_USER == 0 ==> r == Exit::Halt(Fault::KernelPageFault),
            error & PF_USER != 0 && fault_addr >= 0x8000_0000_0000_0000 ==> r == Exit::Halt(Fault::KernelAddressFault),
    {
        if error & PF_USER == 0 {
            return Exit::Halt(Fault::KernelPageFault);
        }
        if fault_addr >= 0x8000_0000_0000_0000 {
            return Exit::Halt(Fault::KernelAddressFault);
        }
        let access: u64 = if error & PF_WRITE != 0 {
            W as u64
        } else if error & PF_INSTR != 0 {
            X as u64
        } else {
            R as u64
        };
        proof {
            lemma_page_bits(fault_addr);
        }
        self.handle_fault(p, fault_addr & !PAGE_MASK, access, false)
    }

    /// Maps `[addr, addr + size)` of `p`'s space through `handle` at `offset`
    /// with access `prot`. For DMA memory a frame is allocated first and
    /// its physical address returned; without a frame, the range is mapped
    /// with no access and 0 is returned.
    pub fn syscall_map(&mut self, p: usize, handle: u64, prot: u64, addr: u64, offset: u64, size: u64) -> (r: Exit)
        requires
            old(self).wf(),
            old(self).in_kernel(),
            p < old(self).procs@.len(),
            old(self).procs@[p as int].spec_ipc_state() == 0,
            !old(self).procs@[p as int].spec_is(FlagBit::Queued),
        ensures
            final(self).wf(),
            final(self).exited(r),
            final(self).cpu.process == Some(p),
            old(self).procs@[p as int].spec_is(FlagBit::FastRet) ==> r == (Exit::FastRet { pid: p, rax: final(self).procs@[p as int].regs.rax }),
            final(self).procs@.len() == old(self).procs@.len(),
            final(self).cpu.irq_process == old(self).cpu.irq_process,
            ({
                let a = old(self).procs@[p as int].aspace as int;
                let pr = prot & (UserAllowed as u64);
                pr & (DMA as u64) != (DMA as u64) ==> {
                    &&& final(self).spaces@[a].cards() == map_range_spec(
                        old(self).spaces@[a].cards(),
                        addr,
                        vstd::wrapping::u64_specs::wrapping_add(addr, size),
                        handle,
                        vstd::wrapping::u64_specs::wrapping_sub(offset, addr) | pr,
                    )
                    &&& final(self).procs@[p as int].regs.rax == (if pr & (Phys as u64) != 0 { offset } else { 0 })
                }
            }),
            ({
                let a = old(self).procs@[p as int].aspace as int;
                let pr = prot & (UserAllowed as u64);
                let rax = final(self).procs@[p as int].regs.rax;
                let end = vstd::wrapping::u64_specs::wrapping_add(addr, size);
                pr & (DMA as u64) == (DMA as u64) && old(self).cpu.memory.available().len() == 0 ==> rax == 0
                    && final(self).spaces@[a].cards() == map_range_spec(old(self).spaces@[a].cards(), addr, end, handle, 0)
            }),
            ({
                let a = old(self).procs@[p as int].aspace as int;
                let pr = prot & (UserAllowed as u64);
                let rax = final(self).procs@[p as int].regs.rax;
                let end = vstd::wrapping::u64_specs::wrapping_add(addr, size);
                pr & (DMA as u64) == (DMA as u64) ==> {
                    &&& old(self).cpu.memory.available().len() > 0 ==> {
                        &&& good_frame(rax)
                        &&& old(self).cpu.memory.available().contains(rax)
                        &&& final(self).spaces@[a].cards() == map_range_spec(
                            old(self).spaces@[a].cards(),
                            addr,
                            end,
                            handle,
                            vstd::wrapping::u64_specs::wrapping_sub(rax, addr) | pr,
                        )
                    }
                }
            }),
    {
        let ghost prot0 = prot;
        let mut prot = prot & (UserAllowed as u64);
        let mut offset = offset;
        if prot & (DMA as u64) == (DMA as u64) {
            match self.cpu.memory.alloc_frame() {
                None => {
                    prot = 0;
                    offset = addr;
                    proof {
                        assert(vstd::wrapping::u64_specs::wrapping_sub(addr, addr) == 0);
                        assert((0u64 | 0u64) == 0u64 && (0u64 & 16u64) == 0u64) by (bit_vector);
                    }
                },
                Some(f) => {
                    offset = f;
                    proof {
                        assert((prot & 16u64) != 0u64) by (bit_vector)
                            requires
                                prot & 24u64 == 24u64,
                        ;
                    }
                },
            }
        }
        let a = self.procs[p].aspace;
        let ghost cards0 = self.spaces@[a as int].cards();
        self.spaces[a].map_range(addr, addr.wrapping_add(size), handle, offset.wrapping_sub(addr) | prot);
        if prot & (Phys as u64) == 0 {
            offset = 0;
        }
        let r = self.syscall_return(p, offset);
        proof {
            assert(cards0 == old(self).spaces@[a as int].cards());
            assert(self.procs@[p as int].regs.rax == offset);
        }
        r
    }

    /// Ends a grant: `q`, the process at the other end of `p`'s handle `h`
    /// (id `id`), no longer waits for a page and is answered with GRANT if it
    /// waits in its fault call, else queued.
    fn finish_grant(&mut self, p: usize, id: u64, h: usize, q: usize, prot: u64) -> (r: Exit)
        requires
            old(self).wf(),
            old(self).in_kernel(),
            p < old(self).procs@.len(),
            q < old(self).procs@.len(),
            q != p,
            old(self).procs@[p as int].spec_ipc_state() == 0,
            !old(self).procs@[p as int].spec_is(FlagBit::Queued),
            old(self).handles@.len() < usize::MAX,
            old(self).spec_find_handle(p, id) == Some(h as int),
            old(self).handles@[h as int].process == q,
        ensures
            final(self).wf(),
            final(self).exited(r),
            r matches Exit::Halt(e) ==> ipc_fault(e),
            final(self).spaces@ == old(self).spaces@,
            final(self).kernel_pdp == old(self).kernel_pdp,
            final(self).procs@.len() == old(self).procs@.len(),
            final(self).cpu.irq_process == old(self).cpu.irq_process,
            old(self).handles@[h as int].other is Some ==> r !is Halt,
            r !is Halt ==> !final(self).procs@[q as int].spec_is(FlagBit::PFault),
            r !is Halt && old(self).procs@[q as int].spec_is(FlagBit::InRecv) && !final(self).procs@[q as int].spec_is(
                FlagBit::InRecv,
            ) ==> final(self).procs@[q as int].regs.rax == GRANT,
            r !is Halt && old(self).procs@[q as int].spec_ipc_state() == FlagBit::PFault.spec_mask() ==> final(self).cpu.runqueue@.contains(q),
    {
        proof {
            lemma_flag_ops(self.procs@[q as int].flags, FlagBit::PFault, FlagBit::PFault);
            lemma_flag_ops(self.procs@[q as int].flags, FlagBit::PFault, FlagBit::InRecv);
        }
        self.unset_flag(q, FlagBit::PFault);
        let ghost mid = *self;
        proof {
            lemma_ipc_bits(mid.procs@[q as int].flags);
            lemma_ipc_bits(old(self).procs@[q as int].flags);
            let x = old(self).procs@[q as int].flags;
            assert((x & 44u8) == 32u8 ==> ((x & !32u8) & 44u8) == 0u8) by (bit_vector);
        }
        if self.procs[q].is(FlagBit::InRecv) {
            // An explicit fault: answer the fault call with a send.
            let fa = self.procs[q].fault_addr;
            let r = self.ipc_send(p, GRANT, id, fa, prot, 0, 0, 0);
            proof {
                lemma_ipc_bits(self.procs@[q as int].flags);
            }
            r
        } else {
            // The faulting process resumes when it is next switched to.
            if self.procs[q].ipc_state() == 0 {
                proof {
                    lemma_flag_ops(mid.procs@[q as int].flags, FlagBit::Queued, FlagBit::PFault);
                }
                self.queue(q);
            }
            self.syscall_return(p, 0)
        }
    }

    /// `p`'s handle `id` is paired, and the process at its other end waits
    /// for a page whose card names the paired handle.
    pub open spec fn grant_matches(&self, p: usize, id: u64) -> bool {
        match self.spec_find_handle(p, id) {
            None => false,
            Some(h) => {
                let q = self.handles@[h].process;
                match self.handles@[h].other {
                    None => false,
                    Some(g) => {
                        &&& self.procs@[q as int].spec_is(FlagBit::PFault)
                        &&& effective_card(
                            self.spaces@[self.procs@[q as int].aspace as int].cards(),
                            self.procs@[q as int].fault_addr,
                        ).handle == self.handles@[g as int].id
                    },
                }
            },
        }
    }

    /// The access a grant of `prot` through handle `id` of `p` gives: read,
    /// write and execute bits of `prot` that the faulting card allows.
    pub open spec fn grant_prot(&self, p: usize, id: u64, prot: u64) -> u8 {
        let h = self.spec_find_handle(p, id).unwrap();
        let q = self.handles@[h].process;
        let card = effective_card(
            self.spaces@[self.procs@[q as int].aspace as int].cards(),
            self.procs@[q as int].fault_addr,
        );
        ((prot & 7) & (card_flags(card.offset) as u64)) as u8
    }

    /// Page `va` of space `s` has a backing or can be given one.
    pub open spec fn can_share(&self, s: usize, va: u64) -> bool {
        let sp = self.spaces@[s as int];
        backing_at(sp.backing_map(), va) is Some || !(new_backing(sp.covering_card(va), va, 0) is Err || (
        needs_frame(sp.covering_card(va).unwrap()) && self.cpu.memory.available().len() == 0))
    }

    /// `p` answers a page fault of the process at the other end of its
    /// handle `id` with its own page at `vaddr`, access at most `prot`. The
    /// faulting process must be waiting for exactly this handle; it gets a
    /// backing on the shared page and is resumed with a GRANT message.
    #[verifier::rlimit(100)]
    pub fn syscall_grant(&mut self, p: usize, id: u64, vaddr: u64, prot: u64) -> (r: Exit)
        requires
            old(self).wf(),
            old(self).in_kernel(),
            p < old(self).procs@.len(),
            old(self).procs@[p as int].spec_ipc_state() == 0,
            !old(self).procs@[p as int].spec_is(FlagBit::Queued),
            old(self).handles@.len() < usize::MAX,
        ensures
            final(self).wf(),
            final(self).exited(r),
            final(self).procs@.len() == old(self).procs@.len(),
            final(self).cpu.irq_process == old(self).cpu.irq_process,
            old(self).spec_find_handle(p, id) is None ==> r == Exit::Halt(Fault::NoRecipient),
            old(self).spec_find_handle(p, id) matches Some(h) ==> {
                let q = old(self).handles@[h].process;
                &&& old(self).handles@[h].other is None ==> r == Exit::Halt(Fault::UnpairedHandle)
                &&& old(self).handles@[h].other is Some && !old(self).procs@[q as int].spec_is(FlagBit::PFault)
                    ==> r == Exit::Halt(Fault::GrantToNonFaulting)
            },
            old(self).grant_matches(p, id) ==> {
                let h = old(self).spec_find_handle(p, id).unwrap();
                let q = old(self).handles@[h].process;
                let pa = old(self).procs@[p as int].aspace;
                let qa = old(self).procs@[q as int].aspace;
                let va = vaddr & !0xfffu64;
                let fa = old(self).procs@[q as int].fault_addr & !0xfffu64;
                let key = fa | (old(self).grant_prot(p, id, prot) as u64);
                &&& r != Exit::Halt(Fault::WrongHandleGranted)
                &&& r != Exit::Halt(Fault::GrantToNonFaulting)
                &&& r !is Halt ==> !final(self).procs@[q as int].spec_is(FlagBit::PFault)
                &&& r !is Halt && old(self).procs@[q as int].spec_is(FlagBit::InRecv) && !final(self).procs@[q as int].spec_is(
                    FlagBit::InRecv,
                ) ==> final(self).procs@[q as int].regs.rax == GRANT
                &&& r !is Halt && old(self).procs@[q as int].spec_ipc_state() == FlagBit::PFault.spec_mask() ==> final(self).cpu.runqueue@.contains(q)
                &&& (pa != qa && old(self).can_share(pa, va) && backing_at(old(self).spaces@[qa as int].backing_map(), fa) is None)
                    ==> {
                    let sh = final(self).spaces@[pa as int].sharing_map()[va];
                    let b = final(self).spaces@[qa as int].backing_map()[key];
                    &&& r !is Halt
                    &&& final(self).spaces@[pa as int].sharing_map().contains_key(va)
                    &&& final(self).spaces@[qa as int].backing_map().contains_key(key)
                    &&& b.parent == Some(SharingRef { aspace: pa, vaddr: va })
                    &&& b.phys == sh.paddr
                    &&& b.spec_vaddr() == fa
                    &&& b.spec_flags() == old(self).grant_prot(p, id, prot)
                    &&& sh.children@.contains(BackingRef { aspace: qa, key })
                    &&& !old(self).spaces@[pa as int].sharing_map().contains_key(va) ==> backing_at(
                        final(self).spaces@[pa as int].backing_map(),
                        va,
                    ) is Some && sh.paddr == backing_at(final(self).spaces@[pa as int].backing_map(), va).unwrap().phys
                }
            },
    {
        let ghost prot0 = prot;
        let va = vaddr & !PAGE_MASK;
        let pr0 = prot & (RWX as u64);
        let h = match self.find_handle(p, id) {
            Some(h) => h,
            None => return Exit::Halt(Fault::NoRecipient),
        };
        let q = self.handles[h].process;
        let g = match self.handles[h].other {
            Some(g) => g,
            None => return Exit::Halt(Fault::UnpairedHandle),
        };
        if !self.procs[q].is(FlagBit::PFault) {
            return Exit::Halt(Fault::GrantToNonFaulting);
        }
        proof {
            lemma_ipc_bits(self.procs@[q as int].flags);
            assert(q != p);
        }
        let qa = self.procs[q].aspace;
        let fault_addr = self.procs[q].fault_addr & !PAGE_MASK;
        let card = self.spaces[qa].mapcard_find_def(self.procs[q].fault_addr);
        // The faulting process must have asked this very process.
        if card.handle != self.handles[g].id {
            return Exit::Halt(Fault::WrongHandleGranted);
        }
        let cf = card.flags() as u64;
        let pr = pr0 & cf;
        let pa = self.procs[p].aspace;
        proof {
            lemma_page_bits(vaddr);
            let fa0 = self.procs@[q as int].fault_addr;
            assert(fault_addr & 0xfff == 0) by (bit_vector)
                requires
                    fault_addr == fa0 & !0xfffu64,
            ;
            assert(pr < 8) by (bit_vector)
                requires
                    pr == (prot & 7) & cf,
            ;
        }
        let vaddr = va;
        let prot = pr;
        let ghost k0 = *self;
        let shared = self.spaces[pa].share_backing(vaddr, pa, &mut self.cpu.memory);
        proof {
            assert(self.spaces_extend(&k0));
            self.lemma_sharings_extend(&k0);
        }
        let share = match shared {
            Ok(sr) => sr,
            Err(_) => return Exit::Halt(Fault::BackingFailed),
        };
        let back = match self.add_shared_backing(qa, fault_addr, prot as u8, share) {
            Ok(b) => b,
            Err(_) => return Exit::Halt(Fault::BackingFailed),
        };
        let child = BackingRef { aspace: qa, key: back.key };
        proof {
            let key = fault_addr | (prot as u8 as u64);
            lemma_backing_key(fault_addr, prot as u8);
            assert(back.key == key);
            assert(self.spaces@[qa as int].backing_map().contains_key(key));
            assert(self.spaces@[pa as int].sharing_map()[vaddr].children@.last() == child);
            assert(self.spaces@[pa as int].sharing_map()[vaddr].children@.contains(child));
            assert(prot as u8 == old(self).grant_prot(p, id, prot0));
        }
        proof {
            assert(self.spec_find_handle(p, id) == Some(h as int));
            lemma_ipc_bits(self.procs@[q as int].flags);
        }
        self.finish_grant(p, id, h, q, prot)
    }

    /// Handle operations on `p`'s handle `id`: with `copy` non-zero, a fresh
    /// handle `copy` to the same process is made first; then with `rename`
    /// 0 the handle is deleted, else renamed to `rename`.
    #[verifier::rlimit(100)]
    pub fn syscall_hmod(&mut self, p: usize, id: u64, rename: u64, copy: u64) -> (r: Exit)
        requires
            old(self).wf(),
            old(self).in_kernel(),
            p < old(self).procs@.len(),
            old(self).procs@[p as int].spec_ipc_state() == 0,
            !old(self).procs@[p as int].spec_is(FlagBit::Queued),
            old(self).handles@.len() < usize::MAX,
        ensures
            final(self).wf(),
            final(self).exited(r),
            final(self).cpu.process == Some(p),
            final(self).procs@[p as int].regs.rax == 0,
            final(self).procs@.len() == old(self).procs@.len(),
            final(self).cpu.irq_process == old(self).cpu.irq_process,
            old(self).spec_find_handle(p, id) is None ==> final(self).handles@ == old(self).handles@,
            old(self).spec_find_handle(p, id) matches Some(h) ==> {
                let n = old(self).handles@.len() as int;
                &&& copy != 0 && old(self).spec_find_handle(p, copy) is None ==> final(self).handles@.len() == n + 1
                    && final(self).handles@[n].id == copy && final(self).handles@[n].owner == p
                    && final(self).handles@[n].process == old(self).handles@[h].process
                &&& copy == 0 ==> final(self).handles@.len() == n
                &&& rename == 0 ==> !final(self).handles@[h].live && final(self).handles@[h].other is None
                &&& rename != 0 && rename != id && copy == 0 ==> final(self).handles@[h].id == rename
                    && final(self).handles@[h].live
                &&& copy != 0 && copy != id && copy != rename ==> {
                    let c = final(self).spec_find_handle(p, copy);
                    &&& c == Some(n)
                    &&& final(self).handles@[n].process == old(self).handles@[h].process
                }
                &&& copy != 0 && old(self).spec_find_handle(p, copy) is Some && old(self).spec_find_handle(p, copy).unwrap() != h
                    ==> !final(self).handles@[old(self).spec_find_handle(p, copy).unwrap()].live
                &&& rename != 0 && rename != id && copy != id ==> final(self).spec_find_handle(p, rename) == Some(h)
            },
    {
        match self.find_handle(p, id) {
            None => {},
            Some(h) => {
                let ghost k0 = *self;
                if copy != 0 {
                    let target = self.handles[h].process;
                    self.new_handle(p, copy, target);
                }
                let ghost k1 = *self;
                proof {
                    lemma_handle_from_bounds(k0.handles@, p, copy, 0);
                    if copy != 0 && copy != id {
                        assert(k1.handles@[h as int].live && k1.handles@[h as int].owner == p && k1.handles@[h as int].id == id);
                    }
                }
                if rename == 0 {
                    self.delete_handle(p, h);
                } else if rename != id {
                    self.rename_handle(h, rename);
                }
                proof {
                    let n = k0.handles@.len() as int;
                    if copy != 0 && copy != id && copy != rename {
                        assert(k1.handles@[n].other is None);
                        assert(k1.handles@[h as int].other != Some(n as usize));
                        lemma_handle_from_bounds(k1.handles@, p, rename, 0);
                        assert(self.handles@[n].live && self.handles@[n].owner == p && self.handles@[n].id == copy);
                        self.lemma_find_handle(p, copy, n);
                    }
                    if copy != 0 && copy != id && copy != rename {
                        assert(self.spec_find_handle(p, copy) == Some(n));
                        assert(self.handles@[n].process == k0.handles@[h as int].process);
                    }
                    if copy != 0 {
                        if let Some(x) = k0.spec_find_handle(p, copy) {
                            if x != h {
                                assert(!k1.handles@[x].live);
                                assert(!self.handles@[x].live);
                            }
                        }
                    }
                    if rename != 0 && rename != id && copy != id {
                        assert(self.spec_find_handle(p, rename) == Some(h as int));
                    }

                }
            },
        }
        self.syscall_return(p, 0)
    }

    /// Starts port I/O for `p`; the access itself happens outside and its
    /// result comes back through `resume`.
    pub fn syscall_portio(&mut self, p: usize, port: u64, op: u64, data: u64) -> (r: Exit)
        requires
            old(self).wf(),
            old(self).in_kernel(),
            p < old(self).procs@.len(),
            old(self).procs@[p as int].spec_ipc_state() == 0,
            !old(self).procs@[p as int].spec_is(FlagBit::Queued),
            old(self).cpu.process == Some(p),
        ensures
            final(self).wf(),
            final(self).exited(r),
            *final(self) == *old(self),
            r == (match port_op(op) {
                Some(o) => Exit::PortIo { pid: p, port: port as u16, op: o, data },
                None => Exit::Halt(Fault::UnhandledPortIo),
            }),
    {
        match decode_portio(op) {
            Some(o) => Exit::PortIo { pid: p, port: port as u16, op: o, data },
            None => Exit::Halt(Fault::UnhandledPortIo),
        }
    }

    /// Returns `rax` to `pid`, which waits for the result of port I/O.
    pub fn resume(&mut self, pid: usize, rax: u64) -> (r: Exit)
        requires
            old(self).wf(),
            old(self).waits_for_io(pid),
        ensures
            final(self).wf(),
            final(self).exited(r),
            final(self).procs@[pid as int].regs.rax == rax,
    {
        self.syscall_return(pid, rax)
    }

    /// A system call by the current process: `nr` selects the operation,
    /// the others are its arguments in the order the entry stub passes them.
    #[verifier::rlimit(100)]
    pub fn syscall(
        &mut self,
        arg0: u64,
        arg1: u64,
        arg2: u64,
        arg5: u64,
        arg3: u64,
        arg4: u64,
        nr: u64,
    ) -> (r: Exit)
        requires
            old(self).wf(),
            old(self).at_user(),
            old(self).handles@.len() < usize::MAX,
        ensures
            final(self).wf(),
            final(self).exited(r),
            final(self).procs@.len() == old(self).procs@.len(),
            old(self).cpu.process is None ==> r == Exit::Halt(Fault::NoProcess),
            old(self).cpu.process is Some && (nr == UNMAP || nr == NEWPROC || (PULSE < nr && nr < USER))
                ==> r == Exit::Halt(Fault::UnhandledSyscall),
            old(self).cpu.process is Some && nr >= USER && nr & MSG_KIND_MASK != MSG_KIND_CALL && nr
                & MSG_KIND_MASK != MSG_KIND_SEND ==> r == Exit::Halt(Fault::UnknownIpcKind),
            old(self).cpu.process matches Some(p) ==> {
                let a = old(self).procs@[p as int].aspace as int;
                let pr = arg1 & (UserAllowed as u64);
                &&& nr == RECV && (arg0 == 0 || old(self).spec_find_handle(p, arg0) is None) && old(self).no_sender(p)
                    ==> old(self).recv_any_outcome(p, *final(self), r)
                &&& nr == PORTIO ==> r == (match port_op(arg1) {
                    Some(o) => Exit::PortIo { pid: p, port: arg0 as u16, op: o, data: arg2 },
                    None => Exit::Halt(Fault::UnhandledPortIo),
                })
                &&& nr == HMOD && old(self).spec_find_handle(p, arg0) is None ==> final(self).handles@ == old(self).handles@
                &&& nr == HMOD && old(self).spec_find_handle(p, arg0) is Some && arg1 == 0 ==> !final(self).handles@[old(
                    self,
                ).spec_find_handle(p, arg0).unwrap()].live
                &&& (nr == GRANT || (nr >= USER && nr & MSG_KIND_MASK == MSG_KIND_SEND)) && old(self).spec_find_handle(
                    p,
                    arg0,
                ) is None ==> r == Exit::Halt(Fault::NoRecipient)
                &&& nr >= USER && nr & MSG_KIND_MASK == MSG_KIND_CALL && old(self).spec_find_handle(p, arg0) is None
                    ==> r == Exit::Halt(Fault::NoRecipient)
                &&& nr == PFAULT && old(self).fault_servable(p, arg1 & !0xfffu64) && arg1 < 0x8000_0000_0000
                    && old(self).cpu.memory.available().len() >= 4 ==> r !is Halt
                &&& nr >= USER && (nr & MSG_KIND_MASK == MSG_KIND_SEND || nr & MSG_KIND_MASK == MSG_KIND_CALL)
                    && old(self).spec_find_handle(p, arg0) is Some && old(self).handles@[old(self).spec_find_handle(p, arg0).unwrap()].other
                    is Some ==> r !is Halt
                &&& nr == PULSE && old(self).spec_find_handle(p, arg0) is None ==> final(self).cpu.process == Some(p)
                    && final(self).procs@[p as int].regs.rax == 0
                &&& nr == MAP && pr & (DMA as u64) == (DMA as u64) && old(self).cpu.memory.available().len() == 0
                    ==> r == (Exit::FastRet { pid: p, rax: 0 })
                &&& nr == WRITE ==> r == (Exit::FastRet { pid: p, rax: 0 }) && (final(self).con.cells(), final(self).con.spec_position())
                    == put(old(self).con.cells(), old(self).con.spec_position(), old(self).con.color, arg0 as u8)
                &&& nr == MAP && pr & (DMA as u64) != (DMA as u64) ==> {
                    &&& final(self).spaces@[a].cards() == map_range_spec(
                        old(self).spaces@[a].cards(),
                        arg2,
                        vstd::wrapping::u64_specs::wrapping_add(arg2, arg4),
                        arg0,
                        vstd::wrapping::u64_specs::wrapping_sub(arg3, arg2) | pr,
                    )
                    &&& r == (Exit::FastRet { pid: p, rax: (if pr & (Phys as u64) != 0 { arg3 } else { 0 }) })
                }
            },
    {
        let p = match self.cpu.process {
            Some(p) => p,
            None => return Exit::Halt(Fault::NoProcess),
        };
        proof {
            let x = self.procs@[p as int].flags;
            if self.procs@[p as int].spec_is(FlagBit::Queued) {
                self.lemma_queued_in_runqueue(p);
            }
            lemma_flag_ops(x, FlagBit::Running, FlagBit::Queued);
            lemma_flag_ops(x, FlagBit::Running, FlagBit::Running);
            lemma_flag_ops(x & !FlagBit::Running.spec_mask(), FlagBit::FastRet, FlagBit::Queued);
            lemma_flag_ops(x & !FlagBit::Running.spec_mask(), FlagBit::FastRet, FlagBit::Running);
        }
        self.leave_proc();
        self.set_flag(p, FlagBit::FastRet);
        proof {
            let x = old(self).procs@[p as int].flags;
            lemma_flag_ops(x, FlagBit::Running, FlagBit::InSend);
            lemma_flag_ops(x & !FlagBit::Running.spec_mask(), FlagBit::FastRet, FlagBit::InSend);
            lemma_flag_ops(x & !FlagBit::Running.spec_mask(), FlagBit::FastRet, FlagBit::FastRet);
            if old(self).no_sender(p) {
                assert forall|k: int| 0 <= k < self.procs@[p as int].waiters@.len() implies !self.procs@[self.procs@[p as int].waiters@[k] as int].spec_is(
                    FlagBit::InSend,
                ) by {
                    let w = self.procs@[p as int].waiters@[k];
                    assert(old(self).procs@[p as int].waiters@[k] == w);
                    assert(!old(self).procs@[w as int].spec_is(FlagBit::InSend));
                }
            }
        }
        if nr == RECV {
            self.ipc_recv(p, arg0)
        } else if nr == MAP {
            self.syscall_map(p, arg0, arg1, arg2, arg3, arg4)
        } else if nr == PFAULT {
            self.syscall_pfault(p, arg1, arg2)
        } else if nr == HMOD {
            self.syscall_hmod(p, arg0, arg1, arg2)
        } else if nr == WRITE {
            self.con.putc(arg0 as u8);
            self.syscall_return(p, 0)
        } else if nr == PORTIO {
            self.syscall_portio(p, arg0, arg1, arg2)
        } else if nr == GRANT {
            self.syscall_grant(p, arg0, arg1, arg2)
        } else if nr == PULSE {
            self.syscall_pulse(p, arg0, arg1)
        } else if nr >= USER {
            let kind = nr & MSG_KIND_MASK;
            if kind == MSG_KIND_CALL {
                proof {
                    assert((0u8 & !32u8) == 0) by (bit_vector);
                }
                self.ipc_call(p, nr, arg0, arg1, arg2, arg3, arg4, arg5)
            } else if kind == MSG_KIND_SEND {
                self.ipc_send(p, nr, arg0, arg1, arg2, arg3, arg4, arg5)
            } else {
                Exit::Halt(Fault::UnknownIpcKind)
            }
        } else {
            Exit::Halt(Fault::UnhandledSyscall)
        }
    }

    /// An interrupt or exception at vector `vec` with error code `err`; for
    /// a page fault `cr2` holds the faulting address.
    pub fn irq_entry(&mut self, vec: u8, err: u64, cr2: u64) -> (r: Exit)
        requires
            old(self).wf(),
            old(self).at_user(),
            old(self).handles@.len() < usize::MAX,
        ensures
            final(self).wf(),
            final(self).exited(r),
            final(self).procs@.len() == old(self).procs@.len(),
            vec == 7 ==> r == Exit::Halt(Fault::DeviceNotAvailable),
            vec == 14 && old(self).cpu.process is None ==> r == Exit::Halt(Fault::NoProcess),
            vec == 14 && old(self).cpu.process is Some && err & PF_USER == 0 ==> r == Exit::Halt(Fault::KernelPageFault),
            vec > 48 ==> r == Exit::Halt(Fault::InvalidIrqVector),
            32 <= vec <= 48 && old(self).cpu.irq_process is Some ==> {
                let i = old(self).cpu.irq_process.unwrap();
                let mask = 1u64 << ((vec - 32) as u64);
                &&& r !is Halt
                &&& old(self).cpu.irq_delayed & mask == 0 && old(self).spec_can_deliver(i, 0) ==> {
                    &&& r == (Exit::SlowRet { pid: i })
                    &&& final(self).cpu.irq_delayed == 0
                    &&& final(self).procs@[i as int].regs.rax == PULSE
                    &&& final(self).procs@[i as int].regs.rdi == 0
                    &&& final(self).procs@[i as int].regs.rsi == old(self).cpu.irq_delayed | mask
                }
                &&& old(self).cpu.irq_delayed & mask == 0 && !old(self).spec_can_deliver(i, 0) ==> {
                    &&& final(self).cpu.irq_delayed == old(self).cpu.irq_delayed | mask
                    &&& !final(self).spec_can_deliver(i, 0)
                }
            },
    {
        let cur = self.cpu.process;
        proof {
            if let Some(c) = cur {
                let x = self.procs@[c as int].flags;
                if self.procs@[c as int].spec_is(FlagBit::Queued) {
                    self.lemma_queued_in_runqueue(c);
                }
                lemma_flag_ops(x, FlagBit::Running, FlagBit::Queued);
                lemma_flag_ops(x, FlagBit::Running, FlagBit::Running);
            }
        }
        self.leave_proc();
        if vec == 7 {
            return Exit::Halt(Fault::DeviceNotAvailable);
        }
        if vec == 14 {
            return match cur {
                Some(p) => self.page_fault(p, err, cr2),
                None => Exit::Halt(Fault::NoProcess),
            };
        }
        if vec >= 32 {
            match cur {
                Some(p) => self.queue(p),
                None => {},
            }
            proof {
                if let Some(i) = old(self).cpu.irq_process {
                    lemma_ipc_bits(old(self).procs@[i as int].flags);
                    if cur != Some(i) {
                        assert(self.procs@[i as int] == old(self).procs@[i as int]);
                    }
                    assert(self.spec_can_deliver(i, 0) == old(self).spec_can_deliver(i, 0));
                }
            }
            match self.generic_irq_handler(vec) {
                Some(e) => return e,
                None => {},
            }
        }
        let ghost before = *self;
        let r = self.run();
        proof {
            if let Some(i) = old(self).cpu.irq_process {
                assert(self.procs@[i as int].regs == before.procs@[i as int].regs);
                assert(self.procs@[i as int].spec_ipc_state() == before.procs@[i as int].spec_ipc_state());
            }
        }
        r
    }
}

/// The port access that op code `op` names: the low bits give the width in
/// bytes, bit 4 the direction (set: out).
pub open spec fn port_op(op: u64) -> Option<PortOp> {
    if op == 0x01 {
        Some(PortOp::In8)
    } else if op == 0x02 {
        Some(PortOp::In16)
    } else if op == 0x04 {
        Some(PortOp::In32)
    } else if op == 0x11 {
        Some(PortOp::Out8)
    } else if op == 0x12 {
        Some(PortOp::Out16)
    } else if op == 0x14 {
        Some(PortOp::Out32)
    } else {
        None
    }
}

pub fn decode_portio(op: u64) -> (r: Option<PortOp>)
    ensures
        r == port_op(op),
{
    if op == 0x01 {
        Some(PortOp::In8)
    } else if op == 0x02 {
        Some(PortOp::In16)
    } else if op == 0x04 {
        Some(PortOp::In32)
    } else if op == 0x11 {
        Some(PortOp::Out8)
    } else if op == 0x12 {
        Some(PortOp::Out16)
    } else if op == 0x14 {
        Some(PortOp::Out32)
    } else {
        None
    }
}

/// A member of a queue is still in it after the head is taken, or was the head.
proof fn lemma_in_after_pop(rq: Seq<usize>, x: usize)
    requires
        rq.contains(x),
    ensures
        rq.len() > 0,
        rq[0] == x || rq.drop_first().contains(x),
{
    let k = choose|k: int| 0 <= k < rq.len() && rq[k] == x;
    if k > 0 {
        assert(rq.drop_first()[k - 1] == x);
    }
}

} // verus!
