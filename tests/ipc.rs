use ukernel::kernel::{Exit, Fault, Kernel};
use ukernel::mboot::{Info, MemoryMapItem, Module};
use ukernel::mem::{Global, PerCpu};
use ukernel::process::FlagBit;
use ukernel::syscall::{call, GRANT, MAP, PFAULT, PULSE, RECV, WRITE, PF_USER, HMOD, PORTIO};
use ukernel::kernel::PortOp;
use ukernel::mapflag::{Anon, R, W};

fn info(flags: u32) -> Info {
    Info { flags, mem_lower: 0, mem_upper: 0, cmdline: 0, mods_count: 0, mods_addr: 0, mmap_length: 0, mmap_addr: 0 }
}

fn memory(frames: u64) -> PerCpu {
    let mut g = Global::new();
    let mmap = vec![MemoryMapItem { item_size: 20, start: 0x100_0000, length: frames * 4096, item_type: 1 }];
    g.init(&info(64), &mmap, 0x100_0000, 0x4000_0000);
    PerCpu::new(g)
}

fn boot(n: u32) -> Kernel {
    let mut k = Kernel::new(memory(512), 0x7000);
    let modules: Vec<Module> = (0..n)
        .map(|i| Module { start: 0x20_0000 + i * 0x1_0000 + 0x10, end: 0x20_3000 + i * 0x1_0000, string: 0 })
        .collect();
    assert!(k.init_modules(&info(8), &modules));
    k
}

/// Runs the first queued process.
fn start(k: &mut Kernel) -> Exit {
    k.run()
}

fn user_call(k: &mut Kernel, nr: u64, a0: u64, a1: u64, a2: u64) -> Exit {
    k.syscall(a0, a1, a2, 0, 0, 0, nr)
}

#[test]
fn boot_queues_every_module_in_order() {
    let k = boot(3);
    assert_eq!(k.procs.len(), 3);
    assert_eq!(k.cpu.runqueue.iter().clone(), vec![0, 1, 2]);
    assert_eq!(k.cpu.irq_process, Some(0));
    assert_eq!(k.procs[1].rip, 0x10_0000 + 0x10);
    assert_eq!(k.procs[1].regs.rsp, 0x10_0000);
}

#[test]
fn boot_pairs_handles_by_module_number() {
    let k = boot(3);
    // Module 1 holds handle 2 to module 2, module 2 holds handle 1 to module 1.
    let h = k.find_handle(0, 2).unwrap();
    assert_eq!(k.handles[h].process, 1);
    let g = k.handles[h].other.unwrap();
    assert_eq!(k.handles[g].owner, 1);
    assert_eq!(k.handles[g].id, 1);
    assert_eq!(k.handles[g].other, Some(h));
    let h13 = k.find_handle(0, 3).unwrap();
    assert_eq!(k.handles[h13].process, 2);
    let h32 = k.find_handle(2, 2).unwrap();
    assert_eq!(k.handles[h32].process, 1);
}

#[test]
fn run_switches_to_the_queue_head() {
    let mut k = boot(2);
    let e = start(&mut k);
    assert_eq!(e, Exit::FastRet { pid: 0, rax: 0 });
    assert!(k.procs[0].is(FlagBit::Running));
    assert!(!k.procs[0].is(FlagBit::Queued));
    assert_eq!(k.cpu.process, Some(0));
}

#[test]
fn call_then_recv_transfers_the_message() {
    let mut k = boot(2);
    start(&mut k);
    // Process 1 calls its handle 2 with message 100 and argument 7.
    let e = k.syscall(2, 7, 0, 0, 0, 0, call(100));
    // It blocks; process 2 runs.
    assert_eq!(e, Exit::FastRet { pid: 1, rax: 0 });
    assert!(k.procs[0].is(FlagBit::InSend) && k.procs[0].is(FlagBit::InRecv));
    let e = user_call(&mut k, RECV, 0, 0, 0);
    assert_eq!(e, Exit::SlowRet { pid: 1 });
    let r = k.procs[1].regs;
    assert_eq!(r.rdi, 1);
    assert_eq!(r.rax, call(100));
    assert_eq!(r.rax & 0xff, 100);
    assert_eq!(r.rsi, 7);
    assert!(k.procs[1].is_runnable());
    // The caller now waits for the reply.
    assert!(k.procs[0].is(FlagBit::InRecv));
    assert!(!k.procs[0].is(FlagBit::InSend));
    assert!(!k.cpu.runqueue.iter().contains(&0));
}

#[test]
fn reply_resumes_the_caller() {
    let mut k = boot(2);
    start(&mut k);
    k.syscall(2, 7, 0, 0, 0, 0, call(100));
    user_call(&mut k, RECV, 0, 0, 0);
    // Process 2 replies with a send on its handle 1.
    let e = k.syscall(1, 42, 0, 0, 0, 0, 101);
    assert_eq!(e, Exit::SlowRet { pid: 0 });
    assert_eq!(k.procs[0].regs.rax, 101);
    assert_eq!(k.procs[0].regs.rsi, 42);
    assert_eq!(k.procs[0].regs.rdi, 2);
    assert!(k.procs[0].is_runnable());
    assert!(k.cpu.runqueue.iter().contains(&1));
}

#[test]
fn send_without_handle_halts() {
    let mut k = boot(2);
    start(&mut k);
    let e = k.syscall(9, 0, 0, 0, 0, 0, 100);
    assert_eq!(e, Exit::Halt(Fault::NoRecipient));
}

#[test]
fn unknown_syscall_halts() {
    let mut k = boot(1);
    start(&mut k);
    assert_eq!(user_call(&mut k, 3, 0, 0, 0), Exit::Halt(Fault::UnhandledSyscall));
}

#[test]
fn unknown_ipc_kind_halts() {
    let mut k = boot(1);
    start(&mut k);
    assert_eq!(user_call(&mut k, 0x210, 0, 0, 0), Exit::Halt(Fault::UnknownIpcKind));
}

#[test]
fn syscall_with_no_process_halts() {
    let mut k = boot(0);
    assert_eq!(start(&mut k), Exit::Idle);
    assert_eq!(user_call(&mut k, RECV, 0, 0, 0), Exit::Halt(Fault::NoProcess));
}

#[test]
fn pulse_pends_until_recv() {
    let mut k = boot(2);
    start(&mut k);
    // Process 1 pulses handle 2 while process 2 is not receiving.
    let e = user_call(&mut k, PULSE, 2, 0x01, 0);
    assert_eq!(e, Exit::FastRet { pid: 0, rax: 0 });
    let g = k.find_handle(1, 1).unwrap();
    assert_eq!(k.handles[g].pulses, 0x01);
    // Process 1 blocks in a receive, process 2 runs and receives the pulse.
    let e = user_call(&mut k, RECV, 0, 0, 0);
    assert_eq!(e, Exit::FastRet { pid: 1, rax: 0 });
    let e = user_call(&mut k, RECV, 0, 0, 0);
    assert_eq!(e, Exit::SlowRet { pid: 1 });
    assert_eq!(k.procs[1].regs.rax, PULSE);
    assert_eq!(k.procs[1].regs.rdi, 1);
    assert_eq!(k.procs[1].regs.rsi, 0x01);
    assert_eq!(k.handles[g].pulses, 0);
}

#[test]
fn pulses_merge() {
    let mut k = boot(2);
    start(&mut k);
    user_call(&mut k, PULSE, 2, 0x01, 0);
    user_call(&mut k, PULSE, 2, 0x04, 0);
    let g = k.find_handle(1, 1).unwrap();
    assert_eq!(k.handles[g].pulses, 0x05);
}

#[test]
fn pulse_to_waiting_receiver_is_immediate() {
    let mut k = boot(2);
    start(&mut k);
    // Process 1 waits in a receive; process 2 runs and pulses it.
    user_call(&mut k, RECV, 0, 0, 0);
    let e = user_call(&mut k, PULSE, 1, 0x80, 0);
    assert_eq!(e, Exit::SlowRet { pid: 0 });
    assert_eq!(k.procs[0].regs.rax, PULSE);
    assert_eq!(k.procs[0].regs.rdi, 2);
    assert_eq!(k.procs[0].regs.rsi, 0x80);
    assert!(k.cpu.runqueue.iter().contains(&1));
}

#[test]
fn delayed_irq_is_delivered_on_recv() {
    let mut k = boot(2);
    start(&mut k);
    // Vector 34 arrives while the interrupt process (process 1) runs.
    let e = k.irq_entry(34, 0, 0);
    assert_eq!(k.cpu.irq_delayed, 1 << 2);
    assert_eq!(e, Exit::FastRet { pid: 1, rax: 0 });
    // Process 2 blocks; process 1 runs again and receives.
    user_call(&mut k, RECV, 0, 0, 0);
    let e = user_call(&mut k, RECV, 0, 0, 0);
    assert_eq!(e, Exit::SlowRet { pid: 0 });
    assert_eq!(k.procs[0].regs.rax, PULSE);
    assert_eq!(k.procs[0].regs.rdi, 0);
    assert_eq!(k.procs[0].regs.rsi, 1 << 2);
    assert_eq!(k.cpu.irq_delayed, 0);
}

#[test]
fn irq_while_receiving_is_immediate() {
    let mut k = boot(2);
    start(&mut k);
    user_call(&mut k, RECV, 0, 0, 0);
    let e = k.irq_entry(33, 0, 0);
    assert_eq!(e, Exit::SlowRet { pid: 0 });
    assert_eq!(k.procs[0].regs.rsi, 1 << 1);
    assert_eq!(k.cpu.irq_delayed, 0);
}

#[test]
fn invalid_irq_vector_halts() {
    let mut k = boot(1);
    start(&mut k);
    assert_eq!(k.irq_entry(49, 0, 0), Exit::Halt(Fault::InvalidIrqVector));
}

#[test]
fn device_not_available_halts() {
    let mut k = boot(1);
    start(&mut k);
    assert_eq!(k.irq_entry(7, 0, 0), Exit::Halt(Fault::DeviceNotAvailable));
}

#[test]
fn kernel_page_fault_halts() {
    let mut k = boot(1);
    start(&mut k);
    assert_eq!(k.irq_entry(14, 0, 0x20_0000), Exit::Halt(Fault::KernelPageFault));
}

#[test]
fn fault_at_kernel_address_halts() {
    let mut k = boot(1);
    start(&mut k);
    assert_eq!(k.irq_entry(14, PF_USER, 0xffff_8000_0000_0000), Exit::Halt(Fault::KernelAddressFault));
}

#[test]
fn anonymous_fault_installs_writable_page() {
    let mut k = boot(1);
    start(&mut k);
    let a = k.procs[0].aspace;
    k.spaces[a].mapcard_set(0x20_0000, 0, 0, Anon | R | W);
    let e = k.irq_entry(14, PF_USER | 2, 0x20_0001);
    assert_eq!(e, Exit::SlowRet { pid: 0 });
    let pte = k.spaces[a].lookup_pte(0x20_0000).unwrap();
    let frame = pte & 0x7fff_ffff_ffff_f000;
    assert!(frame >= 0x100_0000);
    // Present, user, writable, not executable.
    assert_eq!(pte & 0xfff, 7);
    assert_eq!(pte >> 63, 1);
    let b = k.spaces[a].find_backing(0x20_0000).unwrap();
    assert_eq!(b.paddr(), frame);
}

#[test]
fn physical_fault_maps_card_offset() {
    let mut k = boot(1);
    start(&mut k);
    let a = k.procs[0].aspace;
    k.spaces[a].mapcard_set(0x10_0000, 0, 0x05_0000, ukernel::mapflag::Phys | R | ukernel::mapflag::X);
    let e = k.irq_entry(14, PF_USER, 0x10_1000);
    assert_eq!(e, Exit::SlowRet { pid: 0 });
    let pte = k.spaces[a].lookup_pte(0x10_1000).unwrap();
    // The card's physical address is its virtual address plus its offset.
    assert_eq!(pte, 0x15_1000 | 5);
}

#[test]
fn page_fault_through_handle_and_grant() {
    let mut k = boot(2);
    start(&mut k);
    // Process 1 maps 0x200000 through its handle 2 (to process 2), read-only.
    let e = k.syscall(2, R as u64, 0x20_0000, 0, 0x5000, 0x1000, MAP);
    assert_eq!(e, Exit::FastRet { pid: 0, rax: 0 });
    // It touches the page: the fault becomes a call to process 2.
    let e = k.irq_entry(14, PF_USER, 0x20_0000);
    assert_eq!(e, Exit::FastRet { pid: 1, rax: 0 });
    assert!(k.procs[0].is(FlagBit::PFault));
    // Process 2 backs its own 0x400000 with anonymous memory, then receives.
    let e = k.syscall(0, (Anon | R | W) as u64, 0x40_0000, 0, 0, 0x1000, MAP);
    assert_eq!(e, Exit::FastRet { pid: 1, rax: 0 });
    let e = user_call(&mut k, RECV, 0, 0, 0);
    assert_eq!(e, Exit::SlowRet { pid: 1 });
    assert_eq!(k.procs[1].regs.rdi, 1);
    assert_eq!(k.procs[1].regs.rax, call(PFAULT));
    // The offset in the backer's terms, and the access asked for.
    assert_eq!(k.procs[1].regs.rsi, 0x5000);
    assert_eq!(k.procs[1].regs.rdx, R as u64);
    // Process 2 grants its page.
    let e = user_call(&mut k, GRANT, 1, 0x40_0000, R as u64);
    assert_eq!(e, Exit::SlowRet { pid: 0 });
    assert!(!k.procs[0].is(FlagBit::PFault));
    assert_eq!(k.procs[0].regs.rax, GRANT);
    let a1 = k.procs[0].aspace;
    let a2 = k.procs[1].aspace;
    let shared = k.spaces[a2].sharing_paddr(0x40_0000).unwrap();
    let b = k.spaces[a1].find_backing(0x20_0000).unwrap();
    assert_eq!(b.paddr(), shared);
    // Process 1 touches the page again and gets the shared frame.
    let e = k.irq_entry(14, PF_USER, 0x20_0000);
    assert_eq!(e, Exit::SlowRet { pid: 0 });
    let pte = k.spaces[a1].lookup_pte(0x20_0000).unwrap();
    assert_eq!(pte & 0x7fff_ffff_ffff_f000, shared);
    assert_eq!(pte & 2, 0);
}

#[test]
fn grant_to_process_not_faulting_halts() {
    let mut k = boot(2);
    start(&mut k);
    assert_eq!(user_call(&mut k, GRANT, 2, 0x40_0000, 4), Exit::Halt(Fault::GrantToNonFaulting));
}

#[test]
fn hmod_copies_renames_and_deletes() {
    let mut k = boot(2);
    start(&mut k);
    // Copy handle 2 to a fresh handle 5, then rename 2 to 7.
    let e = user_call(&mut k, HMOD, 2, 7, 5);
    assert_eq!(e, Exit::FastRet { pid: 0, rax: 0 });
    let copy = k.find_handle(0, 5).unwrap();
    assert_eq!(k.handles[copy].process, 1);
    assert_eq!(k.handles[copy].other, None);
    assert!(k.find_handle(0, 2).is_none());
    let renamed = k.find_handle(0, 7).unwrap();
    assert!(k.handles[renamed].other.is_some());
    // Delete handle 7: its peer loses its other side too.
    let peer = k.handles[renamed].other.unwrap();
    user_call(&mut k, HMOD, 7, 0, 0);
    assert!(k.find_handle(0, 7).is_none());
    assert_eq!(k.handles[peer].other, None);
}

#[test]
fn write_puts_a_character_on_the_console() {
    let mut k = boot(1);
    start(&mut k);
    let e = user_call(&mut k, WRITE, b'A' as u64, 0, 0);
    assert_eq!(e, Exit::FastRet { pid: 0, rax: 0 });
    assert_eq!(k.con.cell(0), 0x0f41);
    assert_eq!(k.con.position(), 1);
}

#[test]
fn portio_round_trip() {
    let mut k = boot(1);
    start(&mut k);
    let e = user_call(&mut k, PORTIO, 0x60, 0x01, 0);
    assert_eq!(e, Exit::PortIo { pid: 0, port: 0x60, op: PortOp::In8, data: 0 });
    let e = k.resume(0, 0x1c);
    assert_eq!(e, Exit::FastRet { pid: 0, rax: 0x1c });
}

#[test]
fn unknown_portio_op_halts() {
    let mut k = boot(1);
    start(&mut k);
    assert_eq!(user_call(&mut k, PORTIO, 0x60, 0x03, 0), Exit::Halt(Fault::UnhandledPortIo));
}

#[test]
fn at_most_one_process_runs() {
    let mut k = boot(3);
    start(&mut k);
    user_call(&mut k, RECV, 0, 0, 0);
    let running: Vec<usize> = (0..3).filter(|&p| k.procs[p].is(FlagBit::Running)).collect();
    assert_eq!(running, vec![1]);
    for &p in k.cpu.runqueue.iter() {
        assert!(k.procs[p].is(FlagBit::Queued));
        assert!(!k.procs[p].is(FlagBit::Running));
    }
}

#[test]
fn send_on_unpaired_handle_halts_at_transfer() {
    let mut k = boot(2);
    start(&mut k);
    // A fresh copy of handle 2: same process, no pair.
    user_call(&mut k, HMOD, 2, 2, 5);
    let e = k.syscall(5, 1, 0, 0, 0, 0, 200);
    assert_eq!(e, Exit::FastRet { pid: 1, rax: 0 });
    assert_eq!(user_call(&mut k, RECV, 0, 0, 0), Exit::Halt(Fault::UnpairedHandle));
}

#[test]
fn receive_on_fresh_id_pairs_the_handles() {
    let mut k = boot(2);
    start(&mut k);
    user_call(&mut k, HMOD, 2, 2, 5);
    user_call(&mut k, RECV, 0, 0, 0);
    // Process 2 waits on a fresh id 9 while process 1 waits too.
    let e = user_call(&mut k, RECV, 9, 0, 0);
    assert_eq!(e, Exit::Idle);
    // Nothing runs; an interrupt for process 1 wakes it.
    let e = k.irq_entry(32, 0, 0);
    assert_eq!(e, Exit::SlowRet { pid: 0 });
    // Process 1 sends through its unpaired handle 5 to process 2.
    let e = k.syscall(5, 77, 0, 0, 0, 0, 300);
    assert_eq!(e, Exit::SlowRet { pid: 1 });
    let r = k.procs[1].regs;
    assert_eq!(r.rdi, 9);
    assert_eq!(r.rax, 300);
    assert_eq!(r.rsi, 77);
    let fresh = k.find_handle(1, 9).unwrap();
    let five = k.find_handle(0, 5).unwrap();
    assert_eq!(k.handles[fresh].other, Some(five));
    assert_eq!(k.handles[five].other, Some(fresh));
}

#[test]
fn grant_by_wrong_process_halts() {
    let mut k = boot(3);
    start(&mut k);
    // Process 1 maps 0x200000 through its handle 2 and faults on it.
    k.syscall(2, R as u64, 0x20_0000, 0, 0x5000, 0x1000, MAP);
    let e = k.irq_entry(14, PF_USER, 0x20_0000);
    assert_eq!(e, Exit::FastRet { pid: 1, rax: 0 });
    // Process 2 takes the fault message; process 3 runs and grants through its handle 1.
    user_call(&mut k, RECV, 0, 0, 0);
    assert_eq!(k.cpu.process, Some(2));
    assert_eq!(user_call(&mut k, GRANT, 1, 0x40_0000, R as u64), Exit::Halt(Fault::WrongHandleGranted));
}

#[test]
fn fault_on_unmapped_page_halts() {
    let mut k = boot(1);
    start(&mut k);
    assert_eq!(k.irq_entry(14, PF_USER, 0x5000_0000), Exit::Halt(Fault::BackingFailed));
}

#[test]
fn interrupt_without_interrupt_process_halts() {
    let mut k = Kernel::new(memory(64), 0x7000);
    let p = k.new_proc_simple(0x20_0000, 0x20_1000).unwrap();
    k.queue(p);
    assert_eq!(k.run(), Exit::FastRet { pid: 0, rax: 0 });
    assert_eq!(k.irq_entry(40, 0, 0), Exit::Halt(Fault::NoIrqProcess));
}

#[test]
fn explicit_pfault_on_kernel_page_returns_at_once() {
    let mut k = boot(1);
    start(&mut k);
    let e = k.syscall(0, 0x10_0000, 4, 0, 0, 0, PFAULT);
    assert_eq!(e, Exit::FastRet { pid: 0, rax: 0 });
    let a = k.procs[0].aspace;
    assert!(k.spaces[a].lookup_pte(0x10_0000).is_some());
    assert!(!k.procs[0].is(FlagBit::PFault));
}

#[test]
fn dma_map_returns_the_frame() {
    let mut k = boot(1);
    start(&mut k);
    let e = k.syscall(0, 0x1f, 0x30_0000, 0, 0, 0x1000, MAP);
    match e {
        Exit::FastRet { pid: 0, rax } => {
            assert!(rax >= 0x100_0000);
            let a = k.procs[0].aspace;
            let c = k.spaces[a].mapcard_find(0x30_0000).unwrap();
            assert_eq!(c.paddr(0x30_0000), rax);
        }
        other => panic!("unexpected exit {:?}", other),
    }
}

#[test]
fn specific_receive_meets_other_sender_with_mismatch() {
    let mut k = boot(3);
    start(&mut k);
    // Process 1 calls process 2, which then receives from its handle 3.
    k.syscall(2, 7, 0, 0, 0, 0, call(100));
    assert_eq!(user_call(&mut k, RECV, 3, 0, 0), Exit::Halt(Fault::HandleMismatch));
}

#[test]
fn specific_receive_takes_a_pending_pulse() {
    let mut k = boot(3);
    start(&mut k);
    user_call(&mut k, PULSE, 2, 0x10, 0);
    user_call(&mut k, RECV, 0, 0, 0);
    // Process 2 receives from its handle 3: nobody sends, the pulse is pending.
    let e = user_call(&mut k, RECV, 3, 0, 0);
    assert_eq!(e, Exit::SlowRet { pid: 1 });
    assert_eq!(k.procs[1].regs.rax, PULSE);
    assert_eq!(k.procs[1].regs.rdi, 1);
    assert_eq!(k.procs[1].regs.rsi, 0x10);
}

#[test]
fn specific_receive_from_sending_peer() {
    let mut k = boot(2);
    start(&mut k);
    k.syscall(2, 5, 0, 0, 0, 0, 120);
    let e = user_call(&mut k, RECV, 1, 0, 0);
    assert_eq!(e, Exit::SlowRet { pid: 1 });
    assert_eq!(k.procs[1].regs.rax, 120);
    assert_eq!(k.procs[1].regs.rdi, 1);
    assert_eq!(k.procs[1].regs.rsi, 5);
}

#[test]
fn rename_onto_a_used_id_replaces_that_handle() {
    let mut k = boot(3);
    start(&mut k);
    let old3 = k.find_handle(0, 3).unwrap();
    let peer = k.handles[old3].other.unwrap();
    // Rename handle 2 to 3: the handle held under 3 is deleted and unpaired.
    user_call(&mut k, HMOD, 2, 3, 0);
    let now3 = k.find_handle(0, 3).unwrap();
    assert_ne!(now3, old3);
    assert_eq!(k.handles[now3].process, 1);
    assert!(!k.handles[old3].live);
    assert_eq!(k.handles[peer].other, None);
    assert!(k.find_handle(0, 2).is_none());
}

#[test]
fn dma_map_without_frames_maps_nothing() {
    let mut k = Kernel::new(memory(1), 0x7000);
    let p = k.new_proc_simple(0x20_0000, 0x20_1000).unwrap();
    k.queue(p);
    k.run();
    let e = k.syscall(0, 0x1f, 0x30_0000, 0, 0, 0x1000, MAP);
    assert_eq!(e, Exit::FastRet { pid: 0, rax: 0 });
    let a = k.procs[0].aspace;
    let c = k.spaces[a].mapcard_find(0x30_0000).unwrap();
    assert_eq!((c.vaddr(), c.handle, c.offset), (0x30_0000, 0, 0));
}

#[test]
fn every_module_pair_holds_paired_handles() {
    let k = boot(4);
    for i in 0..4usize {
        for j in 0..4usize {
            if i != j {
                let h = k.find_handle(i, j as u64 + 1).unwrap();
                assert_eq!(k.handles[h].process, j);
                let g = k.handles[h].other.unwrap();
                assert_eq!((k.handles[g].owner, k.handles[g].id), (j, i as u64 + 1));
            }
        }
    }
}
