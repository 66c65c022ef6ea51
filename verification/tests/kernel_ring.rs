use lib::abi::{Sqe, RingPage, OP_NOP, OP_PRINT, OP_READ, SYS_ADD, SYS_EXIT, SYS_RING_ENTER, SYS_RING_SETUP,
    USER_BASE, USER_RING_VA, NEED_WAKEUP};
use lib::early::exceptions::TrapFrame;
use lib::kernel::input::{InputBuf, pop};
use lib::kernel::mmu::Machine;
use lib::kernel::ring::{self, RingState, EnterStep, PollStep, ERR};
use lib::kernel::sched::{self, Scheduler, State};
use lib::kernel::syscall::{dispatch, SyscallOutcome};
use lib::kernel::user::{self, UserState, Effect, USER_STACK_VA, USER_STACK_SIZE};
use lib::kernel::Kernel;

fn put16(b: &mut Vec<u8>, off: usize, v: u16) {
    b[off..off + 2].copy_from_slice(&v.to_le_bytes());
}
fn put32(b: &mut Vec<u8>, off: usize, v: u32) {
    b[off..off + 4].copy_from_slice(&v.to_le_bytes());
}
fn put64(b: &mut Vec<u8>, off: usize, v: u64) {
    b[off..off + 8].copy_from_slice(&v.to_le_bytes());
}

/// Code (R-X) one page at USER_BASE, data (RW) one page at USER_BASE + 64 KiB.
fn image() -> Vec<u8> {
    let mut b = vec![0u8; 64 + 2 * 56];
    b[0..4].copy_from_slice(b"\x7fELF");
    b[4] = 2;
    b[5] = 1;
    put16(&mut b, 16, 2);
    put16(&mut b, 18, 0xB7);
    put64(&mut b, 24, USER_BASE);
    put64(&mut b, 32, 64);
    put16(&mut b, 54, 56);
    put16(&mut b, 56, 2);
    put32(&mut b, 64, 1);
    put32(&mut b, 68, 5);
    put64(&mut b, 64 + 16, USER_BASE);
    put64(&mut b, 64 + 32, 176);
    put64(&mut b, 64 + 40, 176);
    put32(&mut b, 120, 1);
    put32(&mut b, 124, 6);
    put64(&mut b, 120 + 16, USER_BASE + 0x1_0000);
    put64(&mut b, 120 + 40, 0x1000);
    b
}

fn kernel() -> Kernel {
    let mut machine = Machine::new(0x4000_0000, 4 * 1024 * 1024);
    machine.init_mmu();
    let mut sched = Scheduler::new();
    sched::init(&mut sched);
    Kernel {
        machine,
        ring: RingState::new(),
        user: UserState::new(),
        input: InputBuf::new(),
        sched,
        effects: Vec::new(),
    }
}

fn frame(number: u64, x0: u64, x1: u64) -> TrapFrame {
    let mut x = [0u64; 31];
    x[8] = number;
    x[0] = x0;
    x[1] = x1;
    x[2] = 77;
    TrapFrame { x, elr: 0x1234, spsr: 0, _pad: 0 }
}

#[test]
fn syscall_self_check() {
    let mut k = kernel();
    let mut f = frame(SYS_ADD, 3, 4);
    assert!(matches!(dispatch(&mut k, &mut f, false), SyscallOutcome::Return));
    assert_eq!(f.x[0], 7);
    assert_eq!(f.x[2], 77);
    assert_eq!(f.elr, 0x1234);
    let mut w = frame(SYS_ADD, u64::MAX, 2);
    dispatch(&mut k, &mut w, false);
    assert_eq!(w.x[0], 1);
}

#[test]
fn unknown_syscall_answers_max() {
    let mut k = kernel();
    let mut f = frame(42, 1, 2);
    match dispatch(&mut k, &mut f, true) {
        SyscallOutcome::Unknown { number } => assert_eq!(number, 42),
        other => panic!("unexpected {:?}", other),
    }
    assert_eq!(f.x[0], u64::MAX);
}

#[test]
fn ring_setup_is_idempotent() {
    let mut k = kernel();
    let mut f = frame(SYS_RING_SETUP, 0, 0);
    dispatch(&mut k, &mut f, true);
    assert_eq!(f.x[0], USER_RING_VA);
    assert!(k.ring.mapped);
    let free = k.machine.free_frames();
    let mut g = frame(SYS_RING_SETUP, 0, 0);
    dispatch(&mut k, &mut g, true);
    assert_eq!(g.x[0], USER_RING_VA);
    assert_eq!(k.machine.free_frames(), free);
    let t = k.machine.current_ttbr0();
    assert!(k.machine.translate(t, USER_RING_VA).is_some());
}

#[test]
fn enter_before_setup_answers_max() {
    let mut k = kernel();
    let mut f = frame(SYS_RING_ENTER, 0, 0);
    dispatch(&mut k, &mut f, true);
    assert_eq!(f.x[0], u64::MAX);
}

fn publish(page: &mut RingPage, sqe: Sqe) {
    let s = (page.sq_tail & 15) as usize;
    page.sq[s] = sqe;
    page.sq_tail = page.sq_tail.wrapping_add(1);
}

#[test]
fn enter_runs_submissions_in_order() {
    let mut k = kernel();
    let t = k.machine.current_ttbr0();
    user::enter_user(&mut k, &image()).expect("enter_user");
    ring::setup(&mut k);
    publish(&mut k.ring.page, Sqe { opcode: OP_NOP, arg0: 0, arg1: 0, user_data: 1 });
    publish(&mut k.ring.page, Sqe { opcode: OP_PRINT, arg0: USER_BASE, arg1: 5, user_data: 2 });
    publish(&mut k.ring.page, Sqe { opcode: OP_PRINT, arg0: 0x1000, arg1: 5, user_data: 3 });
    publish(&mut k.ring.page, Sqe { opcode: 99, arg0: 0, arg1: 0, user_data: 4 });
    let r = ring::enter(&mut k, true, 0);
    assert!(matches!(r, EnterStep::Done(0)));
    let p = &k.ring.page;
    assert_eq!(p.sq_head, 4);
    assert_eq!(p.cq_tail, 4);
    assert_eq!((p.cq[0].user_data, p.cq[0].result), (1, 0));
    assert_eq!((p.cq[1].user_data, p.cq[1].result), (2, 0));
    assert_eq!((p.cq[2].user_data, p.cq[2].result), (3, ERR));
    assert_eq!((p.cq[3].user_data, p.cq[3].result), (4, ERR));
    assert_eq!(k.effects, vec![Effect::Print { ptr: USER_BASE, len: 5 }]);
    let _ = t;
}

#[test]
fn read_is_parked_then_completed_by_input() {
    let mut k = kernel();
    user::enter_user(&mut k, &image()).expect("enter_user");
    ring::setup(&mut k);
    let buf = USER_BASE + 0x1_0000;
    publish(&mut k.ring.page, Sqe { opcode: OP_READ, arg0: buf, arg1: 4, user_data: 7 });
    // Nothing typed yet: the read is parked, and waiting for one completion blocks.
    sched::spawn(&mut k.sched, 0x10_0000, 0, 0, 0);
    let r = ring::enter(&mut k, true, 1);
    assert!(matches!(r, EnterStep::Block(_)));
    assert_eq!(k.ring.page.cq_tail, 0);
    assert_eq!(k.ring.waiter, Some(0));
    // Input arrives; the completer delivers it and wakes the waiter.
    k.input.drain_uart(b"hi");
    ring::poll_pending(&mut k);
    assert_eq!(k.ring.page.cq_tail, 1);
    assert_eq!((k.ring.page.cq[0].user_data, k.ring.page.cq[0].result), (7, 2));
    assert_eq!(k.effects, vec![Effect::Store { va: buf, byte: b'h' }, Effect::Store { va: buf + 1, byte: b'i' }]);
    assert_eq!(k.sched.tasks[0].state, State::Runnable);
    assert!(k.input.is_empty());
}

#[test]
fn exit_tears_down_the_program() {
    let mut k = kernel();
    let free0 = k.machine.free_frames();
    let (entry, sp) = user::enter_user(&mut k, &image()).expect("enter_user");
    assert_eq!(entry, USER_BASE);
    assert_eq!(sp, USER_STACK_VA + USER_STACK_SIZE);
    let owned = k.user.frames.len();
    assert_eq!(owned, 3);
    assert!(user::is_user_range(&k.user, USER_BASE, 8));
    assert!(!user::is_user_range_writable(&k.user, USER_BASE, 8));
    assert!(user::is_user_range_writable(&k.user, USER_STACK_VA, 8));
    sched::spawn(&mut k.sched, 0x10_0000, 0, 0, 0);
    let mut f = frame(SYS_EXIT, 3, 0);
    match dispatch(&mut k, &mut f, true) {
        SyscallOutcome::Exited { code, freed, switch } => {
            assert_eq!(code, 3);
            assert_eq!(freed, owned);
            assert_eq!(switch, Some((0, 1)));
        },
        other => panic!("unexpected {:?}", other),
    }
    assert!(k.user.loaded.is_none());
    assert!(k.user.frames.is_empty());
    assert!(!user::is_user_range(&k.user, USER_BASE, 8));
    // Validation fails closed once nothing is loaded, the stack included.
    assert!(!user::is_user_range(&k.user, USER_STACK_VA, 8));
    assert!(!user::is_user_range_writable(&k.user, USER_STACK_VA, 8));
    assert!(!user::is_user_range(&k.user, USER_BASE + 0x1_0000, 8));
    let t = k.machine.current_ttbr0();
    assert_eq!(k.machine.translate(t, USER_BASE), None);
    assert_eq!(k.machine.translate(t, USER_STACK_VA), None);
    // The program's frames are back; its page tables stay.
    assert_eq!(k.machine.free_frames(), free0 - 3);
    assert_eq!(k.sched.tasks[0].state, State::Exited);
}

#[test]
fn copy_to_user_checks_writability() {
    let mut k = kernel();
    user::enter_user(&mut k, &image()).expect("enter_user");
    let mut eff = Vec::new();
    assert!(!user::copy_to_user(&k.user, &mut eff, USER_BASE, b"xy"));
    assert!(eff.is_empty());
    assert!(user::copy_to_user(&k.user, &mut eff, USER_STACK_VA + 10, b"xy"));
    assert_eq!(eff, vec![Effect::Store { va: USER_STACK_VA + 10, byte: b'x' }, Effect::Store { va: USER_STACK_VA + 11, byte: b'y' }]);
}

#[test]
fn sqpoll_sleeps_after_idle_and_is_woken_by_enter() {
    let mut k = kernel();
    ring::setup(&mut k);
    sched::spawn(&mut k.sched, 0x10_0000, 0, 0, 0);
    let mut st = ring::sqpoll_start(&mut k, 0);
    assert_eq!(k.ring.poller, Some(0));
    assert!(matches!(ring::sqpoll_step(&mut k, &mut st, 1), PollStep::Yield { announce: false }));
    match ring::sqpoll_step(&mut k, &mut st, 10) {
        PollStep::Block(sw) => assert_eq!(sw, sched::BlockStep::Switch(0, 1)),
        other => panic!("unexpected {:?}", other),
    }
    assert_ne!(k.ring.page.flags & NEED_WAKEUP, 0);
    assert_eq!(k.sched.tasks[0].state, State::Blocked);
    // A submitter in task 1 finds NEED_WAKEUP and enters: the poller wakes.
    publish(&mut k.ring.page, Sqe { opcode: OP_NOP, arg0: 0, arg1: 0, user_data: 5 });
    ring::enter(&mut k, true, 0);
    assert_eq!(k.ring.page.flags & NEED_WAKEUP, 0);
    assert_eq!(k.sched.tasks[0].state, State::Runnable);
    assert_eq!(k.ring.page.cq[0].user_data, 5);
}

#[test]
fn input_buffer_is_fifo_with_flow_control() {
    let mut b = InputBuf::new();
    assert!(b.is_empty());
    let bytes: Vec<u8> = (0..300u32).map(|i| i as u8).collect();
    let taken = b.drain_uart(&bytes);
    assert_eq!(taken, 255);
    assert!(b.is_full());
    assert!(!b.rx_irq);
    assert_eq!(pop(&mut b), Some(0));
    assert!(b.rx_irq);
    assert_eq!(pop(&mut b), Some(1));
    b.push(200);
    let mut last = None;
    while let Some(x) = pop(&mut b) {
        last = Some(x);
    }
    assert_eq!(last, Some(200));
    assert_eq!(pop(&mut b), None);
}

#[test]
fn abort_user_drops_parked_reads() {
    let mut k = kernel();
    user::enter_user(&mut k, &image()).expect("enter_user");
    ring::setup(&mut k);
    publish(&mut k.ring.page, Sqe { opcode: OP_READ, arg0: USER_BASE + 0x1_0000, arg1: 1, user_data: 1 });
    ring::enter(&mut k, true, 0);
    assert!(k.ring.pending.iter().any(|p| p.is_some()));
    ring::abort_user(&mut k);
    assert!(k.ring.pending.iter().all(|p| p.is_none()));
    assert_eq!(k.ring.waiter, None);
}
