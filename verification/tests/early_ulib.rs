use lib::abi::{RingPage, Cqe, NEED_WAKEUP, OP_PRINT, OP_READ};
use lib::early::exceptions::{exception_dispatch, exception_class, handle_irq, ec_name, vector_name,
    ExceptionAction, IrqAction, TrapFrame, EC_SVC};
use lib::early::heap::{BumpAllocator, init_heap, HEAP_VBASE, HEAP_SIZE};
use lib::early::mem::{memcpy, memmove, memset, memcmp};
use lib::early::sched as esched;
use lib::early::syscall::{dispatch, SYS_ADD, SYS_PRINT};
use lib::early::timer::{self, TIMER_INTID};
use lib::early::user::{is_user_range, USER_CODE_VA, USER_STACK_VA};
use lib::kernel::gic::is_spurious;
use lib::kernel::mmu::Machine;
use lib::kernel::sched::{Scheduler, State};
use lib::kernel::uart::write_str;
use lib::kernel::user::Effect;
use lib::ulib::{self, TagCounter, LineEditor, LineStep, read_line, MAX_LINE};
use lib::ulib::jsh::{dispatch as jsh_dispatch, Command, help_text};
use lib::ulib::uring::{self, Stash, WaitStep};

#[test]
fn exception_classification() {
    let svc = EC_SVC << 26;
    assert_eq!(exception_class(svc | 0x1234), EC_SVC);
    assert_eq!(exception_dispatch(5, 0), ExceptionAction::Irq);
    assert_eq!(exception_dispatch(4, svc), ExceptionAction::Syscall { from_user: false });
    assert_eq!(exception_dispatch(8, svc), ExceptionAction::Syscall { from_user: true });
    assert_eq!(exception_dispatch(8, 0x24 << 26), ExceptionAction::Fatal);
    assert_eq!(exception_dispatch(6, svc), ExceptionAction::Fatal);
    assert_eq!(ec_name(0x24), "data abort (lower EL)");
    assert_eq!(ec_name(0x15), "SVC (AArch64 syscall)");
    assert_eq!(ec_name(0x3f), "other");
    assert_eq!(vector_name(5), "current EL, SPx");
    assert_eq!(vector_name(9), "lower EL, AArch64");
    assert_eq!(vector_name(15), "lower EL, AArch32");
}

#[test]
fn irq_handling() {
    assert!(is_spurious(1023));
    assert!(!is_spurious(30));
    assert_eq!(handle_irq(1023), IrqAction::Spurious);
    assert_eq!(handle_irq(TIMER_INTID), IrqAction::Timer);
    assert_eq!(handle_irq(33), IrqAction::Other);
}

#[test]
fn heap_self_check() {
    let mut m = Machine::new(0x4000_0000, 4 * 1024 * 1024);
    m.init_mmu();
    let mut heap = BumpAllocator::new();
    init_heap(&mut m, &mut heap);
    let t = m.current_ttbr0();
    assert!(m.translate(t, HEAP_VBASE).is_some());
    assert!(m.translate(t, HEAP_VBASE + HEAP_SIZE - 1).is_some());
    assert_eq!(m.translate(t, HEAP_VBASE + HEAP_SIZE), None);
    let a = heap.allocate(4, 4).unwrap();
    assert!(a >= HEAP_VBASE && a + 4 <= HEAP_VBASE + HEAP_SIZE);
    let b = heap.allocate(16, 16).unwrap();
    assert_eq!(b % 16, 0);
    assert!(b >= a + 4);
    heap.deallocate();
    heap.deallocate();
    assert_eq!(heap.next, HEAP_VBASE);
    assert_eq!(heap.allocate(HEAP_SIZE + 1, 1), None);
}

#[test]
fn bump_allocator_rounds_and_resets() {
    let mut h = BumpAllocator::new();
    h.init(0x1000, 0x100);
    assert_eq!(h.allocate(3, 1), Some(0x1000));
    assert_eq!(h.allocate(8, 8), Some(0x1008));
    assert_eq!(h.allocations, 2);
    assert_eq!(h.allocate(0x100, 1), None);
    assert_eq!(h.allocations, 2);
    h.deallocate();
    assert_eq!(h.next, 0x1010);
    h.deallocate();
    assert_eq!(h.next, 0x1000);
}

#[test]
fn mem_primitives() {
    let mut m: Vec<u8> = (0..16).collect();
    assert_eq!(memcpy(&mut m, 8, 0, 4), 8);
    assert_eq!(&m[8..12], &[0, 1, 2, 3]);
    let mut v: Vec<u8> = (0..16).collect();
    memmove(&mut v, 2, 0, 6);
    assert_eq!(&v[0..8], &[0, 1, 0, 1, 2, 3, 4, 5]);
    let mut w: Vec<u8> = (0..16).collect();
    memmove(&mut w, 0, 2, 6);
    assert_eq!(&w[0..8], &[2, 3, 4, 5, 6, 7, 6, 7]);
    memset(&mut w, 4, 0x1FF, 3);
    assert_eq!(&w[4..7], &[0xFF, 0xFF, 0xFF]);
    let c: Vec<u8> = vec![1, 2, 3, 1, 2, 9];
    assert_eq!(memcmp(&c, 0, 3, 2), 0);
    assert_eq!(memcmp(&c, 0, 3, 3), 3 - 9);
    assert_eq!(memcmp(&c, 3, 0, 3), 6);
}

#[test]
fn timer_ticks() {
    let (mut t, tval) = timer::init(62_500_000);
    assert_eq!(tval, 625_000);
    assert_eq!(timer::ticks(&t), 0);
    assert_eq!(timer::on_tick(&mut t), 625_000);
    timer::on_tick(&mut t);
    assert_eq!(timer::ticks(&t), 2);
}

#[test]
fn early_scheduler() {
    let mut s = Scheduler::new();
    esched::init(&mut s);
    assert!(!esched::any_worker_runnable(&s));
    let (sp, ctx) = esched::spawn(&mut s, 0x8000_0000, 0xAA, 0xBB, 7);
    assert_eq!(sp, 0x8000_4000 - 96);
    assert_eq!(ctx[1], 0xAA);
    assert_eq!(ctx[10], 0xBB);
    assert_eq!(ctx[11], 7);
    assert!(esched::any_worker_runnable(&s));
    assert_eq!(esched::yield_now(&mut s), Some((0, 1)));
    assert_eq!(esched::yield_now(&mut s), Some((1, 0)));
    s.tasks[1].state = State::Exited;
    assert!(!esched::any_worker_runnable(&s));
    assert_eq!(esched::yield_now(&mut s), None);
}

#[test]
fn early_syscalls() {
    let mut x = [0u64; 31];
    x[8] = SYS_ADD;
    x[0] = 3;
    x[1] = 4;
    let mut f = TrapFrame { x, elr: 0, spsr: 0, _pad: 0 };
    let mut eff = Vec::new();
    assert_eq!(dispatch(&mut f, &mut eff), None);
    assert_eq!(f.x[0], 7);
    f.x[8] = SYS_PRINT;
    f.x[0] = 0x2_0000_0010;
    f.x[1] = 5;
    assert_eq!(dispatch(&mut f, &mut eff), None);
    assert_eq!(f.x[0], 0);
    assert_eq!(eff, vec![Effect::Print { ptr: 0x2_0000_0010, len: 5 }]);
    f.x[8] = 9;
    assert_eq!(dispatch(&mut f, &mut eff), Some(9));
    assert_eq!(f.x[0], u64::MAX);
    assert!(is_user_range(USER_CODE_VA, 16, 64));
    assert!(!is_user_range(USER_CODE_VA, 65, 64));
    assert!(is_user_range(USER_STACK_VA, 4096, 0));
    assert!(!is_user_range(u64::MAX, 1, 64));
}

#[test]
fn uart_translates_newlines() {
    assert_eq!(write_str(b"a\nb"), b"a\r\nb".to_vec());
    assert_eq!(write_str(b"\n\n"), b"\r\n\r\n".to_vec());
    assert_eq!(write_str(b""), Vec::<u8>::new());
}

#[test]
fn tags_are_monotonic() {
    let mut t = TagCounter::new();
    assert_eq!(ulib::tag(&mut t), 1);
    assert_eq!(ulib::tag(&mut t), 2);
}

#[test]
fn user_ring_submission_and_reaping() {
    let mut page = RingPage::zeroed();
    let mut tags = TagCounter::new();
    let (t1, need) = ulib::print_bytes(&mut tags, &mut page, 0x80_0000_0000, 3);
    assert!(!need);
    assert_eq!(page.sq_tail, 1);
    assert_eq!(page.sq[0].opcode, OP_PRINT);
    assert_eq!(page.sq[0].user_data, t1);
    page.flags = NEED_WAKEUP;
    let (t2, need2) = ulib::read_byte(&mut tags, &mut page, 0x80_0001_0000);
    assert!(need2);
    assert_eq!(page.sq[1].opcode, OP_READ);
    assert!(uring::submit(&page));
    // Completions arrive out of order: t2 first, then t1.
    let mut st = Stash::new();
    assert_eq!(uring::wait(&mut st, &mut page, t1), WaitStep::Enter);
    assert_eq!(uring::wait_spin(&mut st, &mut page, t1), WaitStep::Spin);
    page.cq[0] = Cqe { user_data: t2, result: 1 };
    page.cq[1] = Cqe { user_data: t1, result: 0 };
    page.cq_tail = 2;
    assert_eq!(uring::wait(&mut st, &mut page, t1), WaitStep::Again);
    assert_eq!(uring::wait(&mut st, &mut page, t1), WaitStep::Done(0));
    // t2's completion was stashed, not lost.
    assert_eq!(uring::wait(&mut st, &mut page, t2), WaitStep::Done(1));
    assert_eq!(page.cq_head, 2);
}

#[test]
fn line_editing() {
    let mut ed = LineEditor::new();
    assert_eq!(read_line(&mut ed, b'h'), LineStep::Echo(b'h'));
    assert_eq!(read_line(&mut ed, b'x'), LineStep::Echo(b'x'));
    assert_eq!(read_line(&mut ed, 0x7f), LineStep::Erase);
    assert_eq!(read_line(&mut ed, b'i'), LineStep::Echo(b'i'));
    assert_eq!(read_line(&mut ed, 0x01), LineStep::Ignore);
    assert_eq!(read_line(&mut ed, b'\r'), LineStep::Done(2));
    assert_eq!(&ed.line[..ed.len], b"hi");
    let mut empty = LineEditor::new();
    assert_eq!(read_line(&mut empty, 0x08), LineStep::Ignore);
    for _ in 0..MAX_LINE {
        assert_eq!(read_line(&mut empty, b'a'), LineStep::Echo(b'a'));
    }
    assert_eq!(read_line(&mut empty, b'a'), LineStep::Ignore);
    assert_eq!(read_line(&mut empty, b'\n'), LineStep::Done(MAX_LINE));
}

#[test]
fn shell_commands() {
    assert_eq!(jsh_dispatch(b""), Command::Empty);
    assert_eq!(jsh_dispatch(b"exit"), Command::Exit);
    assert_eq!(jsh_dispatch(b"help"), Command::Help);
    assert_eq!(jsh_dispatch(b"spam"), Command::Spam);
    assert_eq!(jsh_dispatch(b"crash"), Command::Crash);
    assert_eq!(jsh_dispatch(b"hel"), Command::Unknown);
    assert_eq!(jsh_dispatch(b"exits"), Command::Unknown);
    assert_eq!(help_text(), "commands: help spam crash exit\n");
}

#[test]
fn early_enter_user_maps_code_in_place_and_a_stack() {
    let mut m = Machine::new(0x4000_0000, 4 * 1024 * 1024);
    let boot = m.init_mmu();
    let code_phys = 0x4010_0000u64;
    let before = m.free_frames();
    let (entry, sp) = lib::early::user::enter_user(&mut m, code_phys, 0x1800, code_phys + 0x40);
    assert_eq!(entry, USER_CODE_VA + 0x40);
    assert_eq!(sp, USER_STACK_VA + 4096);
    // Code pages are mapped in place.
    assert_eq!(m.translate(boot, USER_CODE_VA), Some(code_phys));
    assert_eq!(m.translate(boot, USER_CODE_VA + 0x1005), Some(code_phys + 0x1005));
    assert_eq!(m.translate(boot, USER_CODE_VA + 0x2000), None);
    // The stack is a fresh frame. The window hangs off the kernel L1, so only
    // an L2 and an L3 table were created besides it.
    assert!(m.translate(boot, USER_STACK_VA).is_some());
    assert_eq!(m.free_frames(), before - 3);
}

#[test]
fn line_editor_starts_empty_and_zeroed() {
    let ed = LineEditor::new();
    assert_eq!(ed.len, 0);
    assert!(ed.line.iter().all(|&b| b == 0));
    assert_eq!(ed.line.len(), MAX_LINE);
}

#[test]
fn line_editor_leaves_bytes_past_the_text() {
    let mut ed = LineEditor::new();
    assert_eq!(read_line(&mut ed, b'h'), LineStep::Echo(b'h'));
    assert_eq!(read_line(&mut ed, b'i'), LineStep::Echo(b'i'));
    assert_eq!(read_line(&mut ed, 0x0D), LineStep::Done(2));
    assert_eq!(&ed.line[..2], b"hi");
    assert!(ed.line[2..].iter().all(|&b| b == 0));
}

#[test]
fn stash_keeps_every_other_completion() {
    let mut page = RingPage::zeroed();
    // Five other tags' completions, then the awaited one.
    for (i, tag) in [11u64, 12, 13, 14, 15, 7].iter().enumerate() {
        page.cq[i] = Cqe { user_data: *tag, result: *tag as i64 * 10 };
    }
    page.cq_tail = 6;
    let mut st = Stash::new();
    for _ in 0..5 {
        assert_eq!(uring::wait(&mut st, &mut page, 7), WaitStep::Again);
    }
    assert_eq!(uring::wait(&mut st, &mut page, 7), WaitStep::Done(70));
    assert_eq!(st.slots.len(), 5);
    // Every other completion is still there, even with the queue empty.
    for tag in [15u64, 11, 13, 12, 14] {
        assert_eq!(uring::wait(&mut st, &mut page, tag), WaitStep::Done(tag as i64 * 10));
    }
    assert!(st.slots.is_empty());
    assert_eq!(uring::wait(&mut st, &mut page, 11), WaitStep::Enter);
}

#[test]
fn heap_blocks_stay_disjoint_across_allocations_and_frees() {
    let mut h = BumpAllocator::new();
    h.init(0x1000, 0x1000);
    let a = h.allocate(5, 4).unwrap();
    let b = h.allocate(7, 8).unwrap();
    h.deallocate();
    let c = h.allocate(16, 16).unwrap();
    assert!(a + 5 <= b);
    assert!(b + 7 <= c);
    assert_eq!((a, b, c), (0x1000, 0x1008, 0x1010));
}
