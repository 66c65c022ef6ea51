use lib::kernel::sched::{self, BlockStep, Scheduler, State};

fn three_tasks() -> Scheduler {
    let mut s = Scheduler::new();
    sched::init(&mut s);
    sched::spawn(&mut s, 0x10_0000, 0xAA, 0x1, 0);
    sched::spawn(&mut s, 0x20_0000, 0xAA, 0x2, 0);
    s
}

#[test]
fn sleeper_and_busy_interleave_under_ticks() {
    let mut s = three_tasks();
    assert!(sched::any_worker_alive(&s));
    // The idle task yields to the sleeper.
    assert_eq!(sched::yield_now(&mut s), Some((0, 1)));
    // The sleeper sleeps for three ticks; the busy task runs.
    assert_eq!(sched::sleep_ticks(&mut s, 0, 3), Some((1, 2)));
    assert_eq!(s.tasks[1].state, State::Blocked);
    assert_eq!(s.tasks[1].wake_at, 3);
    // A tick before the wake time preempts the busy task for the idle one.
    assert_eq!(sched::tick(&mut s, 1), Some((2, 0)));
    assert_eq!(s.tasks[1].state, State::Blocked);
    // The idle task yields; the sleeper is skipped.
    assert_eq!(sched::yield_now(&mut s), Some((0, 2)));
    // At tick 3 the sleeper wakes; round robin goes on from the busy task.
    assert_eq!(sched::tick(&mut s, 3), Some((2, 0)));
    assert_eq!(s.tasks[1].state, State::Runnable);
    assert_eq!(sched::yield_now(&mut s), Some((0, 1)));
    assert_eq!(sched::current(&s), 1);
}

#[test]
fn exits_block_and_wake() {
    let mut s = three_tasks();
    assert_eq!(sched::yield_now(&mut s), Some((0, 1)));
    // Task 1 blocks until woken; task 2 runs.
    assert_eq!(sched::block_current(&mut s), BlockStep::Switch(1, 2));
    assert_eq!(s.tasks[1].state, State::Blocked);
    assert_eq!(s.tasks[1].wake_at, u64::MAX);
    // A time-based wake never wakes it.
    assert_eq!(sched::tick(&mut s, 1_000), Some((2, 0)));
    assert_eq!(s.tasks[1].state, State::Blocked);
    sched::wake(&mut s, 1);
    assert_eq!(s.tasks[1].state, State::Runnable);
    // Waking a runnable task changes nothing.
    sched::wake(&mut s, 2);
    assert_eq!(s.tasks[2].state, State::Runnable);
    assert_eq!(sched::yield_now(&mut s), Some((0, 1)));
    assert_eq!(sched::exit_current(&mut s), Some((1, 2)));
    assert_eq!(s.tasks[1].state, State::Exited);
    assert!(sched::any_worker_alive(&s));
    assert_eq!(sched::task_exit(&mut s), Some((2, 0)));
    assert!(!sched::any_worker_alive(&s));
    // Only the idle task is left: yielding keeps it running.
    assert_eq!(sched::yield_now(&mut s), None);
    s.set_sp(1, 0x1234);
    assert_eq!(s.tasks[1].sp, 0x1234);
}

#[test]
fn blocking_with_nothing_runnable_idles_until_woken() {
    let mut s = Scheduler::new();
    sched::init(&mut s);
    // The only task blocks: nothing is runnable, so the caller must idle.
    assert_eq!(sched::block_current(&mut s), BlockStep::Idle);
    assert_eq!(s.tasks[0].state, State::Blocked);
    // Still nobody woke it: idle again.
    assert_eq!(sched::resume_after_idle(&mut s), BlockStep::Idle);
    // Once woken it carries on, runnable.
    sched::wake(&mut s, 0);
    assert_eq!(sched::resume_after_idle(&mut s), BlockStep::Resume);
    assert_eq!(s.tasks[0].state, State::Runnable);
}

#[test]
fn idle_wait_switches_to_a_woken_other_task() {
    let mut s = three_tasks();
    assert_eq!(sched::yield_now(&mut s), Some((0, 1)));
    assert_eq!(sched::block_current(&mut s), BlockStep::Switch(1, 2));
    assert_eq!(sched::block_current(&mut s), BlockStep::Switch(2, 0));
    assert_eq!(sched::block_current(&mut s), BlockStep::Idle);
    sched::wake(&mut s, 2);
    assert_eq!(sched::resume_after_idle(&mut s), BlockStep::Switch(0, 2));
    assert_eq!(sched::current(&s), 2);
}

#[test]
fn drained_bytes_pop_in_order_then_none() {
    let mut b = lib::kernel::input::InputBuf::new();
    assert_eq!(b.drain_uart(b"abc"), 3);
    assert_eq!(lib::kernel::input::pop(&mut b), Some(b'a'));
    assert_eq!(lib::kernel::input::pop(&mut b), Some(b'b'));
    assert_eq!(lib::kernel::input::pop(&mut b), Some(b'c'));
    assert_eq!(lib::kernel::input::pop(&mut b), None);
}

#[test]
fn a_sleeper_is_not_woken_before_its_time() {
    let mut s = three_tasks();
    assert_eq!(sched::yield_now(&mut s), Some((0, 1)));
    assert_eq!(sched::sleep_ticks(&mut s, 10, 5), Some((1, 2)));
    for now in 10..15 {
        sched::tick(&mut s, now);
        assert_eq!(s.tasks[1].state, State::Blocked);
    }
    sched::tick(&mut s, 15);
    assert_eq!(s.tasks[1].state, State::Runnable);
}
