//! Cooperative kernel threads with a round-robin scheduler (the threads of
//! this phase are only runnable or exited).
use vstd::prelude::*;
use crate::kernel::sched::{Scheduler, Task, State, rr_next, initial_context, STACK_SIZE, CONTEXT_REGS};

verus! {

/// Register the running code as task 0. Call once before spawning.
pub fn init(s: &mut Scheduler)
    ensures
        final(s).tasks@ == old(s).tasks@.push(Task { sp: 0, state: State::Runnable, wake_at: 0 }),
        final(s).current == old(s).current,
{
    crate::kernel::sched::init(s)
}

/// Spawn a thread running `entry(arg)` from `trampoline`, on the stack at
/// `stack_base`. Returns its initial stack pointer and the saved context to
/// place there.
pub fn spawn(s: &mut Scheduler, stack_base: u64, trampoline: u64, entry: u64, arg: u64) -> (r: (u64, Vec<u64>))
    requires
        stack_base + STACK_SIZE <= u64::MAX,
        stack_base >= CONTEXT_REGS * 8,
    ensures
        r.0 == (((stack_base + STACK_SIZE) as u64) & !0xFu64) - CONTEXT_REGS * 8,
        r.1@ == initial_context(trampoline, entry, arg),
        final(s).current == old(s).current,
        final(s).tasks@ == old(s).tasks@.push(Task { sp: r.0, state: State::Runnable, wake_at: 0 }),
{
    crate::kernel::sched::spawn(s, stack_base, trampoline, entry, arg)
}

/// Whether some spawned worker (a task other than task 0) is still runnable.
pub fn any_worker_runnable(s: &Scheduler) -> (r: bool)
    ensures
        r == exists|i: int| 1 <= i < s.tasks.len() && #[trigger] s.tasks@[i].state == State::Runnable,
{
    let mut i: usize = 1;
    while i < s.tasks.len()
        invariant
            1 <= i <= s.tasks.len() || s.tasks.len() == 0,
            forall|j: int| 1 <= j < i ==> #[trigger] s.tasks@[j].state != State::Runnable,
        decreases s.tasks.len() - i,
    {
        if s.tasks[i].state == State::Runnable {
            return true;
        }
        i = i + 1;
    }
    false
}

/// Yield to the next runnable thread, round-robin after the current one.
/// Returns the switch to perform, or `None` when no other thread is runnable.
pub fn yield_now(s: &mut Scheduler) -> (r: Option<(usize, usize)>)
    requires
        old(s).active(),
    ensures
        final(s).active(),
        final(s).tasks == old(s).tasks,
        ({
            let next = rr_next(old(s).tasks@, old(s).current as int);
            if next == old(s).current {
                r.is_none() && final(s).current == old(s).current
            } else {
                r == Some((old(s).current, next as usize)) && final(s).current == next
            }
        }),
{
    crate::kernel::sched::yield_now(s)
}

} // verus!
