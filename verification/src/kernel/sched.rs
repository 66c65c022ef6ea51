//! Preemptive kernel threads with sleep and blocking.
//!
//! Voluntary yields, blocking, sleeping, exits and the timer tick all funnel
//! into [`Scheduler::schedule`], which picks the next runnable task in
//! round-robin order. It returns the pair of task indices to switch between;
//! the switch of register contexts itself is done by the caller.
use vstd::prelude::*;

verus! {

/// Per-thread stack size (16 KiB).
pub const STACK_SIZE: u64 = 16 * 1024;
/// Callee-saved registers saved by a context switch (x19..x30).
pub const CONTEXT_REGS: u64 = 12;

/// The life cycle of a task.
#[derive(Clone, Copy, PartialEq, Eq, Structural, Debug)]
pub enum State {
    Runnable,
    Blocked,
    Exited,
}

/// One kernel thread.
#[derive(Clone, Copy, PartialEq, Eq, Structural, Debug)]
pub struct Task {
    /// Saved stack pointer (0 for the bootstrap task until its first switch).
    pub sp: u64,
    pub state: State,
    /// Tick at which a `Blocked` task should be woken.
    pub wake_at: u64,
}

/// The task table and the index of the running task.
pub struct Scheduler {
    pub tasks: Vec<Task>,
    pub current: usize,
}

/// The task the round-robin scan picks, starting `i` places after `cur`:
/// the first runnable one among `cur + i, ..., cur + n` (cyclically), or `cur`
/// when there is none.
pub open spec fn rr_scan(tasks: Seq<Task>, cur: int, i: int) -> int
    decreases tasks.len() + 1 - i,
{
    if i > tasks.len() || i < 1 {
        cur
    } else if tasks[(cur + i) % tasks.len() as int].state == State::Runnable {
        (cur + i) % tasks.len() as int
    } else {
        rr_scan(tasks, cur, i + 1)
    }
}

/// The next task in round-robin order after `cur`.
pub open spec fn rr_next(tasks: Seq<Task>, cur: int) -> int {
    rr_scan(tasks, cur, 1)
}

impl Scheduler {
    pub open spec fn wf(&self) -> bool {
        self.tasks.len() == 0 || self.current < self.tasks.len()
    }

    /// The scheduler is running tasks: at least the bootstrap task exists.
    pub open spec fn active(&self) -> bool {
        self.tasks.len() > 0 && self.current < self.tasks.len()
    }

    /// An empty task table.
    pub fn new() -> (s: Scheduler)
        ensures
            s.wf(),
            s.tasks@.len() == 0,
            s.current == 0,
    {
        Scheduler { tasks: Vec::new(), current: 0 }
    }

    /// Pick the next runnable task after the current one (round robin) and
    /// make it current. Returns `(prev, next)` to switch between, or `None`
    /// when no other task is runnable and the current one keeps running.
    pub fn schedule(&mut self) -> (r: Option<(usize, usize)>)
        requires
            old(self).active(),
        ensures
            final(self).active(),
            final(self).tasks == old(self).tasks,
            ({
                let next = rr_next(old(self).tasks@, old(self).current as int);
                if next == old(self).current {
                    r.is_none() && final(self).current == old(self).current
                } else {
                    r == Some((old(self).current, next as usize)) && final(self).current == next
                }
            }),
    {
        let cur = self.current;
        let n = self.tasks.len();
        let mut i: usize = 1;
        while i < n
            invariant
                n == self.tasks@.len(),
                self.tasks == old(self).tasks,
                self.current == cur,
                cur == old(self).current,
                n > 0,
                cur < n,
                1 <= i <= n,
                rr_next(self.tasks@, cur as int) == rr_scan(self.tasks@, cur as int, i as int),
            decreases n - i,
        {
            // (cur + i) % n, computed without overflow.
            let cand = if i < n - cur { cur + i } else { i - (n - cur) };
            proof {
                if i < n - cur {
                    vstd::arithmetic::div_mod::lemma_small_mod((cur + i) as nat, n as nat);
                } else {
                    vstd::arithmetic::div_mod::lemma_small_mod((cur + i - n) as nat, n as nat);
                    vstd::arithmetic::div_mod::lemma_mod_sub_multiples_vanish((cur + i) as int, n as int);
                }
            }
            if self.tasks[cand].state == State::Runnable {
                assert(rr_scan(self.tasks@, cur as int, i as int) == cand as int);
                if cand == cur {
                    return None;
                }
                self.current = cand;
                return Some((cur, cand));
            }
            i = i + 1;
        }
        proof {
            // The last candidate is the current task itself.
            vstd::arithmetic::div_mod::lemma_small_mod(cur as nat, n as nat);
            vstd::arithmetic::div_mod::lemma_mod_sub_multiples_vanish((cur + n) as int, n as int);
            assert((cur + n) as int % (n as int) == cur as int);
            assert(rr_scan(self.tasks@, cur as int, n + 1) == cur as int);
            assert(rr_scan(self.tasks@, cur as int, n as int) == cur as int);
        }
        None
    }

    /// Record the stack pointer a task was switched out with.
    pub fn set_sp(&mut self, task: usize, sp: u64)
        requires
            task < old(self).tasks.len(),
        ensures
            final(self).current == old(self).current,
            final(self).tasks@ == old(self).tasks@.update(task as int, Task { sp, ..old(self).tasks@[task as int] }),
    {
        let t = self.tasks[task];
        self.tasks.set(task, Task { sp, ..t });
    }
}

/// Register the currently running code as task 0. Call once, before spawning.
pub fn init(s: &mut Scheduler)
    ensures
        final(s).tasks@ == old(s).tasks@.push(Task { sp: 0, state: State::Runnable, wake_at: 0 }),
        final(s).current == old(s).current,
{
    s.tasks.push(Task { sp: 0, state: State::Runnable, wake_at: 0 });
}

/// The saved context a new thread starts from: all callee-saved registers
/// zero except x30 (the return address: the trampoline), x19 (the entry
/// function) and x20 (its argument), in the order the switch restores them
/// (x29, x30, x27, x28, ..., x19, x20).
pub open spec fn initial_context(trampoline: u64, entry: u64, arg: u64) -> Seq<u64> {
    Seq::new(12, |i: int| if i == 1 { trampoline } else if i == 10 { entry } else if i == 11 { arg } else { 0 })
}

/// Spawn a kernel thread whose stack is `[stack_base, stack_base + STACK_SIZE)`
/// and that starts in `trampoline` with `entry(arg)`. Returns the initial
/// stack pointer and the register context to place there.
pub fn spawn(s: &mut Scheduler, stack_base: u64, trampoline: u64, entry: u64, arg: u64) -> (r: (u64, Vec<u64>))
    requires
        stack_base + STACK_SIZE <= u64::MAX,
        stack_base >= CONTEXT_REGS * 8,
    ensures
        r.0 == (((stack_base + STACK_SIZE) as u64) & !0xFu64) - CONTEXT_REGS * 8,
        r.1@ == initial_context(trampoline, entry, arg),
        final(s).current == old(s).current,
        final(s).tasks@ == old(s).tasks@.push(Task { sp: r.0, state: State::Runnable, wake_at: 0 }),
{
    let hi = stack_base + STACK_SIZE;
    let top = hi & !0xFu64;
    assert(top >= stack_base) by (bit_vector)
        requires
            top == hi & !0xFu64,
            hi == stack_base + 16384u64;
    let ctx = top - CONTEXT_REGS * 8;
    let mut regs: Vec<u64> = Vec::new();
    let mut i: u64 = 0;
    while i < CONTEXT_REGS
        invariant
            i <= 12,
            regs@ == initial_context(trampoline, entry, arg).subrange(0, i as int),
        decreases 12 - i,
    {
        let v = if i == 1 { trampoline } else if i == 10 { entry } else if i == 11 { arg } else { 0 };
        regs.push(v);
        i = i + 1;
        proof {
            assert(regs@ =~= initial_context(trampoline, entry, arg).subrange(0, i as int));
        }
    }
    s.tasks.push(Task { sp: ctx, state: State::Runnable, wake_at: 0 });
    (ctx, regs)
}

/// Whether any spawned worker (task index >= 1) has not yet exited.
pub fn any_worker_alive(s: &Scheduler) -> (r: bool)
    ensures
        r == exists|i: int| 1 <= i < s.tasks@.len() && #[trigger] s.tasks@[i].state != State::Exited,
{
    let mut i: usize = 1;
    while i < s.tasks.len()
        invariant
            1 <= i,
            forall|j: int| 1 <= j < i && j < s.tasks@.len() ==> #[trigger] s.tasks@[j].state == State::Exited,
        decreases s.tasks@.len() - i,
    {
        if s.tasks[i].state != State::Exited {
            return true;
        }
        i = i + 1;
    }
    false
}

/// Voluntarily yield to the next runnable task.
pub fn yield_now(s: &mut Scheduler) -> (r: Option<(usize, usize)>)
    requires
        old(s).active(),
    ensures
        final(s).active(),
        final(s).tasks == old(s).tasks,
        ({
            let next = rr_next(old(s).tasks@, old(s).current as int);
            if next == old(s).current {
                r.is_none() && final(s).current == old(s).current
            } else {
                r == Some((old(s).current, next as usize)) && final(s).current == next
            }
        }),
{
    s.schedule()
}

/// Index of the currently running task.
pub fn current(s: &Scheduler) -> (r: usize)
    ensures
        r == s.current,
{
    s.current
}

/// The task table after `task` takes state `st` with wake time `wake_at`.
pub open spec fn with_state(tasks: Seq<Task>, task: int, st: State, wake_at: u64) -> Seq<Task> {
    tasks.update(task, Task { state: st, wake_at, ..tasks[task] })
}

/// Where blocking the current task leaves the CPU.
#[derive(Clone, Copy, PartialEq, Eq, Structural, Debug)]
pub enum BlockStep {
    /// Switch from the first task to the second (runnable) one.
    Switch(usize, usize),
    /// No task is runnable: wait for an interrupt, then call
    /// [`resume_after_idle`].
    Idle,
    /// The blocked task was woken in the meantime and carries on.
    Resume,
}

/// The outcome of scheduling away from the blocked task `cur` over `tasks`,
/// `cur1` being the task then current.
pub open spec fn block_step(tasks: Seq<Task>, cur: int, cur1: int, r: BlockStep) -> bool {
    let next = rr_next(tasks, cur);
    if next == cur {
        r == BlockStep::Idle && cur1 == cur
    } else {
        r == BlockStep::Switch(cur as usize, next as usize) && cur1 == next
    }
}

/// The round-robin scan picks `cur` or a runnable task; when it picks `cur`
/// and `cur` is not runnable, no task at an offset from `i` on is runnable.
proof fn lemma_rr_scan(tasks: Seq<Task>, cur: int, i: int)
    requires
        0 <= cur < tasks.len(),
    ensures
        rr_scan(tasks, cur, i) != cur ==> 0 <= rr_scan(tasks, cur, i) < tasks.len()
            && tasks[rr_scan(tasks, cur, i)].state == State::Runnable,
        rr_scan(tasks, cur, i) == cur && 1 <= i ==> forall|j: int| i <= j <= tasks.len()
            && (cur + j) % (tasks.len() as int) != cur
            ==> #[trigger] tasks[(cur + j) % (tasks.len() as int)].state != State::Runnable,
    decreases tasks.len() + 1 - i,
{
    let n = tasks.len() as int;
    if i > tasks.len() || i < 1 {
    } else if tasks[(cur + i) % n].state == State::Runnable {
        assert(0 <= (cur + i) % n < n);
        if i < n {
            if cur + i < n {
                vstd::arithmetic::div_mod::lemma_small_mod((cur + i) as nat, n as nat);
            } else {
                vstd::arithmetic::div_mod::lemma_mod_sub_multiples_vanish(cur + i, n);
                vstd::arithmetic::div_mod::lemma_small_mod((cur + i - n) as nat, n as nat);
            }
        }
    } else {
        lemma_rr_scan(tasks, cur, i + 1);
    }
}

/// The next task round robin is a runnable one, or else `cur` itself; when
/// it is `cur` and `cur` is not runnable, no task is.
pub proof fn lemma_rr_next(tasks: Seq<Task>, cur: int)
    requires
        0 <= cur < tasks.len(),
    ensures
        rr_next(tasks, cur) != cur ==> 0 <= rr_next(tasks, cur) < tasks.len()
            && tasks[rr_next(tasks, cur)].state == State::Runnable,
        rr_next(tasks, cur) == cur && tasks[cur].state != State::Runnable
            ==> forall|k: int| 0 <= k < tasks.len() ==> #[trigger] tasks[k].state != State::Runnable,
{
    lemma_rr_scan(tasks, cur, 1);
    let n = tasks.len() as int;
    if rr_next(tasks, cur) == cur && tasks[cur].state != State::Runnable {
        assert forall|k: int| 0 <= k < n implies #[trigger] tasks[k].state != State::Runnable by {
            if k != cur {
                let j = if k > cur { k - cur } else { k + n - cur };
                if k > cur {
                    vstd::arithmetic::div_mod::lemma_small_mod(k as nat, n as nat);
                } else {
                    vstd::arithmetic::div_mod::lemma_small_mod(k as nat, n as nat);
                    vstd::arithmetic::div_mod::lemma_mod_add_multiples_vanish(k, n);
                }
                assert((cur + j) % n == k);
                assert(tasks[(cur + j) % n].state != State::Runnable);
            }
        }
    }
}

/// Block the current task until an explicit [`wake`] (its wake time is the
/// maximum, so the time-based waker leaves it alone), then schedule: switch
/// to a runnable task, or, when none is, ask the caller to idle. The blocked
/// task carries on only through [`resume_after_idle`] once it is runnable,
/// or when the scheduler picks it again, which it does only when runnable.
pub fn block_current(s: &mut Scheduler) -> (r: BlockStep)
    requires
        old(s).active(),
    ensures
        final(s).active(),
        final(s).tasks@ == with_state(old(s).tasks@, old(s).current as int, State::Blocked, u64::MAX),
        block_step(final(s).tasks@, old(s).current as int, final(s).current as int, r),
        r == BlockStep::Idle ==> forall|k: int| 0 <= k < final(s).tasks@.len()
            ==> #[trigger] final(s).tasks@[k].state != State::Runnable,
        r matches BlockStep::Switch(p, n) ==> p == old(s).current && n != p
            && final(s).tasks@[n as int].state == State::Runnable,
{
    let cur = s.current;
    let t = s.tasks[cur];
    s.tasks.set(cur, Task { state: State::Blocked, wake_at: u64::MAX, ..t });
    proof { lemma_rr_next(s.tasks@, cur as int); }
    match s.schedule() {
        Some((p, n)) => BlockStep::Switch(p, n),
        None => BlockStep::Idle,
    }
}

/// After the idle wait that [`BlockStep::Idle`] asks for: the blocked
/// current task carries on if it was woken meanwhile (`Resume`); otherwise
/// schedule again as [`block_current`] does.
pub fn resume_after_idle(s: &mut Scheduler) -> (r: BlockStep)
    requires
        old(s).active(),
    ensures
        final(s).active(),
        final(s).tasks@ == old(s).tasks@,
        old(s).tasks@[old(s).current as int].state == State::Runnable
            ==> r == BlockStep::Resume && final(s).current == old(s).current,
        old(s).tasks@[old(s).current as int].state != State::Runnable ==> {
            &&& block_step(old(s).tasks@, old(s).current as int, final(s).current as int, r)
            &&& r == BlockStep::Idle ==> forall|k: int| 0 <= k < old(s).tasks@.len()
                ==> #[trigger] old(s).tasks@[k].state != State::Runnable
            &&& r matches BlockStep::Switch(p, n) ==> p == old(s).current && n != p
                && old(s).tasks@[n as int].state == State::Runnable
        },
{
    let cur = s.current;
    if s.tasks[cur].state == State::Runnable {
        return BlockStep::Resume;
    }
    proof { lemma_rr_next(s.tasks@, cur as int); }
    match s.schedule() {
        Some((p, n)) => BlockStep::Switch(p, n),
        None => BlockStep::Idle,
    }
}

/// Make a blocked task runnable again; no change for any other state.
pub fn wake(s: &mut Scheduler, task: usize)
    requires
        task < old(s).tasks.len(),
    ensures
        final(s).current == old(s).current,
        old(s).tasks@[task as int].state == State::Blocked ==> final(s).tasks@ == old(s).tasks@.update(
            task as int, Task { state: State::Runnable, ..old(s).tasks@[task as int] }),
        old(s).tasks@[task as int].state != State::Blocked ==> final(s).tasks@ == old(s).tasks@,
{
    let t = s.tasks[task];
    if t.state == State::Blocked {
        s.tasks.set(task, Task { state: State::Runnable, ..t });
    }
}

/// Mark the current task exited and switch away for good.
pub fn exit_current(s: &mut Scheduler) -> (r: Option<(usize, usize)>)
    requires
        old(s).active(),
    ensures
        final(s).active(),
        ({
            let tasks = old(s).tasks@.update(old(s).current as int,
                Task { state: State::Exited, ..old(s).tasks@[old(s).current as int] });
            let next = rr_next(tasks, old(s).current as int);
            &&& final(s).tasks@ == tasks
            &&& if next == old(s).current {
                r.is_none() && final(s).current == old(s).current
            } else {
                r == Some((old(s).current, next as usize)) && final(s).current == next
            }
        }),
{
    task_exit(s)
}

/// Block the current thread for `n` timer ticks from `now`, then schedule.
pub fn sleep_ticks(s: &mut Scheduler, now: u64, n: u64) -> (r: Option<(usize, usize)>)
    requires
        old(s).active(),
        now + n <= u64::MAX,
    ensures
        final(s).active(),
        ({
            let tasks = with_state(old(s).tasks@, old(s).current as int, State::Blocked, (now + n) as u64);
            let next = rr_next(tasks, old(s).current as int);
            &&& final(s).tasks@ == tasks
            &&& if next == old(s).current {
                r.is_none() && final(s).current == old(s).current
            } else {
                r == Some((old(s).current, next as usize)) && final(s).current == next
            }
        }),
{
    let cur = s.current;
    let t = s.tasks[cur];
    s.tasks.set(cur, Task { state: State::Blocked, wake_at: now + n, ..t });
    s.schedule()
}

/// The state a task has after the time-based waker ran at tick `now`.
pub open spec fn woken_at(t: Task, now: u64) -> Task {
    if t.state == State::Blocked && t.wake_at <= now {
        Task { state: State::Runnable, ..t }
    } else {
        t
    }
}

/// Wake every blocked task whose wake time has arrived.
pub fn wake_sleepers(s: &mut Scheduler, now: u64)
    ensures
        final(s).current == old(s).current,
        final(s).tasks@ == old(s).tasks@.map_values(|t: Task| woken_at(t, now)),
{
    let mut i: usize = 0;
    while i < s.tasks.len()
        invariant
            s.current == old(s).current,
            s.tasks@.len() == old(s).tasks@.len(),
            i <= s.tasks@.len(),
            forall|j: int| 0 <= j < i ==> #[trigger] s.tasks@[j] == woken_at(old(s).tasks@[j], now),
            forall|j: int| i <= j < s.tasks@.len() ==> #[trigger] s.tasks@[j] == old(s).tasks@[j],
        decreases s.tasks@.len() - i,
    {
        let t = s.tasks[i];
        if t.state == State::Blocked && t.wake_at <= now {
            s.tasks.set(i, Task { state: State::Runnable, ..t });
        }
        i = i + 1;
    }
    proof {
        assert(s.tasks@ =~= old(s).tasks@.map_values(|t: Task| woken_at(t, now)));
    }
}

/// The timer tick: wake due sleepers, then preempt the current task.
pub fn tick(s: &mut Scheduler, now: u64) -> (r: Option<(usize, usize)>)
    requires
        old(s).active(),
    ensures
        final(s).active(),
        ({
            let tasks = old(s).tasks@.map_values(|t: Task| woken_at(t, now));
            let next = rr_next(tasks, old(s).current as int);
            &&& final(s).tasks@ == tasks
            &&& if next == old(s).current {
                r.is_none() && final(s).current == old(s).current
            } else {
                r == Some((old(s).current, next as usize)) && final(s).current == next
            }
        }),
{
    wake_sleepers(s, now);
    s.schedule()
}

/// Mark the current thread exited and switch away permanently (the entry of
/// every thread returns here). The scheduler skips exited tasks.
pub fn task_exit(s: &mut Scheduler) -> (r: Option<(usize, usize)>)
    requires
        old(s).active(),
    ensures
        final(s).active(),
        ({
            let tasks = old(s).tasks@.update(old(s).current as int,
                Task { state: State::Exited, ..old(s).tasks@[old(s).current as int] });
            let next = rr_next(tasks, old(s).current as int);
            &&& final(s).tasks@ == tasks
            &&& if next == old(s).current {
                r.is_none() && final(s).current == old(s).current
            } else {
                r == Some((old(s).current, next as usize)) && final(s).current == next
            }
        }),
{
    let cur = s.current;
    let t = s.tasks[cur];
    s.tasks.set(cur, Task { state: State::Exited, ..t });
    s.schedule()
}

} // verus!
