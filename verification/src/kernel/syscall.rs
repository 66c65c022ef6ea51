//! Kernel syscall dispatch.
//!
//! ABI (Linux-like AArch64): syscall number in `x8`, arguments in `x0..x5`,
//! return value in `x0`. The vector stub has saved everything into the
//! [`TrapFrame`]; the result is written back to `x[0]`, which the stub
//! restores before returning to the caller.
use vstd::prelude::*;
use crate::abi::{SYS_ADD, SYS_EXIT, SYS_RING_ENTER, SYS_RING_SETUP, USER_RING_VA};
use crate::early::exceptions::TrapFrame;
use crate::kernel::Kernel;
use crate::kernel::mmu::{ADDR_MASK, path_has_no_block, tables_needed, translation};
use crate::kernel::ring::{setup, enter, sq_ok, ring_set_up, entered, EnterStep};
use crate::kernel::sched::{exit_current, State, Task, rr_next, BlockStep};
use crate::kernel::user::{teardown, owned_ok};
use crate::kernel::process::MAX_PENDING;

verus! {

/// What a syscall left for the hardware-facing layer to do.
#[derive(Clone, Copy, Debug)]
pub enum SyscallOutcome {
    /// Resume the caller; its result is in `x[0]`.
    Return,
    /// The caller blocked inside `SYS_RING_ENTER`: perform the task switch, if
    /// any; once woken the call continues with `ring::enter_wait`.
    Blocked { switch: BlockStep },
    /// The program exited with `code` and its `freed` frames were reclaimed;
    /// its task is retired and the switch (if any) leaves it for good.
    Exited { code: i64, freed: usize, switch: Option<(usize, usize)> },
    /// An unknown syscall number (`x[0]` holds `u64::MAX`).
    Unknown { number: u64 },
}

/// Dispatch the syscall described by `frame` (number in `x8`, arguments in
/// `x0..`), made from EL0 when `from_user`.
///
/// - `SYS_ADD`: `x0 + x1` (wrapping).
/// - `SYS_RING_SETUP`: map the ring page once; returns its address.
/// - `SYS_RING_ENTER`: process submissions, then wait for `x0` completions.
/// - `SYS_EXIT`: tear the program down and retire the calling task.
/// - anything else: `u64::MAX`.
pub fn dispatch(k: &mut Kernel, frame: &mut TrapFrame, from_user: bool) -> (out: SyscallOutcome)
    requires
        old(k).wf(),
        old(k).machine.wf(),
        old(k).sched.active(),
        old(frame).x[8] == SYS_RING_SETUP ==> {
            &&& old(k).machine.is_root(old(k).machine.ttbr0 & ADDR_MASK)
            &&& !old(k).ring.mapped ==> {
                &&& path_has_no_block(old(k).machine.mem, old(k).machine.ttbr0 & ADDR_MASK, USER_RING_VA)
                &&& tables_needed(old(k).machine.mem, old(k).machine.ttbr0 & ADDR_MASK, USER_RING_VA) + 1
                    <= old(k).machine.free().len()
            }
        },
        old(frame).x[8] == SYS_RING_ENTER ==> sq_ok(old(k).ring.page, from_user),
        old(frame).x[8] == SYS_EXIT ==> {
            &&& old(k).machine.is_root(old(k).machine.ttbr0 & ADDR_MASK)
            &&& owned_ok(&old(k).machine, old(k).user.frames@)
        },
    ensures
        final(frame).elr == old(frame).elr,
        final(frame).spsr == old(frame).spsr,
        final(k).sched.active(),
        forall|i: int| 1 <= i < 31 ==> #[trigger] final(frame).x[i] == old(frame).x[i],
        old(frame).x[8] == SYS_ADD ==> {
            &&& final(frame).x[0] == old(frame).x[0].wrapping_add(old(frame).x[1])
            &&& out == SyscallOutcome::Return
            &&& *final(k) == *old(k)
        },
        old(frame).x[8] == SYS_RING_SETUP ==> {
            &&& final(frame).x[0] == USER_RING_VA
            &&& out == SyscallOutcome::Return
            &&& ring_set_up(*old(k), *final(k))
        },
        old(frame).x[8] == SYS_RING_ENTER ==> exists|r: EnterStep| {
            &&& #[trigger] entered(*old(k), *final(k), from_user, old(frame).x[0], r)
            &&& match r {
                EnterStep::Done(v) => final(frame).x[0] == v && out == SyscallOutcome::Return,
                EnterStep::Block(sw) => final(frame).x[0] == old(frame).x[0]
                    && out == (SyscallOutcome::Blocked { switch: sw }),
            }
        },
        old(frame).x[8] == SYS_EXIT ==> {
            let cur = old(k).sched.current as int;
            let tasks = old(k).sched.tasks@.update(cur, Task { state: State::Exited, ..old(k).sched.tasks@[cur] });
            let next = rr_next(tasks, cur);
            &&& out matches SyscallOutcome::Exited { code, freed, switch }
            &&& code == old(frame).x[0] as i64
            &&& freed == old(k).user.frames@.len()
            &&& switch == if next == cur { None } else { Some((old(k).sched.current, next as usize)) }
            &&& final(k).sched.tasks@ == tasks
            &&& final(k).user.loaded is None
            &&& final(k).user.frames@.len() == 0
            &&& final(k).ring.waiter is None
            &&& forall|i: int| 0 <= i < MAX_PENDING ==> #[trigger] final(k).ring.pending@[i] is None
            &&& final(k).machine.free() == Seq::new(freed as nat, |i: int| old(k).user.frames@[freed - 1 - i].1@)
                + old(k).machine.free()
            &&& forall|i: int| 0 <= i < freed ==> translation(final(k).machine.mem,
                final(k).machine.ttbr0 & ADDR_MASK, #[trigger] old(k).user.frames@[i].0) is None
            &&& final(frame).x[0] == old(frame).x[0]
        },
        old(frame).x[8] != SYS_ADD && old(frame).x[8] != SYS_RING_SETUP && old(frame).x[8] != SYS_RING_ENTER
            && old(frame).x[8] != SYS_EXIT ==> {
            &&& final(frame).x[0] == u64::MAX
            &&& out == (SyscallOutcome::Unknown { number: old(frame).x[8] })
            &&& *final(k) == *old(k)
        },
{
    let number = frame.x[8];
    if number == SYS_ADD {
        let r = frame.x[0].wrapping_add(frame.x[1]);
        frame.x[0] = r;
        SyscallOutcome::Return
    } else if number == SYS_RING_SETUP {
        let va = setup(k);
        frame.x[0] = va;
        SyscallOutcome::Return
    } else if number == SYS_RING_ENTER {
        let r = enter(k, from_user, frame.x[0]);
        match r {
            EnterStep::Done(v) => {
                frame.x[0] = v;
                SyscallOutcome::Return
            },
            EnterStep::Block(sw) => SyscallOutcome::Blocked { switch: sw },
        }
    } else if number == SYS_EXIT {
        let code = frame.x[0] as i64;
        let freed = teardown(k);
        let switch = exit_current(&mut k.sched);
        SyscallOutcome::Exited { code, freed, switch }
    } else {
        frame.x[0] = u64::MAX;
        SyscallOutcome::Unknown { number }
    }
}

} // verus!
