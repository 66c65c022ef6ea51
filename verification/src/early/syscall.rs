//! Syscall dispatch of the first phase: `SYS_ADD` and `SYS_PRINT`.
//!
//! ABI (Linux-like AArch64): syscall number in `x8`, arguments in `x0..x5`,
//! return value in `x0`.
use vstd::prelude::*;
use crate::early::exceptions::TrapFrame;
use crate::kernel::user::Effect;

verus! {

/// Add two arguments: `x0 + x1 -> x0`.
pub const SYS_ADD: u64 = 1;
/// Print a string: `x0 = ptr`, `x1 = len`, returns 0.
pub const SYS_PRINT: u64 = 2;

/// Print the UTF-8 string of `len` bytes at `ptr`: the print is queued (the
/// bytes are read, and printed only if they are valid UTF-8, outside).
fn sys_print(effects: &mut Vec<Effect>, ptr: u64, len: u64)
    ensures
        final(effects)@ == old(effects)@.push(Effect::Print { ptr, len }),
{
    effects.push(Effect::Print { ptr, len });
}

/// Dispatch the syscall described by `frame` (number in `x8`, arguments in
/// `x0..`), writing the result to `x0`; an unknown number answers `u64::MAX`.
/// Returns the number when it is unknown (for the diagnostic).
pub fn dispatch(frame: &mut TrapFrame, effects: &mut Vec<Effect>) -> (unknown: Option<u64>)
    ensures
        final(frame).elr == old(frame).elr,
        final(frame).spsr == old(frame).spsr,
        forall|i: int| 1 <= i < 31 ==> #[trigger] final(frame).x[i] == old(frame).x[i],
        old(frame).x[8] == SYS_ADD ==> final(frame).x[0] == old(frame).x[0].wrapping_add(old(frame).x[1])
            && unknown is None && final(effects)@ == old(effects)@,
        old(frame).x[8] == SYS_PRINT ==> final(frame).x[0] == 0 && unknown is None
            && final(effects)@ == old(effects)@.push(Effect::Print { ptr: old(frame).x[0], len: old(frame).x[1] }),
        old(frame).x[8] != SYS_ADD && old(frame).x[8] != SYS_PRINT ==> final(frame).x[0] == u64::MAX
            && unknown == Some(old(frame).x[8]) && final(effects)@ == old(effects)@,
{
    let number = frame.x[8];
    if number == SYS_ADD {
        let r = frame.x[0].wrapping_add(frame.x[1]);
        frame.x[0] = r;
        None
    } else if number == SYS_PRINT {
        sys_print(effects, frame.x[0], frame.x[1]);
        frame.x[0] = 0;
        None
    } else {
        frame.x[0] = u64::MAX;
        Some(number)
    }
}

} // verus!
