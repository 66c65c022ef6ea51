//! The kernel proper: physical memory and frames, page tables, the scheduler,
//! the console-input buffer, the jring, user memory and process state.
pub mod phys;
pub mod frames;
pub mod mmu;
pub mod input;
pub mod elf;
pub mod user;
pub mod sched;
pub mod process;
pub mod ring;
pub mod gic;
pub mod syscall;
pub mod uart;
pub mod space;

use vstd::prelude::*;
use crate::kernel::mmu::Machine;
use crate::kernel::ring::RingState;
use crate::kernel::user::{UserState, Effect};
use crate::kernel::input::InputBuf;
use crate::kernel::sched::Scheduler;

verus! {

/// The kernel's state: what was once a set of global singletons, gathered so
/// that each operation names exactly what it reads and writes.
pub struct Kernel {
    pub machine: Machine,
    pub ring: RingState,
    pub user: UserState,
    pub input: InputBuf,
    pub sched: Scheduler,
    /// Accesses to user memory and the console, queued for the
    /// hardware-facing layer in the order the kernel made them.
    pub effects: Vec<Effect>,
}

impl Kernel {
    pub open spec fn wf(&self) -> bool {
        &&& self.ring.wf()
        &&& self.user.wf()
        &&& self.input.wf()
        &&& self.sched.wf()
        &&& self.ring.waiter matches Some(w) ==> w < self.sched.tasks.len()
        &&& self.ring.poller matches Some(w) ==> w < self.sched.tasks.len()
    }
}

} // verus!
