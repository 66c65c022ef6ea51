//! The kernel/userspace contract: syscall numbers, the jring page layout,
//! opcodes and flags.
//!
//! The shared ring page is modelled as plain integers: every field of it may be
//! rewritten by the user at any moment, so no code in this crate assumes any
//! relation between them beyond the fixed number of slots. Addresses are
//! `u64`: the kernel runs on a 64-bit machine, whatever the host's `usize`.
use vstd::prelude::*;

verus! {

/// Add two arguments: `x0 + x1 -> x0`.
pub const SYS_ADD: u64 = 1;
/// Terminate the user program: `x0` = exit code.
pub const SYS_EXIT: u64 = 3;
/// Map (idempotently) the shared jring page; returns its virtual address.
pub const SYS_RING_SETUP: u64 = 5;
/// Process all published jring submissions, then block until the completion
/// queue holds at least `x0` unreaped entries.
pub const SYS_RING_ENTER: u64 = 6;

/// Base of the EL0 virtual-address window (L0 slot 1).
pub const USER_BASE: u64 = 0x80_0000_0000;
/// L0 index of the user window.
pub const USER_L0_IDX: u64 = 1;
/// Virtual address of the shared ring page.
pub const USER_RING_VA: u64 = 0x80_0030_0000;

/// Entries in each ring.
pub const RING_ENTRIES: u32 = 16;
/// Mask turning a free-running index into a ring slot.
pub const RING_MASK: u32 = 15;

/// Flags-word bit: the kernel's SQ poller went to sleep.
pub const NEED_WAKEUP: u32 = 1;

/// Opcode: no operation.
pub const OP_NOP: u64 = 0;
/// Opcode: print a UTF-8 string (`arg0` = pointer, `arg1` = length).
pub const OP_PRINT: u64 = 1;
/// Opcode: read console input (`arg0` = buffer, `arg1` = length).
pub const OP_READ: u64 = 2;
/// Opcode reserved for spawning a program; not implemented yet, so the
/// kernel answers it with `-1` like any unknown opcode.
pub const OP_SPAWN: u64 = 3;
/// Opcode reserved for waiting on a child's exit; not implemented yet, so
/// the kernel answers it with `-1` like any unknown opcode.
pub const OP_WAIT: u64 = 4;

/// Submission Queue Entry: one I/O request written by userspace.
#[derive(Clone, Copy, PartialEq, Eq, Structural, Debug)]
pub struct Sqe {
    pub opcode: u64,
    pub arg0: u64,
    pub arg1: u64,
    /// Opaque completion tag, echoed in the matching CQE.
    pub user_data: u64,
}

/// Completion Queue Entry: one finished request written by the kernel.
#[derive(Clone, Copy, PartialEq, Eq, Structural, Debug)]
pub struct Cqe {
    pub user_data: u64,
    /// `>= 0` on success, negative on error.
    pub result: i64,
}

/// The shared ring page: the submission queue (user produces, kernel
/// consumes) and the completion queue (kernel produces, user consumes).
/// Indices free-run as `u32`s; `tail - head` (wrapping) is the number of
/// unconsumed entries.
pub struct RingPage {
    pub sq_head: u32,
    pub sq_tail: u32,
    pub cq_head: u32,
    pub cq_tail: u32,
    pub flags: u32,
    pub sq: Vec<Sqe>,
    pub cq: Vec<Cqe>,
}

/// The value of a free-running ring slot index.
pub open spec fn slot_of(index: u32) -> int {
    index as int % RING_ENTRIES as int
}

/// Number of entries between a consumer index and a producer index, counted
/// modulo 2^32 as the free-running indices are.
pub open spec fn ring_used(head: u32, tail: u32) -> nat {
    ((tail as int - head as int) % 0x1_0000_0000int) as nat
}

impl RingPage {
    /// The page holds exactly one slot per ring entry in each queue.
    pub open spec fn wf(&self) -> bool {
        &&& self.sq.len() == RING_ENTRIES
        &&& self.cq.len() == RING_ENTRIES
    }

    /// The unreaped completions, oldest first (meaningful while the CQ is not
    /// over-full).
    pub open spec fn cq_pending(&self) -> Seq<Cqe> {
        Seq::new(
            ring_used(self.cq_head, self.cq_tail),
            |k: int| self.cq@[(self.cq_head as int + k) % RING_ENTRIES as int],
        )
    }

    /// The published, not yet consumed submissions, oldest first.
    pub open spec fn sq_pending(&self) -> Seq<Sqe> {
        Seq::new(
            ring_used(self.sq_head, self.sq_tail),
            |k: int| self.sq@[(self.sq_head as int + k) % RING_ENTRIES as int],
        )
    }

    /// A zeroed ring page, as `SYS_RING_SETUP` publishes it.
    pub fn zeroed() -> (r: RingPage)
        ensures
            r.wf(),
            r.sq_head == 0 && r.sq_tail == 0 && r.cq_head == 0 && r.cq_tail == 0,
            r.flags == 0,
            forall|i: int| 0 <= i < RING_ENTRIES ==> #[trigger] r.sq@[i] == (Sqe { opcode: 0, arg0: 0, arg1: 0, user_data: 0 }),
            forall|i: int| 0 <= i < RING_ENTRIES ==> #[trigger] r.cq@[i] == (Cqe { user_data: 0, result: 0 }),
    {
        RingPage {
            sq_head: 0,
            sq_tail: 0,
            cq_head: 0,
            cq_tail: 0,
            flags: 0,
            sq: vec![Sqe { opcode: 0, arg0: 0, arg1: 0, user_data: 0 }; 16],
            cq: vec![Cqe { user_data: 0, result: 0 }; 16],
        }
    }
}

} // verus!
