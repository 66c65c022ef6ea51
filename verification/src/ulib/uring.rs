//! The user half of the jring: publish submissions, hand them to the kernel,
//! and reap completions by tag.
//!
//! Submissions are plain memory stores into the shared page; the only trap is
//! `SYS_RING_ENTER`, needed when the kernel's poller sleeps or when a waiter
//! wants to sleep until a completion exists. Completions for other tags reaped
//! along the way are stashed, never lost.
use vstd::prelude::*;
use crate::abi::{RingPage, Sqe, Cqe, NEED_WAKEUP, slot_of, ring_used};
use crate::kernel::ring::slot;

verus! {

/// Opcode: no operation.
pub const OP_NOP: u64 = 0;
/// Opcode: print a string.
pub const OP_PRINT: u64 = 1;
/// Opcode: read console input.
pub const OP_READ: u64 = 2;

/// Completions reaped while waiting for another tag, as `(tag, result)`
/// pairs, oldest first.
pub struct Stash {
    pub slots: Vec<(u64, i64)>,
}

impl Stash {
    /// An empty stash.
    pub fn new() -> (s: Stash)
        ensures
            s.slots@ == Seq::<(u64, i64)>::empty(),
    {
        Stash { slots: Vec::new() }
    }
}

/// What waiting for a completion needs next.
#[derive(Clone, Copy, PartialEq, Eq, Structural, Debug)]
pub enum WaitStep {
    /// The completion arrived, with this result.
    Done(i64),
    /// The queue is empty: sleep in `SYS_RING_ENTER(1)`, then wait again.
    Enter,
    /// The queue is empty: spin, then wait again.
    Spin,
    /// Another tag's completion was reaped and stashed: wait again.
    Again,
}

/// Queue one submission: write the SQE at the producer index, then publish
/// it by advancing the index (wrapping).
pub fn sqe(page: &mut RingPage, op: u64, a0: u64, a1: u64, tag: u64)
    requires
        old(page).wf(),
    ensures
        final(page).wf(),
        *final(page) == (RingPage { sq: final(page).sq, sq_tail: old(page).sq_tail.wrapping_add(1), ..*old(page) }),
        final(page).sq@ == old(page).sq@.update(slot_of(old(page).sq_tail),
            Sqe { opcode: op, arg0: a0, arg1: a1, user_data: tag }),
{
    let tail = page.sq_tail;
    let s = slot(tail);
    page.sq.set(s, Sqe { opcode: op, arg0: a0, arg1: a1, user_data: tag });
    page.sq_tail = tail.wrapping_add(1);
}

/// Whether handing the published submissions to the kernel needs the
/// `SYS_RING_ENTER(0)` trap: only when the kernel's poller raised
/// `NEED_WAKEUP` (otherwise it consumes them with no trap at all).
pub fn submit(page: &RingPage) -> (need_enter: bool)
    ensures
        need_enter == (page.flags & NEED_WAKEUP != 0),
{
    page.flags & NEED_WAKEUP != 0
}

/// The slot of the stash holding `tag`, if any (the first one at or after
/// `i`).
pub open spec fn stashed_at(s: Seq<(u64, i64)>, tag: u64, i: int) -> Option<int>
    decreases s.len() - i,
{
    if i < 0 || i >= s.len() {
        None
    } else if s[i].0 == tag {
        Some(i)
    } else {
        stashed_at(s, tag, i + 1)
    }
}

/// `(s1, p1, r)` is one step of waiting for `tag` from stash `s0` and page
/// `p0`: a stashed result is taken first (its entry removed); otherwise an
/// empty queue answers `Enter` (`block`) or `Spin`; otherwise the oldest
/// completion is consumed: its result if it carries `tag`, else it is added
/// to the stash (never lost) and the answer is `Again`.
pub open spec fn reap_step(s0: Seq<(u64, i64)>, s1: Seq<(u64, i64)>, p0: RingPage, p1: RingPage, tag: u64,
    block: bool, r: WaitStep) -> bool {
    &&& stashed_at(s0, tag, 0) is Some ==> {
        let i = stashed_at(s0, tag, 0)->0;
        &&& r == WaitStep::Done(s0[i].1)
        &&& s1 == s0.remove(i)
        &&& p1 == p0
    }
    &&& stashed_at(s0, tag, 0) is None ==> {
        if p0.cq_head == p0.cq_tail {
            &&& r == if block { WaitStep::Enter } else { WaitStep::Spin }
            &&& p1 == p0
            &&& s1 == s0
        } else {
            let c = p0.cq@[slot_of(p0.cq_head)];
            &&& p1 == (RingPage { cq_head: p0.cq_head.wrapping_add(1), ..p0 })
            &&& c.user_data == tag ==> r == WaitStep::Done(c.result) && s1 == s0
            &&& c.user_data != tag ==> r == WaitStep::Again && s1 == s0.push((c.user_data, c.result))
        }
    }
}

/// One step of waiting for the completion tagged `tag` (see [`reap_step`]).
pub fn reap(st: &mut Stash, page: &mut RingPage, tag: u64, block: bool) -> (r: WaitStep)
    requires
        old(page).wf(),
    ensures
        final(page).wf(),
        reap_step(old(st).slots@, final(st).slots@, *old(page), *final(page), tag, block, r),
{
    let mut i: usize = 0;
    while i < st.slots.len()
        invariant
            i <= st.slots@.len(),
            *st == *old(st),
            *page == *old(page),
            old(page).wf(),
            stashed_at(st.slots@, tag, 0) == stashed_at(st.slots@, tag, i as int),
        decreases st.slots@.len() - i,
    {
        if st.slots[i].0 == tag {
            let (_, res) = st.slots.remove(i);
            return WaitStep::Done(res);
        }
        i = i + 1;
    }
    assert(stashed_at(old(st).slots@, tag, 0) is None);
    let head = page.cq_head;
    let tail = page.cq_tail;
    if head == tail {
        return if block { WaitStep::Enter } else { WaitStep::Spin };
    }
    let c = page.cq[slot(head)];
    page.cq_head = head.wrapping_add(1);
    if c.user_data == tag {
        return WaitStep::Done(c.result);
    }
    st.slots.push((c.user_data, c.result));
    WaitStep::Again
}

/// One step of waiting for `tag`, sleeping in the kernel while the queue is
/// empty (see [`reap`]).
pub fn wait(st: &mut Stash, page: &mut RingPage, tag: u64) -> (r: WaitStep)
    requires
        old(page).wf(),
    ensures
        final(page).wf(),
        reap_step(old(st).slots@, final(st).slots@, *old(page), *final(page), tag, true, r),
{
    reap(st, page, tag, true)
}

/// One step of waiting for `tag`, busy-polling while the queue is empty (no
/// trap at all on this path; see [`reap`]).
pub fn wait_spin(st: &mut Stash, page: &mut RingPage, tag: u64) -> (r: WaitStep)
    requires
        old(page).wf(),
    ensures
        final(page).wf(),
        reap_step(old(st).slots@, final(st).slots@, *old(page), *final(page), tag, false, r),
{
    reap(st, page, tag, false)
}

} // verus!
