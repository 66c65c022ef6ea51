//! `jring`: an io_uring-lite over a shared ring page — the kernel half.
//!
//! The kernel consumes SQEs (submission queue entries), posts CQEs (completion
//! queue entries), parks reads until console input arrives, hosts the SQPOLL
//! submission-poller task, and blocks `enter(min_complete)` callers until
//! enough completions exist. Every field of the ring page may be rewritten by
//! the user at any time: nothing here relies on its indices being sensible.
use vstd::prelude::*;
use crate::abi::{Sqe, Cqe, RingPage, NEED_WAKEUP, OP_NOP, OP_PRINT, OP_READ, RING_ENTRIES, RING_MASK,
    USER_RING_VA, ring_used, slot_of};
use crate::kernel::Kernel;
use crate::kernel::process::{Pending, MAX_PENDING};
use crate::kernel::user::{UserState, Effect, user_range_ok, stores, is_user_range, is_user_range_writable,
    copy_to_user};
use crate::kernel::input::{InputBuf, INPUT_BUF_SIZE, pop};
use crate::kernel::sched::{Task, State, wake, block_current, rr_next, with_state, BlockStep, block_step};
use crate::kernel::mmu::{Machine, PAGE_USER_RW, ADDR_MASK, path_has_no_block, tables_needed, leaf_entry};

verus! {

/// Ticks without work before the SQPOLL task goes to sleep.
pub const SQ_IDLE_TICKS: u64 = 5;

/// CQE result for an invalid pointer, opcode, or a full pending table.
pub const ERR: i64 = -1;

/// The kernel side of the ring.
pub struct RingState {
    /// Whether the ring page has been mapped (setup is idempotent).
    pub mapped: bool,
    /// Parked reads, `MAX_PENDING` slots.
    pub pending: Vec<Option<Pending>>,
    /// Task blocked in `enter` waiting for completions.
    pub waiter: Option<usize>,
    /// The SQPOLL task, woken by `enter` when `NEED_WAKEUP` was set.
    pub poller: Option<usize>,
    /// The shared page.
    pub page: RingPage,
}

impl RingState {
    pub open spec fn wf(&self) -> bool {
        &&& self.page.wf()
        &&& self.pending.len() == MAX_PENDING
        &&& forall|i: int| 0 <= i < MAX_PENDING ==>
            (#[trigger] self.pending@[i] matches Some(p) ==> p.buf + p.len <= u64::MAX)
    }

    /// A ring that is not mapped yet.
    pub fn new() -> (r: RingState)
        ensures
            r.wf(),
            !r.mapped,
            r.waiter.is_none() && r.poller.is_none(),
            forall|i: int| 0 <= i < MAX_PENDING ==> #[trigger] r.pending@[i].is_none(),
    {
        RingState { mapped: false, pending: vec![None; MAX_PENDING], waiter: None, poller: None, page: RingPage::zeroed() }
    }
}

/// The completion queue holds a full ring of unreaped entries.
pub open spec fn cq_full(p: RingPage) -> bool {
    ring_used(p.cq_head, p.cq_tail) >= RING_ENTRIES
}

/// `x + 1` modulo 2^32.
pub open spec fn inc(x: u32) -> u32 {
    ((x as int + 1) % 0x1_0000_0000int) as u32
}

/// `p1` is `p0` after posting the completion `(user_data, result)`: written
/// to the slot of the CQ tail and published, unless the CQ is full, in which
/// case it is dropped.
pub open spec fn posted(p0: RingPage, p1: RingPage, user_data: u64, result: i64) -> bool {
    &&& p1.sq_head == p0.sq_head
    &&& p1.sq_tail == p0.sq_tail
    &&& p1.cq_head == p0.cq_head
    &&& p1.flags == p0.flags
    &&& p1.sq@ == p0.sq@
    &&& if cq_full(p0) {
        p1.cq_tail == p0.cq_tail && p1.cq@ == p0.cq@
    } else {
        &&& p1.cq_tail == inc(p0.cq_tail)
        &&& p1.cq@ == p0.cq@.update(slot_of(p0.cq_tail), Cqe { user_data, result })
    }
}

/// Slot for a free-running index.
pub fn slot(index: u32) -> (s: usize)
    ensures
        s == slot_of(index),
        s < RING_ENTRIES,
{
    let s = index & RING_MASK;
    assert(s == index % 16) by (bit_vector)
        requires
            s == index & 15u32;
    s as usize
}

/// Post a completion: write the CQE at the tail, then publish it by advancing
/// the tail. A completion that finds the CQ full is dropped. Returns whether
/// it was posted.
pub fn complete(page: &mut RingPage, user_data: u64, result: i64) -> (posted_ok: bool)
    requires
        old(page).wf(),
    ensures
        final(page).wf(),
        posted_ok == !cq_full(*old(page)),
        posted(*old(page), *final(page), user_data, result),
{
    let tail = page.cq_tail;
    let head = page.cq_head;
    if tail.wrapping_sub(head) >= RING_ENTRIES {
        return false;
    }
    let s = slot(tail);
    page.cq.set(s, Cqe { user_data, result });
    page.cq_tail = tail.wrapping_add(1);
    true
}

/// Posting to a CQ that is not full appends the completion to the unreaped
/// ones: completions are reaped in the order they were posted.
pub proof fn law_completions_fifo(p0: RingPage, p1: RingPage, user_data: u64, result: i64)
    requires
        p0.wf(),
        posted(p0, p1, user_data, result),
        !cq_full(p0),
    ensures
        p1.cq_pending() == p0.cq_pending().push(Cqe { user_data, result }),
{
    let used = ring_used(p0.cq_head, p0.cq_tail);
    let h = p0.cq_head as int;
    let t = p0.cq_tail as int;
    assert(ring_used(p1.cq_head, p1.cq_tail) == used + 1);
    // The tail's slot follows the last unreaped entry.
    assert((h + used) % 16 == t % 16) by {
        assert(t == h + used || t == h + used - 0x1_0000_0000int);
        vstd::arithmetic::div_mod::lemma_mod_add_multiples_vanish(t, 16);
        assert((t + 0x1_0000_0000int) % 16 == t % 16) by {
            vstd::arithmetic::div_mod::lemma_mod_multiples_vanish(0x1000_0000int, t, 16);
        }
    }
    let q = p0.cq_pending().push(Cqe { user_data, result });
    assert forall|k: int| 0 <= k < used + 1 implies #[trigger] p1.cq_pending()[k] == q[k] by {
        if k < used {
            assert((h + k) % 16 != (h + used) % 16) by {
                if (h + k) % 16 == (h + used) % 16 {
                    vstd::arithmetic::div_mod::lemma_mod_equivalence(h + k, h + used, 16);
                    vstd::arithmetic::div_mod::lemma_small_mod((used - k) as nat, 16);
                }
            }
        }
    }
    assert(p1.cq_pending() =~= p0.cq_pending().push(Cqe { user_data, result }));
}

/// How many of the bytes at `buf + i, ..., buf + limit - 1` can be delivered
/// before the first one whose destination is not writable user memory,
/// counting from `i` (the result is an index: `limit` when all can).
pub open spec fn first_undeliverable(loaded: Option<crate::kernel::elf::Loaded>, buf: u64, i: int, limit: int) -> int
    decreases limit - i,
{
    if i >= limit {
        limit
    } else if !user_range_ok(loaded, (buf + i) as u64, 1, true) {
        i
    } else {
        first_undeliverable(loaded, buf, i + 1, limit)
    }
}

/// `k1` is `k0` after delivering buffered input to the user buffer
/// `[buf, buf + len)`, `count` bytes of it: bytes are taken from the input
/// buffer in order and stored one by one; a byte whose destination fails
/// validation is taken but dropped, and delivery stops there.
pub open spec fn input_delivered(k0: Kernel, k1: Kernel, buf: u64, len: u64, count: u64) -> bool {
    let v = k0.input@;
    let lim = vstd::math::min(len as int, v.len() as int);
    let c = first_undeliverable(k0.user.loaded, buf, 0, lim);
    let consumed = if c < lim { c + 1 } else { c };
    &&& count == c
    &&& k1.input@ == v.subrange(consumed, v.len() as int)
    &&& k1.input.rx_irq == (k0.input.rx_irq || (consumed > 0 && v.len() == INPUT_BUF_SIZE - 1))
    &&& k1.effects@ == k0.effects@ + stores(buf, v.subrange(0, c))
}

/// Everything but the input buffer and the effect queue is as in `k0`.
pub open spec fn only_io_changed(k0: Kernel, k1: Kernel) -> bool {
    &&& k1.machine == k0.machine
    &&& k1.ring == k0.ring
    &&& k1.user == k0.user
    &&& k1.sched == k0.sched
}

/// Deliver buffered console input into the user range `[buf, buf + len)`,
/// byte by byte through `copy_to_user`. Returns the number of bytes delivered.
pub fn drain_input(k: &mut Kernel, buf: u64, len: u64) -> (count: u64)
    requires
        old(k).wf(),
        buf + len <= u64::MAX,
    ensures
        final(k).wf(),
        only_io_changed(*old(k), *final(k)),
        input_delivered(*old(k), *final(k), buf, len, count),
{
    let ghost k0 = *k;
    let ghost v = k.input@;
    let ghost lim = vstd::math::min(len as int, v.len() as int);
    let mut count: u64 = 0;
    while count < len
        invariant_except_break
            count <= lim,
            first_undeliverable(k0.user.loaded, buf, 0, lim) == first_undeliverable(k0.user.loaded, buf, count as int, lim),
            k.input@ == v.subrange(count as int, v.len() as int),
            k.input.rx_irq == (k0.input.rx_irq || (count > 0 && v.len() == INPUT_BUF_SIZE - 1)),
        invariant
            k.wf(),
            only_io_changed(k0, *k),
            k0.wf(),
            v == k0.input@,
            lim == vstd::math::min(len as int, v.len() as int),
            buf + len <= u64::MAX,
            count <= len,
            k.effects@ == k0.effects@ + stores(buf, v.subrange(0, count as int)),
        ensures
            input_delivered(k0, *k, buf, len, count),
        decreases len - count,
    {
        let ghost before = k.input@;
        match pop(&mut k.input) {
            Some(b) => {
                proof {
                    assert(b == v[count as int]);
                }
                let one: [u8; 1] = [b];
                if !copy_to_user(&k.user, &mut k.effects, buf + count, &one) {
                    proof {
                        assert(first_undeliverable(k0.user.loaded, buf, count as int, lim) == count);
                        assert(k.input@ =~= v.subrange(count + 1, v.len() as int));
                    }
                    break;
                }
                proof {
                    assert(one@ =~= seq![b]);
                    assert(stores(buf, v.subrange(0, count + 1)) =~= stores(buf, v.subrange(0, count as int)) + stores((buf + count) as u64, one@));
                    assert(k.input@ =~= v.subrange(count + 1, v.len() as int));
                }
                count = count + 1;
            },
            None => {
                proof {
                    assert(count == v.len());
                }
                break;
            },
        }
    }
    count
}

/// The number of bytes delivering input to `[buf, buf + len)` stores.
pub open spec fn delivered_count(k0: Kernel, buf: u64, len: u64) -> int {
    first_undeliverable(k0.user.loaded, buf, 0, vstd::math::min(len as int, k0.input@.len() as int))
}

/// The first free slot of the pending table at or after `i` (its length when
/// every slot is taken).
pub open spec fn first_free(pending: Seq<Option<Pending>>, i: int) -> int
    decreases pending.len() - i,
{
    if i >= pending.len() {
        pending.len() as int
    } else if pending[i] is None {
        i
    } else {
        first_free(pending, i + 1)
    }
}

/// The ring's kernel-side bookkeeping is unchanged, the page posts
/// `(user_data, result)`.
pub open spec fn ring_posted(k0: Kernel, k1: Kernel, user_data: u64, result: i64) -> bool {
    &&& k1.ring.mapped == k0.ring.mapped
    &&& k1.ring.pending == k0.ring.pending
    &&& k1.ring.waiter == k0.ring.waiter
    &&& k1.ring.poller == k0.ring.poller
    &&& posted(k0.ring.page, k1.ring.page, user_data, result)
}

/// Machine, user bookkeeping and tasks are untouched.
pub open spec fn core_same(k0: Kernel, k1: Kernel) -> bool {
    &&& k1.machine == k0.machine
    &&& k1.user == k0.user
    &&& k1.sched == k0.sched
}

/// Input buffer and effect queue are untouched.
pub open spec fn io_same(k0: Kernel, k1: Kernel) -> bool {
    &&& k1.input == k0.input
    &&& k1.effects == k0.effects
}

/// What executing one submission does.
///
/// - `NOP` completes with 0.
/// - `PRINT` of a user range that fails validation (when `from_user`)
///   completes with `ERR`; otherwise the print is queued and completes with 0.
/// - `READ` into a destination that is not writable user memory (when
///   `from_user`) completes with `ERR`; a zero-length read completes with 0;
///   otherwise buffered input is delivered, and the read completes with the
///   byte count if any, or else is parked in the first free pending slot
///   (completing with `ERR` when every slot is taken).
/// - Any other opcode completes with `ERR`.
#[verifier::opaque]
pub open spec fn sqe_step(k0: Kernel, k1: Kernel, sqe: Sqe, from_user: bool) -> bool {
    let ud = sqe.user_data;
    let a0 = sqe.arg0;
    let a1 = sqe.arg1;
    &&& core_same(k0, k1)
    &&& if sqe.opcode == OP_NOP {
        io_same(k0, k1) && ring_posted(k0, k1, ud, 0)
    } else if sqe.opcode == OP_PRINT {
        &&& k1.input == k0.input
        &&& if from_user && !user_range_ok(k0.user.loaded, a0, a1, false) {
            k1.effects == k0.effects && ring_posted(k0, k1, ud, ERR)
        } else {
            k1.effects@ == k0.effects@.push(Effect::Print { ptr: a0, len: a1 }) && ring_posted(k0, k1, ud, 0)
        }
    } else if sqe.opcode == OP_READ {
        if from_user && !user_range_ok(k0.user.loaded, a0, a1, true) {
            io_same(k0, k1) && ring_posted(k0, k1, ud, ERR)
        } else if a1 == 0 {
            io_same(k0, k1) && ring_posted(k0, k1, ud, 0)
        } else {
            let count = delivered_count(k0, a0, a1);
            let j = first_free(k0.ring.pending@, 0);
            &&& input_delivered(k0, k1, a0, a1, count as u64)
            &&& if count > 0 {
                ring_posted(k0, k1, ud, count as i64)
            } else if j < MAX_PENDING {
                &&& k1.ring.mapped == k0.ring.mapped
                &&& k1.ring.waiter == k0.ring.waiter
                &&& k1.ring.poller == k0.ring.poller
                &&& k1.ring.page == k0.ring.page
                &&& k1.ring.pending@ == k0.ring.pending@.update(j, Some(Pending { buf: a0, len: a1, user_data: ud }))
            } else {
                ring_posted(k0, k1, ud, ERR)
            }
        }
    } else {
        io_same(k0, k1) && ring_posted(k0, k1, ud, ERR)
    }
}

/// Submissions that can be executed: a kernel-trusted `READ` (not validated
/// against user memory) must still describe an address range that exists.
pub open spec fn sqe_ok(sqe: Sqe, from_user: bool) -> bool {
    sqe.opcode == OP_READ && !from_user ==> sqe.arg0 + sqe.arg1 <= u64::MAX
}

/// Post a completion on the kernel's ring page.
fn post(k: &mut Kernel, user_data: u64, result: i64)
    requires
        old(k).wf(),
    ensures
        final(k).wf(),
        core_same(*old(k), *final(k)),
        io_same(*old(k), *final(k)),
        ring_posted(*old(k), *final(k), user_data, result),
{
    complete(&mut k.ring.page, user_data, result);
}

/// Execute one submission, posting its completion now or, for a parked
/// `READ`, later from the receive interrupt.
pub fn process_sqe(k: &mut Kernel, sqe: Sqe, from_user: bool)
    requires
        old(k).wf(),
        sqe_ok(sqe, from_user),
    ensures
        final(k).wf(),
        sqe_step(*old(k), *final(k), sqe, from_user),
        final(k).ring.page.sq_head == old(k).ring.page.sq_head,
        final(k).ring.page.sq_tail == old(k).ring.page.sq_tail,
        final(k).ring.page.sq@ == old(k).ring.page.sq@,
        core_same(*old(k), *final(k)),
        final(k).ring.waiter == old(k).ring.waiter,
        final(k).ring.poller == old(k).ring.poller,
        final(k).ring.mapped == old(k).ring.mapped,
{
    proof { reveal(sqe_step); }
    let opcode = sqe.opcode;
    let arg0 = sqe.arg0;
    let arg1 = sqe.arg1;
    let user_data = sqe.user_data;
    if opcode == OP_NOP {
        post(k, user_data, 0);
    } else if opcode == OP_PRINT {
        if from_user && !is_user_range(&k.user, arg0, arg1) {
            post(k, user_data, ERR);
            return;
        }
        k.effects.push(Effect::Print { ptr: arg0, len: arg1 });
        post(k, user_data, 0);
    } else if opcode == OP_READ {
        if from_user && !is_user_range_writable(&k.user, arg0, arg1) {
            post(k, user_data, ERR);
            return;
        }
        if arg1 == 0 {
            post(k, user_data, 0);
            return;
        }
        let ghost k0 = *k;
        let count = drain_input(k, arg0, arg1);
        if count > 0 {
            post(k, user_data, count as i64);
            return;
        }
        let mut i: usize = 0;
        while i < MAX_PENDING && k.ring.pending[i].is_some()
            invariant
                k.wf(),
                i <= MAX_PENDING,
                first_free(k.ring.pending@, 0) == first_free(k.ring.pending@, i as int),
            decreases MAX_PENDING - i,
        {
            i = i + 1;
        }
        if i < MAX_PENDING {
            k.ring.pending.set(i, Some(Pending { buf: arg0, len: arg1, user_data }));
            return;
        }
        post(k, user_data, ERR);
    } else {
        post(k, user_data, ERR);
    }
}

/// `k` with the SQ consumer index set to `h`.
pub open spec fn with_sq_head(k: Kernel, h: u32) -> Kernel {
    Kernel { ring: RingState { page: RingPage { sq_head: h, ..k.ring.page }, ..k.ring }, ..k }
}

/// `ks` is a run of the submissions `sqes`, one step per submission.
pub open spec fn sqe_run(ks: Seq<Kernel>, sqes: Seq<Sqe>, from_user: bool) -> bool {
    &&& ks.len() == sqes.len() + 1
    &&& forall|i: int| 0 <= i < sqes.len() ==> #[trigger] sqe_step(ks[i], ks[i + 1], sqes[i], from_user)
}

/// A step does not depend on, nor change, the SQ consumer index.
proof fn lemma_step_any_head(a: Kernel, b: Kernel, sqe: Sqe, from_user: bool, h: u32)
    requires
        sqe_step(a, b, sqe, from_user),
        b.ring.page.sq_head == a.ring.page.sq_head,
    ensures
        sqe_step(with_sq_head(a, h), with_sq_head(b, h), sqe, from_user),
{
    reveal(sqe_step);
    let a2 = with_sq_head(a, h);
    let b2 = with_sq_head(b, h);
    assert(a2.input@ == a.input@);
    assert(delivered_count(a2, sqe.arg0, sqe.arg1) == delivered_count(a, sqe.arg0, sqe.arg1));
    if b.ring.page == a.ring.page {
        assert(b2.ring.page == a2.ring.page);
    }
}

/// The `n`-th published submission sits in the slot of index `sq_head + n`.
proof fn lemma_sq_slot(p: RingPage, n: int)
    requires
        p.wf(),
        0 <= n < ring_used(p.sq_head, p.sq_tail),
    ensures
        p.sq_pending()[n] == p.sq@[slot_of(((p.sq_head + n) % 0x1_0000_0000int) as u32)],
{
    let x = p.sq_head + n;
    vstd::arithmetic::div_mod::lemma_mod_mod(x, 0x1000_0000int, 16);
    assert(x % 0x1_0000_0000int % 16 == x % 16);
}

/// Extending a run by one step.
proof fn lemma_run_push(ks: Seq<Kernel>, sqes: Seq<Sqe>, n: int, next: Kernel, from_user: bool)
    requires
        0 <= n < sqes.len(),
        sqe_run(ks, sqes.subrange(0, n), from_user),
        sqe_step(ks.last(), next, sqes[n], from_user),
    ensures
        sqe_run(ks.push(next), sqes.subrange(0, n + 1), from_user),
{
    let ks2 = ks.push(next);
    let s2 = sqes.subrange(0, n + 1);
    assert forall|i: int| 0 <= i < s2.len() implies #[trigger] sqe_step(ks2[i], ks2[i + 1], s2[i], from_user) by {
        if i < n {
            assert(sqe_step(ks[i], ks[i + 1], sqes.subrange(0, n)[i], from_user));
        }
    }
}

/// Every slot of the submission queue holds an executable submission.
pub open spec fn sq_ok(page: RingPage, from_user: bool) -> bool {
    forall|i: int| 0 <= i < RING_ENTRIES ==> #[trigger] sqe_ok(page.sq@[i], from_user)
}

#[verifier::rlimit(30)]
/// Consume all published SQEs (from the consumer index to the producer index
/// read at the start), executing each in order and publishing the new
/// consumer index after each. Returns whether there was any.
pub fn drain(k: &mut Kernel, from_user: bool) -> (worked: bool)
    requires
        old(k).wf(),
        sq_ok(old(k).ring.page, from_user),
    ensures
        final(k).wf(),
        worked == (old(k).ring.page.sq_head != old(k).ring.page.sq_tail),
        final(k).ring.page.sq_head == old(k).ring.page.sq_tail,
        core_same(*old(k), *final(k)),
        final(k).ring.waiter == old(k).ring.waiter,
        final(k).ring.poller == old(k).ring.poller,
        final(k).ring.mapped == old(k).ring.mapped,
        exists|ks: Seq<Kernel>| #[trigger] sqe_run(ks, old(k).ring.page.sq_pending(), from_user)
            && ks[0] == *old(k)
            && ks.last() == with_sq_head(*final(k), old(k).ring.page.sq_head),
{
    let ghost k0 = *k;
    let ghost h0 = k.ring.page.sq_head;
    let ghost sqes = k.ring.page.sq_pending();
    let mut head = k.ring.page.sq_head;
    let tail = k.ring.page.sq_tail;
    let worked = head != tail;
    let ghost mut ks: Seq<Kernel> = seq![k0];
    let ghost mut n: nat = 0;
    while head != tail
        invariant
            k.wf(),
            k.ring.page.sq_tail == tail,
            k.ring.page.sq@ == k0.ring.page.sq@,
            k.ring.page.sq_head == head,
            sq_ok(k.ring.page, from_user),
            tail == k0.ring.page.sq_tail,
            k0.wf(),
            sqes == k0.ring.page.sq_pending(),
            h0 == k0.ring.page.sq_head,
            n <= sqes.len(),
            n + ring_used(head, tail) == sqes.len(),
            head as int == (h0 + n) % 0x1_0000_0000int,
            ks.len() == n + 1,
            ks[0] == k0,
            sqe_run(ks, sqes.subrange(0, n as int), from_user),
            ks.last() == with_sq_head(*k, h0),
            core_same(k0, *k),
            k.ring.waiter == k0.ring.waiter,
            k.ring.poller == k0.ring.poller,
            k.ring.mapped == k0.ring.mapped,
        decreases ring_used(head, tail),
    {
        let s = slot(head);
        let sqe = k.ring.page.sq[s];
        proof {
            lemma_sq_slot(k0.ring.page, n as int);
        }
        let ghost before = *k;
        process_sqe(k, sqe, from_user);
        let ghost after = *k;
        head = head.wrapping_add(1);
        k.ring.page.sq_head = head;
        proof {
            lemma_step_any_head(before, after, sqe, from_user, h0);
            assert(with_sq_head(*k, h0) == with_sq_head(after, h0));
            lemma_run_push(ks, sqes, n as int, with_sq_head(*k, h0), from_user);
            ks = ks.push(with_sq_head(*k, h0));
            n = n + 1;
        }
    }
    proof {
        assert(sqes.subrange(0, n as int) =~= sqes);
    }
    worked
}

/// What completing parked read `i` (if any) from buffered input does: the
/// input is delivered to its buffer and, when at least one byte arrived, the
/// read completes with that count and its slot is freed.
#[verifier::opaque]
pub open spec fn poll_slot(k0: Kernel, k1: Kernel, i: int) -> bool {
    match k0.ring.pending@[i] {
        None => k1 == k0,
        Some(p) => {
            let c = delivered_count(k0, p.buf, p.len);
            &&& core_same(k0, k1)
            &&& input_delivered(k0, k1, p.buf, p.len, c as u64)
            &&& if c > 0 {
                &&& k1.ring.pending@ == k0.ring.pending@.update(i, None)
                &&& k1.ring.mapped == k0.ring.mapped
                &&& k1.ring.waiter == k0.ring.waiter
                &&& k1.ring.poller == k0.ring.poller
                &&& posted(k0.ring.page, k1.ring.page, p.user_data, c as i64)
            } else {
                k1.ring == k0.ring
            }
        },
    }
}

/// The task table after [`wake`] of task `w`.
pub open spec fn woken(tasks: Seq<Task>, w: int) -> Seq<Task> {
    if tasks[w].state == State::Blocked {
        tasks.update(w, Task { state: State::Runnable, ..tasks[w] })
    } else {
        tasks
    }
}

/// `k1` is `k0` after waking the task blocked in `enter`, if there is one.
pub open spec fn waiter_woken(k0: Kernel, k1: Kernel) -> bool {
    &&& k1.machine == k0.machine
    &&& k1.user == k0.user
    &&& k1.input == k0.input
    &&& k1.effects == k0.effects
    &&& k1.ring.mapped == k0.ring.mapped
    &&& k1.ring.pending == k0.ring.pending
    &&& k1.ring.poller == k0.ring.poller
    &&& k1.ring.page == k0.ring.page
    &&& k1.ring.waiter is None
    &&& k1.sched.current == k0.sched.current
    &&& match k0.ring.waiter {
        Some(w) => k1.sched.tasks@ == woken(k0.sched.tasks@, w as int),
        None => k1.sched.tasks@ == k0.sched.tasks@,
    }
}

/// Complete parked reads from the input buffer, in slot order (called from
/// the receive interrupt after the device was drained into the buffer). If
/// any completed, the task blocked in `enter` is woken.
pub fn poll_pending(k: &mut Kernel)
    requires
        old(k).wf(),
    ensures
        final(k).wf(),
        !old(k).ring.mapped ==> *final(k) == *old(k),
        old(k).ring.mapped ==> exists|ks: Seq<Kernel>| {
            &&& ks.len() == MAX_PENDING + 1
            &&& ks[0] == *old(k)
            &&& forall|i: int| 0 <= i < MAX_PENDING ==> #[trigger] poll_slot(ks[i], ks[i + 1], i)
            &&& if ks[MAX_PENDING as int].ring.pending@ != old(k).ring.pending@ {
                waiter_woken(ks[MAX_PENDING as int], *final(k))
            } else {
                *final(k) == ks[MAX_PENDING as int]
            }
        },
{
    if !k.ring.mapped {
        return;
    }
    let ghost k0 = *k;
    let ghost mut ks: Seq<Kernel> = seq![k0];
    let mut completed = false;
    let mut i: usize = 0;
    while i < MAX_PENDING
        invariant
            k.wf(),
            i <= MAX_PENDING,
            ks.len() == i + 1,
            ks[0] == k0,
            ks.last() == *k,
            forall|j: int| 0 <= j < i ==> #[trigger] poll_slot(ks[j], ks[j + 1], j),
            forall|j: int| i <= j < MAX_PENDING ==> #[trigger] k.ring.pending@[j] == k0.ring.pending@[j],
            forall|j: int| 0 <= j < i ==> #[trigger] k.ring.pending@[j] == k0.ring.pending@[j]
                || (k0.ring.pending@[j] is Some && k.ring.pending@[j] is None),
            completed == exists|j: int| 0 <= j < i && k0.ring.pending@[j] is Some && #[trigger] k.ring.pending@[j] is None,
            k.ring.pending@.len() == k0.ring.pending@.len(),
        decreases MAX_PENDING - i,
    {
        let ghost before = *k;
        if let Some(p) = k.ring.pending[i] {
            let count = drain_input(k, p.buf, p.len);
            if count > 0 {
                complete(&mut k.ring.page, p.user_data, count as i64);
                k.ring.pending.set(i, None);
                completed = true;
            }
        }
        proof {
            reveal(poll_slot);
            assert(poll_slot(before, *k, i as int));
            ks = ks.push(*k);
            assert forall|j: int| 0 <= j < i + 1 implies #[trigger] poll_slot(ks[j], ks[j + 1], j) by {
                if j < i { assert(poll_slot(ks[j], ks[j + 1], j)); }
            }
            if completed {
                if k.ring.pending@[i as int] is None && k0.ring.pending@[i as int] is Some {
                    assert(k.ring.pending@[i as int] is None);
                }
            }
        }
        i = i + 1;
    }
    proof {
        if completed {
            let j = choose|j: int| 0 <= j < MAX_PENDING && k0.ring.pending@[j] is Some && #[trigger] k.ring.pending@[j] is None;
            assert(k.ring.pending@[j] != k0.ring.pending@[j]);
        } else {
            assert(k.ring.pending@ =~= k0.ring.pending@);
        }
    }
    if completed {
        let ghost kn = *k;
        if let Some(w) = k.ring.waiter {
            wake(&mut k.sched, w);
        }
        k.ring.waiter = None;
        proof {
            assert(waiter_woken(kn, *k));
        }
    }
}

/// Drop all state referencing the (dying) user program: parked reads point at
/// buffers about to be unmapped, and the waiter task is exiting. Their
/// completions are never posted.
pub fn abort_user(k: &mut Kernel)
    requires
        old(k).wf(),
    ensures
        final(k).wf(),
        forall|i: int| 0 <= i < MAX_PENDING ==> #[trigger] final(k).ring.pending@[i] is None,
        final(k).ring.waiter is None,
        final(k).ring.mapped == old(k).ring.mapped,
        final(k).ring.poller == old(k).ring.poller,
        final(k).ring.page == old(k).ring.page,
        core_same(*old(k), *final(k)),
        io_same(*old(k), *final(k)),
{
    k.ring.pending = vec![None; MAX_PENDING];
    k.ring.waiter = None;
}

/// `k1` is `k0` after `SYS_RING_SETUP`: the first call maps a zeroed frame
/// (the first free one) as the ring page at `USER_RING_VA` in the live
/// address space; later calls change nothing.
pub open spec fn ring_set_up(k0: Kernel, k1: Kernel) -> bool {
    &&& k1.wf()
    &&& k1.machine.wf()
    &&& k0.ring.mapped ==> k1 == k0
    &&& !k0.ring.mapped ==> {
        let f = k0.machine.free()[0];
        &&& k1.ring.mapped
        &&& k1.ring.page.wf()
        &&& k1.ring.page.sq_head == 0 && k1.ring.page.sq_tail == 0
        &&& k1.ring.page.cq_head == 0 && k1.ring.page.cq_tail == 0
        &&& k1.ring.page.flags == 0
        &&& k1.ring.pending == k0.ring.pending
        &&& k1.ring.waiter == k0.ring.waiter
        &&& k1.ring.poller == k0.ring.poller
        &&& k1.machine.same_regs(&k0.machine)
        &&& k1.machine.tables_grow(&k0.machine)
        &&& leaf_entry(k1.machine.mem, k1.machine.ttbr0 & ADDR_MASK, USER_RING_VA)
            == Some((f & ADDR_MASK) | PAGE_USER_RW)
        &&& forall|a: int| f <= a < f + 4096 && a % 8 == 0 ==> #[trigger] k1.machine.mem.word(a) == 0
        &&& k1.user == k0.user
        &&& k1.input == k0.input
        &&& k1.sched == k0.sched
        &&& k1.effects == k0.effects
    }
}

/// `SYS_RING_SETUP`: map a zeroed frame as the shared ring page at
/// `USER_RING_VA` in the live address space, once (later calls change
/// nothing). Returns the page's virtual address.
pub fn setup(k: &mut Kernel) -> (va: u64)
    requires
        old(k).wf(),
        old(k).machine.wf(),
        old(k).machine.is_root(old(k).machine.ttbr0 & ADDR_MASK),
        !old(k).ring.mapped ==> {
            &&& path_has_no_block(old(k).machine.mem, old(k).machine.ttbr0 & ADDR_MASK, USER_RING_VA)
            &&& tables_needed(old(k).machine.mem, old(k).machine.ttbr0 & ADDR_MASK, USER_RING_VA) + 1
                <= old(k).machine.free().len()
        },
    ensures
        va == USER_RING_VA,
        ring_set_up(*old(k), *final(k)),
{
    if !k.ring.mapped {
        let frame = k.machine.alloc_frame().unwrap();
        let ghost m1 = k.machine;
        k.machine.map_page(USER_RING_VA, frame.addr(), PAGE_USER_RW);
        proof {
            let d = tables_needed(m1.mem, m1.ttbr0 & ADDR_MASK, USER_RING_VA) as int;
            assert(!k.machine.tables@.dom().contains(frame@)) by {
                if k.machine.tables@.dom().contains(frame@) {
                    assert(m1.free().subrange(0, d).contains(frame@));
                    let j = choose|j: int| 0 <= j < d && m1.free().subrange(0, d)[j] == frame@;
                    assert(m1.free()[j] == frame@);
                }
            }
            assert(!k.machine.free().contains(frame@)) by {
                if k.machine.free().contains(frame@) {
                    let j = choose|j: int| 0 <= j < k.machine.free().len() && k.machine.free()[j] == frame@;
                    assert(m1.free()[j + d] == frame@);
                }
            }
            assert(k.machine.tables@.dom().contains(k.machine.ttbr0 & ADDR_MASK));
        }
        let ghost m2 = k.machine;
        k.machine.zero_frame(frame.addr());
        proof {
            crate::kernel::mmu::lemma_leaf_unchanged(m2, k.machine.mem, k.machine.ttbr0 & ADDR_MASK, USER_RING_VA);
        }
        k.ring.page = RingPage::zeroed();
        k.ring.mapped = true;
    }
    USER_RING_VA
}

/// The outcome of `SYS_RING_ENTER` so far: either it returns to the caller
/// with a value, or the calling task blocked (and the scheduler picked the
/// task switch to perform, if any); once woken it continues with
/// [`enter_wait`].
#[derive(Clone, Copy, Debug)]
pub enum EnterStep {
    Done(u64),
    Block(BlockStep),
}

/// Unreaped completions, as the (user-writable) indices say.
pub open spec fn unreaped(p: RingPage) -> nat {
    ring_used(p.cq_head, p.cq_tail)
}

/// One check of `enter`'s wait: return 0 once the CQ holds at least
/// `min_complete` unreaped entries, else record the current task as the
/// ring's waiter and block it.
pub open spec fn wait_step(k0: Kernel, k1: Kernel, min_complete: u64, r: EnterStep) -> bool {
    if unreaped(k0.ring.page) >= min_complete {
        r == EnterStep::Done(0) && k1 == k0
    } else {
        let cur = k0.sched.current as int;
        let tasks = with_state(k0.sched.tasks@, cur, State::Blocked, u64::MAX);
        let next = rr_next(tasks, cur);
        &&& k1.machine == k0.machine
        &&& k1.user == k0.user
        &&& k1.input == k0.input
        &&& k1.effects == k0.effects
        &&& k1.ring.mapped == k0.ring.mapped
        &&& k1.ring.pending == k0.ring.pending
        &&& k1.ring.poller == k0.ring.poller
        &&& k1.ring.page == k0.ring.page
        &&& k1.ring.waiter == Some(k0.sched.current)
        &&& k1.sched.tasks@ == tasks
        &&& r matches EnterStep::Block(b) && block_step(tasks, cur, k1.sched.current as int, b)
    }
}

/// The loop of `SYS_RING_ENTER` after submissions were processed: check the
/// completion count, blocking until it suffices. Called again each time the
/// blocked task is woken (a wake is never trusted).
pub fn enter_wait(k: &mut Kernel, min_complete: u64) -> (r: EnterStep)
    requires
        old(k).wf(),
        old(k).sched.active(),
    ensures
        final(k).wf(),
        final(k).sched.active(),
        wait_step(*old(k), *final(k), min_complete, r),
{
    let unreaped = k.ring.page.cq_tail.wrapping_sub(k.ring.page.cq_head);
    if unreaped as u64 >= min_complete {
        return EnterStep::Done(0);
    }
    k.ring.waiter = Some(k.sched.current);
    EnterStep::Block(block_current(&mut k.sched))
}

/// `k1` is `k0` after `enter` answered a raised `NEED_WAKEUP`: the flag is
/// cleared here and the poller task woken.
pub open spec fn wakeup_handled(k0: Kernel, k1: Kernel) -> bool {
    if k0.ring.page.flags & NEED_WAKEUP != 0 {
        &&& k1.machine == k0.machine
        &&& k1.user == k0.user
        &&& k1.input == k0.input
        &&& k1.effects == k0.effects
        &&& k1.ring.mapped == k0.ring.mapped
        &&& k1.ring.pending == k0.ring.pending
        &&& k1.ring.poller == k0.ring.poller
        &&& k1.ring.waiter == k0.ring.waiter
        &&& k1.ring.page == RingPage { flags: 0, ..k0.ring.page }
        &&& k1.sched.current == k0.sched.current
        &&& match k0.ring.poller {
            Some(p) => k1.sched.tasks@ == woken(k0.sched.tasks@, p as int),
            None => k1.sched.tasks@ == k0.sched.tasks@,
        }
    } else {
        k1 == k0
    }
}

/// `k1` is `k0` after draining every published submission in order.
pub open spec fn drained(k0: Kernel, k1: Kernel, from_user: bool) -> bool {
    &&& k1.ring.page.sq_head == k0.ring.page.sq_tail
    &&& exists|ks: Seq<Kernel>| #[trigger] sqe_run(ks, k0.ring.page.sq_pending(), from_user)
        && ks[0] == k0
        && ks.last() == with_sq_head(k1, k0.ring.page.sq_head)
}

/// `k1` and `r` are what `SYS_RING_ENTER` makes of `k0`: nothing happens
/// before the ring is set up (the answer is `u64::MAX`); afterwards a raised
/// `NEED_WAKEUP` is answered, every published submission executed in order,
/// and the caller returns or blocks per [`wait_step`].
pub open spec fn entered(k0: Kernel, k1: Kernel, from_user: bool, min_complete: u64, r: EnterStep) -> bool {
    &&& k1.wf()
    &&& k1.sched.active()
    &&& !k0.ring.mapped ==> r == EnterStep::Done(u64::MAX) && k1 == k0
    &&& k0.ring.mapped ==> exists|ka: Kernel, kb: Kernel|
        wakeup_handled(k0, ka) && #[trigger] drained(ka, kb, from_user)
        && wait_step(kb, k1, min_complete, r)
}

/// `SYS_RING_ENTER`: consume all published SQEs, then block until the
/// completion queue holds at least `min_complete` unreaped entries (`0` =
/// submit-only). Returns `u64::MAX` before the ring is set up.
pub fn enter(k: &mut Kernel, from_user: bool, min_complete: u64) -> (r: EnterStep)
    requires
        old(k).wf(),
        old(k).sched.active(),
        sq_ok(old(k).ring.page, from_user),
    ensures
        entered(*old(k), *final(k), from_user, min_complete, r),
{
    if !k.ring.mapped {
        return EnterStep::Done(u64::MAX);
    }
    let ghost k0 = *k;
    if k.ring.page.flags & NEED_WAKEUP != 0 {
        k.ring.page.flags = 0;
        if let Some(p) = k.ring.poller {
            wake(&mut k.sched, p);
        }
    }
    let ghost ka = *k;
    proof {
        assert(wakeup_handled(k0, ka));
        assert(sq_ok(ka.ring.page, from_user));
    }
    drain(k, from_user);
    let ghost kb = *k;
    proof {
        assert(drained(ka, kb, from_user));
    }
    enter_wait(k, min_complete)
}

/// The SQPOLL task's own state.
pub struct PollerState {
    /// Whether picking up work was reported once already.
    pub announced: bool,
    /// Tick of the last drain that found work.
    pub last_work: u64,
}

/// What the SQPOLL task does next: yield the CPU (and, the first time work
/// was found, report it), or block until an `enter` wakes it.
#[derive(Clone, Copy, Debug)]
pub enum PollStep {
    Yield { announce: bool },
    Block(BlockStep),
}

/// Register the running task as the ring's SQ poller.
pub fn sqpoll_start(k: &mut Kernel, now: u64) -> (st: PollerState)
    requires
        old(k).wf(),
        old(k).sched.active(),
    ensures
        final(k).wf(),
        final(k).ring.poller == Some(old(k).sched.current),
        final(k).ring.page == old(k).ring.page,
        final(k).ring.pending == old(k).ring.pending,
        final(k).ring.waiter == old(k).ring.waiter,
        final(k).ring.mapped == old(k).ring.mapped,
        core_same(*old(k), *final(k)),
        io_same(*old(k), *final(k)),
        !st.announced && st.last_work == now,
{
    k.ring.poller = Some(k.sched.current);
    PollerState { announced: false, last_work: now }
}

/// One round of the SQPOLL task at tick `now`: drain the submission queue;
/// after `SQ_IDLE_TICKS` without work, raise `NEED_WAKEUP`, drain once more
/// (catching anything published just before the flag went up) and, if that
/// found nothing either, block.
pub fn sqpoll_step(k: &mut Kernel, st: &mut PollerState, now: u64) -> (r: PollStep)
    requires
        old(k).wf(),
        old(k).sched.active(),
    ensures
        final(k).wf(),
        final(k).sched.active(),
        ({
            let idle = (now as int - old(st).last_work as int) % 0x1_0000_0000_0000_0000int >= SQ_IDLE_TICKS;
            if old(k).ring.page.sq_head != old(k).ring.page.sq_tail {
                &&& drained(*old(k), *final(k), true)
                &&& r == PollStep::Yield { announce: !old(st).announced }
                &&& final(st).announced
                &&& final(st).last_work == now
            } else if !idle {
                *final(k) == *old(k) && r == PollStep::Yield { announce: false } && *final(st) == *old(st)
            } else {
                exists|ka: Kernel, kb: Kernel| {
                    &&& ka == with_flags(*old(k), NEED_WAKEUP)
                    &&& #[trigger] drained(ka, kb, true)
                    &&& if ka.ring.page.sq_head != ka.ring.page.sq_tail {
                        *final(k) == with_flags(kb, 0) && r == PollStep::Yield { announce: false }
                            && final(st).last_work == now && final(st).announced == old(st).announced
                    } else {
                        let cur = kb.sched.current as int;
                        let tasks = with_state(kb.sched.tasks@, cur, State::Blocked, u64::MAX);
                        let next = rr_next(tasks, cur);
                        &&& final(k).sched.tasks@ == tasks
                        &&& final(k).ring == kb.ring
                        &&& final(k).machine == kb.machine
                        &&& final(k).user == kb.user
                        &&& final(k).input == kb.input
                        &&& final(k).effects == kb.effects
                        &&& *final(st) == *old(st)
                        &&& r matches PollStep::Block(b) && block_step(tasks, cur, final(k).sched.current as int, b)
                    }
                }
            }
        }),
{
    proof { assert(sq_ok(k.ring.page, true)); }
    if drain(k, true) {
        let announce = !st.announced;
        st.announced = true;
        st.last_work = now;
        return PollStep::Yield { announce };
    }
    if now.wrapping_sub(st.last_work) >= SQ_IDLE_TICKS {
        k.ring.page.flags = NEED_WAKEUP;
        let ghost ka = *k;
        proof { assert(sq_ok(k.ring.page, true)); }
        if drain(k, true) {
            let ghost kb = *k;
            k.ring.page.flags = 0;
            st.last_work = now;
            proof { assert(drained(ka, kb, true)); }
            return PollStep::Yield { announce: false };
        }
        let ghost kb = *k;
        proof { assert(drained(ka, kb, true)); }
        return PollStep::Block(block_current(&mut k.sched));
    }
    PollStep::Yield { announce: false }
}

/// The SQPOLL task was woken: it counts the wake as activity.
pub fn sqpoll_resume(st: &mut PollerState, now: u64)
    ensures
        final(st).last_work == now,
        final(st).announced == old(st).announced,
{
    st.last_work = now;
}

/// `k` with the ring's flags word set to `f`.
pub open spec fn with_flags(k: Kernel, f: u32) -> Kernel {
    Kernel { ring: RingState { page: RingPage { flags: f, ..k.ring.page }, ..k.ring }, ..k }
}

} // verus!
