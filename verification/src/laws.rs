//! What the library promises across its operations, proved from their
//! contracts.
use vstd::prelude::*;
use crate::kernel::frames::Frame;
use crate::kernel::mmu::{Machine, frame_taken, frame_returned, activated, leaf_entry, translation, same_page, entry,
    is_valid, ADDR_MASK, UXN, AP_EL0_RO, PAGE_USER_RX, PAGE_USER_RW, lemma_same_page_leaf};
use crate::kernel::user::{owned_ok, user_range_ok, range_verdict};
use crate::kernel::process::{ProcessTable, first_foreground, proc_range_ok};
use crate::kernel::ring::ring_set_up;
use crate::kernel::Kernel;
use crate::kernel::space::{space_freed, space_tables};
use crate::kernel::input::{InputBuf, byte_popped};
use crate::kernel::sched::{Task, State, rr_next, lemma_rr_next, woken_at};
use crate::kernel::uart::crlf;
use crate::kernel::elf::{Loaded, image_ok, is_load, seg_flags, executable, p_flags, phdr_ok, ph_count, PF_W};
use crate::early::heap::{BumpAllocator, allocated, align_up_spec};
use crate::ulib::{keystroke, LineStep, MAX_LINE};
use crate::ulib::jsh::{Command, command_of};
use crate::early::exceptions::ec_of;
use crate::early::user::early_user_range;
use crate::ulib::uring::{reap_step, WaitStep};
use crate::abi::RingPage;

verus! {

/// Freeing a frame and then allocating one hands the same frame back, and
/// leaves the pool as it was: the pool is last-in, first-out.
pub proof fn law_frame_lifo(m0: Machine, m1: Machine, m2: Machine, f: Frame, r: Option<Frame>)
    requires
        frame_returned(m0, m1, f),
        frame_taken(m1, m2, r),
    ensures
        r matches Some(g) && g@ == f@,
        m2.free() == m0.free(),
{
    assert(m1.free()[0] == f@);
    assert(m2.free() =~= m0.free());
}

/// Two allocations from a pool of at least two frames give two different
/// frames, and the pool shrinks by two.
pub proof fn law_frames_distinct(m0: Machine, m1: Machine, m2: Machine, r1: Option<Frame>, r2: Option<Frame>)
    requires
        m0.wf(),
        m0.free().len() >= 2,
        frame_taken(m0, m1, r1),
        frame_taken(m1, m2, r2),
    ensures
        r1 matches Some(f1) && r2 matches Some(f2) && f1@ != f2@,
        m2.free().len() == m0.free().len() - 2,
{
    m0.frames.lemma_wf_facts(&m0.mem);
    assert(m1.free()[0] == m0.free()[1]);
}

/// After mapping the page of `va` to frame `pa` with valid flags, every
/// address in that page translates into the frame at the same offset.
pub proof fn law_map_then_translate(m: Machine, l0: u64, va: u64, pa: u64, flags: u64, va2: u64)
    requires
        leaf_entry(m.mem, l0, va) == Some((pa & ADDR_MASK) | flags),
        flags & ADDR_MASK == 0,
        is_valid(flags),
        same_page(va, va2),
    ensures
        translation(m.mem, l0, va2) == Some((pa & ADDR_MASK) | (va2 & 0xFFF)),
{
    lemma_same_page_leaf(m.mem, l0, va, va2);
    let e = (pa & ADDR_MASK) | flags;
    assert(e & 0x0000_FFFF_FFFF_F000u64 == pa & 0x0000_FFFF_FFFF_F000u64 && e & 1 != 0) by (bit_vector)
        requires
            e == (pa & 0x0000_FFFF_FFFF_F000u64) | flags,
            flags & 0x0000_FFFF_FFFF_F000u64 == 0,
            flags & 1 != 0,
    ;
}

/// Creating an address space and freeing it again leaves the frame pool as it
/// was: a fresh space owns its root table and nothing else.
pub proof fn law_new_then_free_space(m0: Machine, m1: Machine, m2: Machine, t: u64)
    requires
        m0.free().len() > 0,
        t == m0.free()[0],
        m1.free() == m0.free().drop_first(),
        forall|i: int| 1 <= i < 512 ==> #[trigger] entry(m1.mem, t, i) == 0,
        space_freed(m1, m2, t),
        m2.wf(),
    ensures
        m2.free() == m0.free(),
{
    assert(space_tables(m1.mem, t) =~= set![t]) by {
        assert(entry(m1.mem, t, 1) == 0);
        assert(0u64 & 3 != 3) by (bit_vector);
    }
    let freed = choose|freed: Seq<u64>| {
        &&& m2.free() == freed + m1.free()
        &&& forall|x: u64| #[trigger] freed.contains(x) <==> space_tables(m1.mem, t).contains(x)
    };
    m2.frames.lemma_wf_facts(&m2.mem);
    assert(freed.contains(t));
    let k = choose|k: int| 0 <= k < freed.len() && freed[k] == t;
    if freed.len() > 1 {
        let j = if k == 0 { 1int } else { 0int };
        assert(freed.contains(freed[j]));
        assert(m2.free()[j] == m2.free()[k]);
    }
    assert(freed =~= seq![t]);
    assert(m2.free() =~= m0.free());
}

/// Activating an address space that is already live does nothing: the second
/// of two activations of the same root never switches.
pub proof fn law_activate_idempotent(m0: Machine, m1: Machine, m2: Machine, t: u64, s1: bool, s2: bool)
    requires
        activated(m0, m1, t, s1),
        activated(m1, m2, t, s2),
    ensures
        !s2,
        m2.ttbr0 == m1.ttbr0,
        m2.installed == m1.installed,
{
}

proof fn lemma_align_up(x: int, al: int)
    requires
        x >= 0,
        al > 0,
    ensures
        x <= align_up_spec(x, al) < x + al,
        align_up_spec(x, al) % al == 0,
{
    assert(x <= (x + al - 1) / al * al < x + al) by (nonlinear_arith)
        requires
            x >= 0,
            al > 0,
    ;
    assert(((x + al - 1) / al * al) % al == 0) by (nonlinear_arith)
        requires
            al > 0,
            x >= 0,
    ;
}

/// Successive heap allocations are aligned, lie inside the heap region, and
/// never overlap: the second block starts at or after the end of the first.
pub proof fn law_heap_blocks_disjoint(a0: BumpAllocator, a1: BumpAllocator, a2: BumpAllocator,
    s1: u64, al1: u64, r1: Option<u64>, s2: u64, al2: u64, r2: Option<u64>)
    requires
        a0.wf(),
        al1 > 0,
        al2 > 0,
        allocated(a0, a1, s1, al1, r1),
        allocated(a1, a2, s2, al2, r2),
        r1 is Some,
        r2 is Some,
    ensures
        a0.heap_start <= r1->0,
        r1->0 % al1 == 0,
        r2->0 % al2 == 0,
        r1->0 + s1 <= r2->0,
        r2->0 + s2 <= a0.heap_end,
{
    lemma_align_up(a0.next as int, al1 as int);
    lemma_align_up(a1.next as int, al2 as int);
}

/// Programs created one after the other own disjoint frames: the first
/// program's frames are in use when the second is loaded from free frames.
pub proof fn law_isolation(m: Machine, first: Seq<(u64, Frame)>, second: Seq<(u64, Frame)>)
    requires
        owned_ok(&m, first),
        forall|j: int| 0 <= j < second.len() ==> m.free().contains(#[trigger] second[j].1@),
    ensures
        forall|i: int, j: int| 0 <= i < first.len() && 0 <= j < second.len()
            ==> #[trigger] first[i].1@ != #[trigger] second[j].1@,
{
    assert forall|i: int, j: int| 0 <= i < first.len() && 0 <= j < second.len()
        implies #[trigger] first[i].1@ != #[trigger] second[j].1@ by {
        assert(!m.free().contains(first[i].1@));
        assert(m.free().contains(second[j].1@));
    }
}

/// Console input comes out in the order it went in: after pushing `b`, a pop
/// returns the oldest buffered byte (`b` itself if the buffer was empty).
pub proof fn law_input_fifo(i0: InputBuf, i1: InputBuf, i2: InputBuf, b: u8, r: Option<u8>)
    requires
        i1@ == i0@.push(b),
        byte_popped(i1, i2, r),
    ensures
        r == Some(if i0@.len() > 0 { i0@[0] } else { b }),
        i2@ == i0@.push(b).drop_first(),
{
}

/// The round-robin scheduler only ever switches to a runnable task: blocked
/// and exited tasks are never picked.
pub proof fn law_switch_to_runnable(tasks: Seq<Task>, cur: int)
    requires
        0 <= cur < tasks.len(),
    ensures
        rr_next(tasks, cur) != cur ==> 0 <= rr_next(tasks, cur) < tasks.len()
            && tasks[rr_next(tasks, cur)].state == State::Runnable,
{
    lemma_rr_next(tasks, cur);
}

/// The console never receives a bare line feed: every `\n` written is
/// preceded by `\r`.
pub proof fn law_crlf(s: Seq<u8>)
    ensures
        forall|i: int| 0 <= i < crlf(s).len() && #[trigger] crlf(s)[i] == 0x0a
            ==> i > 0 && crlf(s)[i - 1] == 0x0d,
    decreases s.len(),
{
    if s.len() > 0 {
        law_crlf(s.drop_last());
        let pre = crlf(s.drop_last());
        let tail: Seq<u8> = if s.last() == 0x0a { seq![0x0du8, 0x0au8] } else { seq![s.last()] };
        assert(crlf(s) == pre + tail);
        assert forall|i: int| 0 <= i < crlf(s).len() && #[trigger] crlf(s)[i] == 0x0a
            implies i > 0 && crlf(s)[i - 1] == 0x0d by {
            if i < pre.len() {
                assert(crlf(s)[i] == pre[i]);
                assert(crlf(s)[i - 1] == pre[i - 1]);
            } else if s.last() == 0x0a {
                assert(i == pre.len() + 1);
                assert(crlf(s)[i - 1] == tail[0]);
            } else {
                assert(crlf(s)[i] == s.last());
            }
        }
    }
}

/// W^X: every loaded segment is mapped either read-only or never executable
/// at EL0, never both writable and executable.
pub proof fn law_w_xor_x(img: Seq<u8>, i: int)
    requires
        image_ok(img),
        0 <= i < ph_count(img),
        is_load(img, i),
    ensures
        seg_flags(img, i) & UXN != 0 || seg_flags(img, i) & AP_EL0_RO == AP_EL0_RO,
        executable(img, i) ==> seg_flags(img, i) == PAGE_USER_RX && p_flags(img, i) & PF_W == 0,
        !executable(img, i) ==> seg_flags(img, i) == PAGE_USER_RW && seg_flags(img, i) & UXN != 0,
{
    assert(phdr_ok(img, i));
    assert(0x60_0000_0000_0743u64 & 0x40_0000_0000_0000u64 != 0) by (bit_vector);
    assert(0x20_0000_0000_07C3u64 & 0xC0u64 == 0xC0u64) by (bit_vector);
}

/// Typing a printable byte and then backspace gives back the line as it was.
pub proof fn law_backspace_undoes_echo(t0: Seq<u8>, t1: Seq<u8>, t2: Seq<u8>, b: u8, r2: LineStep)
    requires
        keystroke(t0, t1, b, LineStep::Echo(b)),
        keystroke(t1, t2, 0x7f, r2),
    ensures
        t2 == t0,
        r2 == LineStep::Erase,
{
    assert(t0.push(b).drop_last() =~= t0);
}

/// Setting up the ring is idempotent: a second setup changes nothing.
pub proof fn law_ring_setup_idempotent(k0: Kernel, k1: Kernel, k2: Kernel)
    requires
        ring_set_up(k0, k1),
        ring_set_up(k1, k2),
    ensures
        k2 == k1,
{
}

/// With no program loaded (after teardown), pointer validation fails closed:
/// no range passes, for reading or writing.
pub proof fn law_validation_fails_closed(ptr: u64, len: u64, need_write: bool)
    ensures
        !user_range_ok(None::<Loaded>, ptr, len, need_write),
{
}

/// Waiting by sleeping and waiting by spinning take the same step: the same
/// result and the same effect on the stash and the ring, except that an
/// empty queue asks one to trap (`Enter`) and the other to spin (`Spin`).
pub proof fn law_wait_and_spin_agree(s0: Seq<(u64, i64)>, s1: Seq<(u64, i64)>, s2: Seq<(u64, i64)>,
    p0: RingPage, p1: RingPage, p2: RingPage, tag: u64, r1: WaitStep, r2: WaitStep)
    requires
        reap_step(s0, s1, p0, p1, tag, true, r1),
        reap_step(s0, s2, p0, p2, tag, false, r2),
    ensures
        s1 == s2,
        p1 == p2,
        r1 == r2 || (r1 == WaitStep::Enter && r2 == WaitStep::Spin),
{
}

/// After bytes `q` are buffered, successive pops return them in order, then
/// nothing.
pub proof fn law_pops_return_buffered_in_order(bufs: Seq<InputBuf>, rs: Seq<Option<u8>>, q: Seq<u8>)
    requires
        bufs.len() == rs.len() + 1,
        bufs[0]@ == q,
        forall|j: int| 0 <= j < rs.len() ==> byte_popped(#[trigger] bufs[j], bufs[j + 1], rs[j]),
    ensures
        forall|j: int| 0 <= j < rs.len() ==> #[trigger] rs[j] == if j < q.len() { Some(q[j]) } else { None::<u8> },
{
    assert forall|j: int| 0 <= j <= rs.len() implies #[trigger] bufs[j]@ == if j <= q.len() { q.skip(j) } else { Seq::<u8>::empty() } by {
        lemma_pops_prefix(bufs, rs, q, j);
    }
    assert forall|j: int| 0 <= j < rs.len() implies #[trigger] rs[j] == if j < q.len() { Some(q[j]) } else { None::<u8> } by {
        assert(bufs[j]@ == if j <= q.len() { q.skip(j) } else { Seq::<u8>::empty() });
        assert(byte_popped(bufs[j], bufs[j + 1], rs[j]));
    }
}

proof fn lemma_pops_prefix(bufs: Seq<InputBuf>, rs: Seq<Option<u8>>, q: Seq<u8>, j: int)
    requires
        bufs.len() == rs.len() + 1,
        bufs[0]@ == q,
        forall|k: int| 0 <= k < rs.len() ==> byte_popped(#[trigger] bufs[k], bufs[k + 1], rs[k]),
        0 <= j <= rs.len(),
    ensures
        bufs[j]@ == if j <= q.len() { q.skip(j) } else { Seq::<u8>::empty() },
    decreases j,
{
    if j == 0 {
        assert(q.skip(0) =~= q);
    } else {
        lemma_pops_prefix(bufs, rs, q, j - 1);
        assert(byte_popped(bufs[j - 1], bufs[j], rs[j - 1]));
        if j <= q.len() {
            assert(q.skip(j - 1).drop_first() =~= q.skip(j));
        } else if j - 1 == q.len() {
            assert(q.skip(j - 1) =~= Seq::<u8>::empty());
        }
    }
}

proof fn lemma_write_verdict_reads(rs: Seq<crate::kernel::elf::Range>, ptr: int, end: int)
    ensures
        range_verdict(rs, ptr, end, true) ==> range_verdict(rs, ptr, end, false),
    decreases rs.len(),
{
    if rs.len() > 0 {
        lemma_write_verdict_reads(rs.drop_first(), ptr, end);
    }
}

/// A range valid for writing is valid for reading: for the loaded program
/// and for each process.
pub proof fn law_writable_is_readable(loaded: Option<Loaded>, l: Loaded, ptr: u64, len: u64)
    ensures
        user_range_ok(loaded, ptr, len, true) ==> user_range_ok(loaded, ptr, len, false),
        proc_range_ok(l, ptr, len, true) ==> proc_range_ok(l, ptr, len, false),
{
    if let Some(ld) = loaded {
        lemma_write_verdict_reads(ld.used(), ptr as int, ptr + len);
    }
    lemma_write_verdict_reads(l.used(), ptr as int, ptr + len);
}

proof fn lemma_first_foreground(t: ProcessTable, i: int)
    requires
        0 <= i,
    ensures
        first_foreground(t.procs@, i) matches Some(j) ==> i <= j < t.procs@.len() && t.procs@[j as int].foreground
            && forall|k: int| i <= k < j ==> !(#[trigger] t.procs@[k]).foreground,
        first_foreground(t.procs@, i) is None ==> forall|k: int| i <= k < t.procs@.len() ==> !(#[trigger] t.procs@[k]).foreground,
    decreases t.procs@.len() - i,
{
    assert(t.procs@.len() == t.procs.len());
    if i < t.procs@.len() && !t.procs@[i].foreground {
        lemma_first_foreground(t, i + 1);
    }
}

/// The foreground process is the first one marked so: after `t1` marks `pid`
/// (and no earlier process is marked) it is `pid`; after `t1` unmarks `pid`
/// (by `set_foreground(pid, false)` or `mark_exited(pid)`) it is not `pid`.
pub proof fn law_foreground(t0: ProcessTable, t1: ProcessTable, pid: int)
    requires
        0 <= pid < t0.procs@.len(),
        t1.others_same(&t0, pid),
    ensures
        t1.procs@[pid].foreground && (forall|q: int| 0 <= q < pid ==> !(#[trigger] t0.procs@[q]).foreground)
            ==> first_foreground(t1.procs@, 0) == Some(pid as usize),
        !t1.procs@[pid].foreground ==> first_foreground(t1.procs@, 0) != Some(pid as usize),
{
    lemma_first_foreground(t1, 0);
    if t1.procs@[pid].foreground && (forall|q: int| 0 <= q < pid ==> !(#[trigger] t0.procs@[q]).foreground) {
        if let Some(j) = first_foreground(t1.procs@, 0) {
            if (j as int) < pid {
                assert(t1.procs@[j as int] == t0.procs@[j as int]);
            } else if (j as int) > pid {
                assert(!t1.procs@[pid].foreground);
            }
        } else {
            assert(!t1.procs@[pid].foreground);
        }
    }
}

/// A waiter recorded for a process survives every table change that keeps
/// its waiter (all but `take_waiter` and `clear_ring` on that process), is
/// handed out by the next `take_waiter`, and then is gone.
pub proof fn law_waiter_survives(tables: Seq<ProcessTable>, pid: int, task: usize)
    requires
        tables.len() >= 1,
        0 <= pid < tables[0].procs@.len(),
        tables[0].procs@[pid].ring_waiter == Some(task),
        forall|j: int| 0 <= j < tables.len() - 1 ==> pid < (#[trigger] tables[j + 1]).procs@.len()
            && tables[j + 1].procs@[pid].ring_waiter == tables[j].procs@[pid].ring_waiter,
    ensures
        forall|j: int| 0 <= j < tables.len() ==> pid < (#[trigger] tables[j]).procs@.len()
            && tables[j].procs@[pid].ring_waiter == Some(task),
{
    assert forall|j: int| 0 <= j < tables.len() implies pid < (#[trigger] tables[j]).procs@.len()
        && tables[j].procs@[pid].ring_waiter == Some(task) by {
        lemma_waiter_chain(tables, pid, task, j);
    }
}

proof fn lemma_waiter_chain(tables: Seq<ProcessTable>, pid: int, task: usize, j: int)
    requires
        tables.len() >= 1,
        0 <= pid < tables[0].procs@.len(),
        tables[0].procs@[pid].ring_waiter == Some(task),
        forall|k: int| 0 <= k < tables.len() - 1 ==> pid < (#[trigger] tables[k + 1]).procs@.len()
            && tables[k + 1].procs@[pid].ring_waiter == tables[k].procs@[pid].ring_waiter,
        0 <= j < tables.len(),
    ensures
        pid < tables[j].procs@.len() && tables[j].procs@[pid].ring_waiter == Some(task),
    decreases j,
{
    if j > 0 {
        lemma_waiter_chain(tables, pid, task, j - 1);
        assert(pid < tables[(j - 1) + 1].procs@.len());
    }
}

/// A sleeping task is not woken before its time: the tick's waker makes a
/// blocked task runnable only once `now` has reached its wake time (never,
/// for a task blocked until woken, before the last tick).
pub proof fn law_sleep_not_before_time(t: Task, now: u64)
    requires
        t.state == State::Blocked,
    ensures
        woken_at(t, now).state == State::Runnable <==> now >= t.wake_at,
        now < t.wake_at ==> woken_at(t, now) == t,
{
}

/// One step of a heap's life that keeps every block handed out so far
/// live: an allocation (`free` false; `r` is what it answered), or a free
/// that leaves some allocation outstanding (`free` true), which keeps the
/// bump pointer.
pub open spec fn heap_step(a0: BumpAllocator, a1: BumpAllocator, size: u64, align: u64, r: Option<u64>,
    free: bool) -> bool {
    if free {
        a0.allocations > 1 && a1 == (BumpAllocator { allocations: (a0.allocations - 1) as u64, ..a0 })
    } else {
        align > 0 && allocated(a0, a1, size, align, r)
    }
}

proof fn lemma_heap_next_grows(allocs: Seq<BumpAllocator>, sizes: Seq<u64>, aligns: Seq<u64>,
    rs: Seq<Option<u64>>, frees: Seq<bool>, i: int, j: int)
    requires
        allocs.len() == sizes.len() + 1,
        sizes.len() == aligns.len() && aligns.len() == rs.len() && rs.len() == frees.len(),
        forall|k: int| 0 <= k < sizes.len()
            ==> heap_step(#[trigger] allocs[k], allocs[k + 1], sizes[k], aligns[k], rs[k], frees[k]),
        0 <= i <= j < allocs.len(),
    ensures
        allocs[i].next <= allocs[j].next,
    decreases j - i,
{
    if i < j {
        lemma_heap_next_grows(allocs, sizes, aligns, rs, frees, i, j - 1);
        let k = j - 1;
        assert(heap_step(allocs[k], allocs[k + 1], sizes[k], aligns[k], rs[k], frees[k]));
        if !frees[k] {
            lemma_align_up(allocs[k].next as int, aligns[k] as int);
        }
    }
}

/// Over any run of allocations, and of frees that leave something
/// allocated, the blocks handed out never overlap: each starts at or after
/// the end of every earlier one.
pub proof fn law_heap_run_disjoint(allocs: Seq<BumpAllocator>, sizes: Seq<u64>, aligns: Seq<u64>,
    rs: Seq<Option<u64>>, frees: Seq<bool>)
    requires
        allocs.len() == sizes.len() + 1,
        sizes.len() == aligns.len() && aligns.len() == rs.len() && rs.len() == frees.len(),
        forall|k: int| 0 <= k < sizes.len()
            ==> heap_step(#[trigger] allocs[k], allocs[k + 1], sizes[k], aligns[k], rs[k], frees[k]),
    ensures
        forall|i: int, j: int| 0 <= i < j < rs.len() && !frees[i] && !frees[j]
            && #[trigger] rs[i] is Some && #[trigger] rs[j] is Some ==> rs[i]->0 + sizes[i] <= rs[j]->0,
{
    assert forall|i: int, j: int| 0 <= i < j < rs.len() && !frees[i] && !frees[j]
        && #[trigger] rs[i] is Some && #[trigger] rs[j] is Some implies rs[i]->0 + sizes[i] <= rs[j]->0 by {
        assert(heap_step(allocs[i], allocs[i + 1], sizes[i], aligns[i], rs[i], frees[i]));
        assert(heap_step(allocs[j], allocs[j + 1], sizes[j], aligns[j], rs[j], frees[j]));
        lemma_heap_next_grows(allocs, sizes, aligns, rs, frees, i + 1, j);
        lemma_align_up(allocs[j].next as int, aligns[j] as int);
    }
}

/// One step of a run in which nothing wakes task `c` explicitly: either a
/// timer tick at `now` (when `tick` is `Some(now)`) that wakes due sleepers,
/// or any other step that leaves task `c` as it was (a yield, a schedule, a
/// block, sleep or exit of another task, a wake of another task). The task
/// then current is the one before or a runnable one, as every scheduling
/// decision ensures.
#[verifier::opaque]
pub open spec fn sched_step_without(c: int, t0: Seq<Task>, cur0: int, t1: Seq<Task>, cur1: int,
    tick: Option<u64>) -> bool {
    &&& t1.len() == t0.len()
    &&& match tick {
        Some(now) => t1 == t0.map_values(|t: Task| woken_at(t, now)),
        None => t1[c] == t0[c],
    }
    &&& cur1 == cur0 || (0 <= cur1 < t1.len() && t1[cur1].state == State::Runnable)
}

proof fn lemma_asleep_run(tasks: Seq<Seq<Task>>, curs: Seq<int>, ticks: Seq<Option<u64>>, c: int, j: int)
    requires
        tasks.len() == curs.len(),
        tasks.len() == ticks.len() + 1,
        0 <= c < tasks[0].len(),
        tasks[0][c].state == State::Blocked,
        curs[0] != c,
        forall|k: int| 0 <= k < ticks.len() ==> sched_step_without(c, #[trigger] tasks[k], curs[k], tasks[k + 1],
            curs[k + 1], ticks[k]),
        forall|k: int| 0 <= k < ticks.len() ==> (#[trigger] ticks[k] matches Some(now) ==> now < tasks[0][c].wake_at),
        0 <= j < tasks.len(),
    ensures
        tasks[j].len() == tasks[0].len(),
        tasks[j][c] == tasks[0][c],
        curs[j] != c,
    decreases j,
{
    if j > 0 {
        lemma_asleep_run(tasks, curs, ticks, c, j - 1);
        let k = j - 1;
        assert(sched_step_without(c, tasks[k], curs[k], tasks[k + 1], curs[k + 1], ticks[k]));
        reveal(sched_step_without);
        if let Some(now) = ticks[k] {
            assert(tasks[j][c] == woken_at(tasks[k][c], now));
        }
    }
}

/// A sleeping or blocked task does not run again before its time: over a
/// run of ticks that all come before its wake time (never, for a task
/// blocked until woken, whose wake time is the maximum) and of steps that do
/// not wake it explicitly, it stays blocked with the same wake time and is
/// never the current task. So `sleep_ticks` returns only once a tick has
/// reached its wake time, and `block_current` only after a `wake`.
pub proof fn law_asleep_until_due(tasks: Seq<Seq<Task>>, curs: Seq<int>, ticks: Seq<Option<u64>>, c: int)
    requires
        tasks.len() == curs.len(),
        tasks.len() == ticks.len() + 1,
        0 <= c < tasks[0].len(),
        tasks[0][c].state == State::Blocked,
        curs[0] != c,
        forall|k: int| 0 <= k < ticks.len() ==> sched_step_without(c, #[trigger] tasks[k], curs[k], tasks[k + 1],
            curs[k + 1], ticks[k]),
        forall|k: int| 0 <= k < ticks.len() ==> (#[trigger] ticks[k] matches Some(now) ==> now < tasks[0][c].wake_at),
    ensures
        forall|j: int| 0 <= j < tasks.len() ==> #[trigger] tasks[j].len() == tasks[0].len() && tasks[j][c] == tasks[0][c],
        forall|j: int| 0 <= j < tasks.len() ==> #[trigger] curs[j] != c,
{
    assert forall|j: int| 0 <= j < tasks.len() implies #[trigger] tasks[j].len() == tasks[0].len()
        && tasks[j][c] == tasks[0][c] by {
        lemma_asleep_run(tasks, curs, ticks, c, j);
    }
    assert forall|j: int| 0 <= j < tasks.len() implies #[trigger] curs[j] != c by {
        lemma_asleep_run(tasks, curs, ticks, c, j);
    }
}

/// Every scheduling decision meets [`sched_step_without`]'s condition on
/// the task it makes current: the one before, or a runnable one.
pub proof fn law_schedule_picks_runnable_or_stays(tasks: Seq<Task>, cur: int)
    requires
        0 <= cur < tasks.len(),
    ensures
        rr_next(tasks, cur) == cur || (0 <= rr_next(tasks, cur) < tasks.len()
            && tasks[rr_next(tasks, cur)].state == State::Runnable),
{
    lemma_rr_next(tasks, cur);
}

/// One step of the process table: a change to one process (every table
/// operation but `create`), or a `create`, which appends a process or, when
/// it fails, changes nothing.
pub open spec fn table_step(t0: ProcessTable, t1: ProcessTable) -> bool {
    ||| exists|pid: int| 0 <= pid < t0.procs@.len() && #[trigger] t1.others_same(&t0, pid)
    ||| t1.procs@ == t0.procs@
    ||| t1.procs@.len() == t0.procs@.len() + 1
        && forall|j: int| 0 <= j < t0.procs@.len() ==> #[trigger] t1.procs@[j] == t0.procs@[j]
}

proof fn lemma_table_grows(tables: Seq<ProcessTable>, i: int, j: int)
    requires
        forall|k: int| 0 <= k < tables.len() - 1 ==> table_step(#[trigger] tables[k], tables[k + 1]),
        0 <= i <= j < tables.len(),
    ensures
        tables[i].procs@.len() <= tables[j].procs@.len(),
    decreases j - i,
{
    if i < j {
        lemma_table_grows(tables, i, j - 1);
        assert(table_step(tables[j - 1], tables[(j - 1) + 1]));
    }
}

/// The process table never shrinks: over any run of table operations its
/// count only grows (by one per successful `create`).
pub proof fn law_table_never_shrinks(tables: Seq<ProcessTable>)
    requires
        forall|k: int| 0 <= k < tables.len() - 1 ==> table_step(#[trigger] tables[k], tables[k + 1]),
    ensures
        forall|i: int, j: int| 0 <= i <= j < tables.len()
            ==> (#[trigger] tables[i]).procs@.len() <= (#[trigger] tables[j]).procs@.len(),
{
    assert forall|i: int, j: int| 0 <= i <= j < tables.len()
        implies (#[trigger] tables[i]).procs@.len() <= (#[trigger] tables[j]).procs@.len() by {
        lemma_table_grows(tables, i, j);
    }
}

/// The whole user stack page is user memory: while a program is loaded,
/// every range inside `[USER_STACK_VA, USER_STACK_VA + 4096)` passes
/// validation for reading and for writing (so `copy_to_user` queues its
/// stores there).
pub proof fn law_stack_page_is_user_rw(l: Loaded, ptr: u64, len: u64)
    requires
        0x80_0010_0000u64 <= ptr,
        ptr + len <= 0x80_0010_0000u64 + 4096,
    ensures
        user_range_ok(Some(l), ptr, len, true),
        user_range_ok(Some(l), ptr, len, false),
{
}

/// In the first phase, every range inside the mapped user code
/// `[USER_CODE_VA, USER_CODE_VA + code_size)` is a user range, and so is
/// every range inside the stack page.
pub proof fn law_early_code_and_stack_are_user(ptr: u64, len: u64, code_size: u64)
    ensures
        0x2_0000_0000u64 <= ptr && ptr + len <= 0x2_0000_0000u64 + code_size && ptr + len <= u64::MAX
            ==> early_user_range(ptr, len, code_size),
        0x2_0010_0000u64 <= ptr && ptr + len <= 0x2_0010_0000u64 + 4096
            ==> early_user_range(ptr, len, code_size),
{
}

/// The exception class is the whole six-bit field `ESR` bits [31:26]: a
/// syndrome built from class `c` and any 26 low bits reports `c`.
pub proof fn law_exception_class_field(c: u64, iss: u64)
    requires
        c < 64,
        iss < 0x400_0000,
    ensures
        ec_of((c << 26u64) | iss) == c,
{
    assert((((c << 26u64) | iss) >> 26u64) & 0x3F == c) by (bit_vector)
        requires
            c < 64,
            iss < 0x400_0000,
    ;
}

/// Only the exact line `crash` is the crash command, and every other
/// non-empty line that is not one of the four commands is unknown.
pub proof fn law_jsh_commands(line: Seq<u8>)
    ensures
        command_of(line) == Command::Crash <==> line == seq![0x63u8, 0x72u8, 0x61u8, 0x73u8, 0x68u8],
        command_of(line) == Command::Exit <==> line == seq![0x65u8, 0x78u8, 0x69u8, 0x74u8],
        command_of(line) == Command::Help <==> line == seq![0x68u8, 0x65u8, 0x6cu8, 0x70u8],
        command_of(line) == Command::Spam <==> line == seq![0x73u8, 0x70u8, 0x61u8, 0x6du8],
        command_of(line) == Command::Empty <==> line.len() == 0,
        line.len() > 0 && line != seq![0x63u8, 0x72u8, 0x61u8, 0x73u8, 0x68u8]
            && line != seq![0x65u8, 0x78u8, 0x69u8, 0x74u8] && line != seq![0x68u8, 0x65u8, 0x6cu8, 0x70u8]
            && line != seq![0x73u8, 0x70u8, 0x61u8, 0x6du8] ==> command_of(line) == Command::Unknown,
{
    let crash = seq![0x63u8, 0x72u8, 0x61u8, 0x73u8, 0x68u8];
    let exit = seq![0x65u8, 0x78u8, 0x69u8, 0x74u8];
    let help = seq![0x68u8, 0x65u8, 0x6cu8, 0x70u8];
    let spam = seq![0x73u8, 0x70u8, 0x61u8, 0x6du8];
    assert(exit != help && exit != spam && help != spam && crash != exit && crash != help && crash != spam) by {
        assert(exit[0] != help[0] && exit[0] != spam[0] && help[0] != spam[0]);
        assert(crash.len() != exit.len());
        assert(crash.len() != help.len());
        assert(crash.len() != spam.len());
    }
}

} // verus!
