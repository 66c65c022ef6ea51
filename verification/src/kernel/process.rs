//! Per-process state: the address space plus everything the kernel owns on a
//! user program's behalf. Processes live in a table and are named by their
//! index (pid); a process's slot is never reused.
use vstd::prelude::*;
use crate::abi::USER_RING_VA;
use crate::kernel::elf::{Loaded, LoadError, image_ok, image_pages, page_va, range_list, ph_count, le64, E_ENTRY,
    image_user_window, lemma_pages_in_user_window};
use crate::kernel::frames::Frame;
use crate::kernel::mmu::{Machine, ADDR_MASK, path_has_no_block, lemma_fresh_root, others_kept};
use crate::kernel::user::{USER_STACK_VA, USER_STACK_SIZE, range_verdict, load_program, owned_ok, program_loaded};

verus! {

/// Maximum simultaneously parked reads per process.
pub const MAX_PENDING: usize = 8;

/// A parked `READ` awaiting console input.
#[derive(Clone, Copy, PartialEq, Eq, Structural, Debug)]
pub struct Pending {
    /// User-space destination buffer (virtual address), validated at accept.
    pub buf: u64,
    /// Capacity of that buffer in bytes.
    pub len: u64,
    /// The request's completion tag, echoed in its CQE.
    pub user_data: u64,
}

/// One user program's kernel-side state.
pub struct Process {
    /// Address-space root (`TTBR0` value), installed when a task bound to this
    /// process runs.
    pub ttbr0: u64,
    /// The loaded image's mapped ranges, for syscall-pointer validation.
    pub loaded: Loaded,
    /// Every `(va, frame)` the program owns (segments, stack, ring), for teardown.
    pub frames: Vec<(u64, Frame)>,
    /// Physical address of the ring page (`0` until it is set up).
    pub ring_pa: u64,
    /// Parked `READ`s awaiting input.
    pub pending: Vec<Option<Pending>>,
    /// Task blocked waiting for completions.
    pub ring_waiter: Option<usize>,
    /// Whether this process owns the keyboard.
    pub foreground: bool,
}

impl Process {
    pub open spec fn wf(&self) -> bool {
        &&& self.loaded.wf()
        &&& self.pending.len() == MAX_PENDING
    }
}

/// The process table.
pub struct ProcessTable {
    pub procs: Vec<Process>,
}

/// Whether `[ptr, ptr + len)` lies within the stack or one of `loaded`'s
/// ranges (writable, with `need_write`).
pub open spec fn proc_range_ok(loaded: Loaded, ptr: u64, len: u64, need_write: bool) -> bool {
    let end = ptr + len;
    if end > u64::MAX {
        false
    } else if ptr >= USER_STACK_VA && end <= USER_STACK_VA + USER_STACK_SIZE {
        true
    } else {
        range_verdict(loaded.used(), ptr as int, end, need_write)
    }
}

/// The index of the first process marked foreground at or after `i`, if any.
pub open spec fn first_foreground(procs: Seq<Process>, i: int) -> Option<usize>
    decreases procs.len() - i,
{
    if i < 0 || i >= procs.len() {
        None
    } else if procs[i].foreground {
        Some(i as usize)
    } else {
        first_foreground(procs, i + 1)
    }
}

/// The index of the first free slot of `pending` at or after `i`, if any.
pub open spec fn first_empty(pending: Seq<Option<Pending>>, i: int) -> Option<usize>
    decreases pending.len() - i,
{
    if i < 0 || i >= pending.len() {
        None
    } else if pending[i] is None {
        Some(i as usize)
    } else {
        first_empty(pending, i + 1)
    }
}

impl ProcessTable {
    /// An empty table.
    pub fn new() -> (t: ProcessTable)
        ensures
            t.procs@.len() == 0,
    {
        ProcessTable { procs: Vec::new() }
    }

    pub open spec fn wf(&self) -> bool {
        forall|i: int| 0 <= i < self.procs.len() ==> #[trigger] self.procs[i].wf()
    }

    /// Every field of process `j` other than `pid`'s is as in `old`, and the
    /// table has the same length.
    pub open spec fn others_same(&self, old: &ProcessTable, pid: int) -> bool {
        &&& self.procs.len() == old.procs.len()
        &&& forall|j: int| 0 <= j < self.procs.len() && j != pid ==> #[trigger] self.procs[j] == old.procs[j]
    }
}

/// Create a user process: load `image` into the address space `ttbr0` (a
/// fresh one, so the program's pages live in its private part), map a stack,
/// and add the process to the table. Returns the new process id. When the
/// frame pool runs dry no process is added.
pub fn create(t: &mut ProcessTable, m: &mut Machine, image: &[u8], ttbr0: u64) -> (r: Result<usize, LoadError>)
    requires
        old(t).wf(),
        old(m).wf(),
        old(m).is_root(ttbr0 & ADDR_MASK),
        image_ok(image@),
        image_user_window(image@),
        forall|i: int| 1 <= i < 512 ==> #[trigger] crate::kernel::mmu::entry(old(m).mem, ttbr0 & ADDR_MASK, i) == 0,
    ensures
        final(t).wf(),
        final(m).wf(),
        final(m).same_regs(old(m)),
        final(m).tables_grow(old(m)),
        old(m).free().len() >= 4 * image_pages(image@).len() + 4 ==> r is Ok,
        old(m).kernel_l1 != 0 ==> others_kept(*old(m), *final(m), ttbr0 & ADDR_MASK),
        r is Err ==> final(t).procs@ == old(t).procs@,
        r matches Ok(pid) ==> {
            let p = final(t).procs@[pid as int];
            &&& pid == old(t).procs.len()
            &&& final(t).procs.len() == old(t).procs.len() + 1
            &&& forall|j: int| 0 <= j < old(t).procs.len() ==> #[trigger] final(t).procs@[j] == old(t).procs@[j]
            &&& p.ttbr0 == ttbr0
            &&& p.loaded.entry == le64(image@, E_ENTRY as int)
            &&& p.loaded.used() == range_list(image@, ph_count(image@))
            &&& program_loaded(final(m), ttbr0 & ADDR_MASK, image@, p.frames@)
            &&& owned_ok(final(m), p.frames@)
            &&& forall|i: int| 0 <= i < p.frames@.len() ==> old(m).free().contains(#[trigger] p.frames@[i].1@)
            &&& p.ring_pa == 0
            &&& forall|i: int| 0 <= i < MAX_PENDING ==> #[trigger] p.pending@[i] is None
            &&& p.ring_waiter is None
            &&& !p.foreground
        },
{
    proof {
        let l0 = ttbr0 & ADDR_MASK;
        lemma_pages_in_user_window(image@);
        assert forall|i: int| 0 <= i < image_pages(image@).len() implies path_has_no_block(m.mem, l0,
            #[trigger] page_va(image@, image_pages(image@)[i]) as u64) by {
            lemma_fresh_root(*m, l0, page_va(image@, image_pages(image@)[i]) as u64);
        }
        assert((0x80_0010_0000u64 >> 39u64) & 0x1FF == 1) by (bit_vector);
        lemma_fresh_root(*m, l0, USER_STACK_VA);
    }
    let mut frames: Vec<(u64, Frame)> = Vec::new();
    let loaded = match load_program(m, image, ttbr0, &mut frames) {
        Ok(ld) => ld,
        Err(e) => return Err(e),
    };
    let pid = t.procs.len();
    t.procs.push(Process {
        ttbr0,
        loaded,
        frames,
        ring_pa: 0,
        pending: vec![None; MAX_PENDING],
        ring_waiter: None,
        foreground: false,
    });
    proof {
        assert forall|i: int| 0 <= i < t.procs.len() implies #[trigger] t.procs[i].wf() by {
            if i < pid {
                assert(t.procs@[i] == old(t).procs@[i]);
            }
        }
    }
    Ok(pid)
}

/// Number of processes in the table (it never shrinks).
pub fn count(t: &ProcessTable) -> (n: usize)
    ensures
        n == t.procs.len(),
{
    t.procs.len()
}

/// The address-space root of process `pid`.
pub fn ttbr0(t: &ProcessTable, pid: usize) -> (r: u64)
    requires
        pid < t.procs.len(),
    ensures
        r == t.procs[pid as int].ttbr0,
{
    t.procs[pid].ttbr0
}

/// The entry virtual address of process `pid`.
pub fn entry(t: &ProcessTable, pid: usize) -> (r: u64)
    requires
        pid < t.procs.len(),
    ensures
        r == t.procs[pid as int].loaded.entry,
{
    t.procs[pid].loaded.entry
}

/// Physical address of process `pid`'s ring page (`0` if not set up).
pub fn ring_pa(t: &ProcessTable, pid: usize) -> (r: u64)
    requires
        pid < t.procs.len(),
    ensures
        r == t.procs[pid as int].ring_pa,
{
    t.procs[pid].ring_pa
}

/// Record `pid`'s ring frame: store its address and add it to the owned set
/// (at the ring's virtual address) so teardown reclaims it.
pub fn set_ring(t: &mut ProcessTable, pid: usize, frame: Frame)
    requires
        old(t).wf(),
        pid < old(t).procs.len(),
    ensures
        final(t).wf(),
        final(t).others_same(old(t), pid as int),
        final(t).procs[pid as int].ring_pa == frame@,
        final(t).procs[pid as int].frames@ == old(t).procs[pid as int].frames@.push((USER_RING_VA, frame)),
        final(t).procs[pid as int].ttbr0 == old(t).procs[pid as int].ttbr0,
        final(t).procs[pid as int].loaded == old(t).procs[pid as int].loaded,
        final(t).procs[pid as int].pending == old(t).procs[pid as int].pending,
        final(t).procs[pid as int].ring_waiter == old(t).procs[pid as int].ring_waiter,
        final(t).procs[pid as int].foreground == old(t).procs[pid as int].foreground,
{
    proof { assert(t.procs[pid as int].wf()); }
    let mut p = t.procs.remove(pid);
    p.ring_pa = frame.addr();
    p.frames.push((USER_RING_VA, frame));
    t.procs.insert(pid, p);
    proof {
        assert forall|j: int| 0 <= j < t.procs.len() && j != pid implies #[trigger] t.procs[j] == old(t).procs[j] by {}
        assert forall|i: int| 0 <= i < t.procs.len() implies #[trigger] t.procs[i].wf() by {
            if i != pid {
                assert(t.procs[i] == old(t).procs[i]);
            }
        }
    }
}

/// Mark whether process `pid` owns the keyboard.
pub fn set_foreground(t: &mut ProcessTable, pid: usize, on: bool)
    requires
        old(t).wf(),
        pid < old(t).procs.len(),
    ensures
        final(t).wf(),
        final(t).others_same(old(t), pid as int),
        final(t).procs[pid as int] == (Process { foreground: on, ..old(t).procs[pid as int] }),
{
    proof { assert(t.procs[pid as int].wf()); }
    let mut p = t.procs.remove(pid);
    p.foreground = on;
    t.procs.insert(pid, p);
    proof { lemma_others_wf(old(t), t, pid as int); }
}

/// The foreground process (the one that receives console input): the first
/// marked so, if any.
pub fn foreground_pid(t: &ProcessTable) -> (r: Option<usize>)
    ensures
        r == first_foreground(t.procs@, 0),
{
    let mut i: usize = 0;
    while i < t.procs.len()
        invariant
            i <= t.procs.len(),
            first_foreground(t.procs@, 0) == first_foreground(t.procs@, i as int),
        decreases t.procs.len() - i,
    {
        if t.procs[i].foreground {
            return Some(i);
        }
        i = i + 1;
    }
    None
}

/// Park a `READ` for process `pid` in its first free slot. Returns false
/// (changing nothing) if every slot is taken.
pub fn park_read(t: &mut ProcessTable, pid: usize, p: Pending) -> (ok: bool)
    requires
        old(t).wf(),
        pid < old(t).procs.len(),
    ensures
        final(t).wf(),
        final(t).others_same(old(t), pid as int),
        ok == first_empty(old(t).procs[pid as int].pending@, 0) is Some,
        match first_empty(old(t).procs[pid as int].pending@, 0) {
            Some(s) => final(t).procs[pid as int] == (Process {
                pending: final(t).procs[pid as int].pending, ..old(t).procs[pid as int] })
                && final(t).procs[pid as int].pending@ == old(t).procs[pid as int].pending@.update(s as int, Some(p)),
            None => final(t).procs@ == old(t).procs@,
        },
{
    proof { assert(t.procs[pid as int].wf()); }
    let mut i: usize = 0;
    while i < MAX_PENDING
        invariant
            *t == *old(t),
            t.wf(),
            pid < t.procs.len(),
            i <= MAX_PENDING,
            t.procs[pid as int].pending.len() == MAX_PENDING,
            first_empty(t.procs[pid as int].pending@, 0) == first_empty(t.procs[pid as int].pending@, i as int),
        decreases MAX_PENDING - i,
    {
        if t.procs[pid].pending[i].is_none() {
            let mut q = t.procs.remove(pid);
            q.pending.set(i, Some(p));
            t.procs.insert(pid, q);
            proof { lemma_others_wf(old(t), t, pid as int); }
            return true;
        }
        i = i + 1;
    }
    false
}

/// A copy of process `pid`'s parked-read table.
pub fn pending_snapshot(t: &ProcessTable, pid: usize) -> (r: Vec<Option<Pending>>)
    requires
        pid < t.procs.len(),
    ensures
        r@ == t.procs[pid as int].pending@,
{
    t.procs[pid].pending.clone()
}

/// Clear parked-read slot `idx` of process `pid` (it has been completed).
pub fn clear_pending(t: &mut ProcessTable, pid: usize, idx: usize)
    requires
        old(t).wf(),
        pid < old(t).procs.len(),
        idx < MAX_PENDING,
    ensures
        final(t).wf(),
        final(t).others_same(old(t), pid as int),
        final(t).procs[pid as int] == (Process { pending: final(t).procs[pid as int].pending, ..old(t).procs[pid as int] }),
        final(t).procs[pid as int].pending@ == old(t).procs[pid as int].pending@.update(idx as int, None),
{
    proof { assert(t.procs[pid as int].wf()); }
    let mut p = t.procs.remove(pid);
    p.pending.set(idx, None);
    t.procs.insert(pid, p);
    proof { lemma_others_wf(old(t), t, pid as int); }
}

/// Record the task blocked waiting for process `pid`'s completions.
pub fn set_waiter(t: &mut ProcessTable, pid: usize, task: usize)
    requires
        old(t).wf(),
        pid < old(t).procs.len(),
    ensures
        final(t).wf(),
        final(t).others_same(old(t), pid as int),
        final(t).procs[pid as int] == (Process { ring_waiter: Some(task), ..old(t).procs[pid as int] }),
{
    proof { assert(t.procs[pid as int].wf()); }
    let mut p = t.procs.remove(pid);
    p.ring_waiter = Some(task);
    t.procs.insert(pid, p);
    proof { lemma_others_wf(old(t), t, pid as int); }
}

/// Take (and clear) process `pid`'s blocked waiter, if any.
pub fn take_waiter(t: &mut ProcessTable, pid: usize) -> (r: Option<usize>)
    requires
        old(t).wf(),
        pid < old(t).procs.len(),
    ensures
        final(t).wf(),
        final(t).others_same(old(t), pid as int),
        r == old(t).procs[pid as int].ring_waiter,
        final(t).procs[pid as int] == (Process { ring_waiter: None, ..old(t).procs[pid as int] }),
{
    proof { assert(t.procs[pid as int].wf()); }
    let mut p = t.procs.remove(pid);
    let r = p.ring_waiter;
    p.ring_waiter = None;
    t.procs.insert(pid, p);
    proof { lemma_others_wf(old(t), t, pid as int); }
    r
}

/// Drop process `pid`'s ring-related state at teardown: parked reads point at
/// buffers about to be unmapped, and the waiter is exiting.
pub fn clear_ring(t: &mut ProcessTable, pid: usize)
    requires
        old(t).wf(),
        pid < old(t).procs.len(),
    ensures
        final(t).wf(),
        final(t).others_same(old(t), pid as int),
        final(t).procs[pid as int] == (Process { pending: final(t).procs[pid as int].pending, ring_waiter: None,
            ..old(t).procs[pid as int] }),
        final(t).procs[pid as int].pending@.len() == MAX_PENDING,
        forall|i: int| 0 <= i < MAX_PENDING ==> #[trigger] final(t).procs[pid as int].pending@[i] is None,
{
    proof { assert(t.procs[pid as int].wf()); }
    let mut p = t.procs.remove(pid);
    p.pending = vec![None; MAX_PENDING];
    p.ring_waiter = None;
    t.procs.insert(pid, p);
    proof { lemma_others_wf(old(t), t, pid as int); }
}

/// Take ownership of process `pid`'s `(va, frame)` list, leaving it empty;
/// the caller unmaps and frees them.
pub fn take_frames(t: &mut ProcessTable, pid: usize) -> (r: Vec<(u64, Frame)>)
    requires
        old(t).wf(),
        pid < old(t).procs.len(),
    ensures
        final(t).wf(),
        final(t).others_same(old(t), pid as int),
        r@ == old(t).procs[pid as int].frames@,
        final(t).procs[pid as int] == (Process { frames: final(t).procs[pid as int].frames, ..old(t).procs[pid as int] }),
        final(t).procs[pid as int].frames@.len() == 0,
{
    proof { assert(t.procs[pid as int].wf()); }
    let mut p = t.procs.remove(pid);
    let mut r: Vec<(u64, Frame)> = Vec::new();
    std::mem::swap(&mut r, &mut p.frames);
    t.procs.insert(pid, p);
    proof { lemma_others_wf(old(t), t, pid as int); }
    r
}

/// Mark process `pid` exited: zero its ring address (so the poller skips it)
/// and drop its foreground claim. The husk stays so pids stay stable.
pub fn mark_exited(t: &mut ProcessTable, pid: usize)
    requires
        old(t).wf(),
        pid < old(t).procs.len(),
    ensures
        final(t).wf(),
        final(t).others_same(old(t), pid as int),
        final(t).procs[pid as int] == (Process { ring_pa: 0, foreground: false, ..old(t).procs[pid as int] }),
{
    proof { assert(t.procs[pid as int].wf()); }
    let mut p = t.procs.remove(pid);
    p.ring_pa = 0;
    p.foreground = false;
    t.procs.insert(pid, p);
    proof { lemma_others_wf(old(t), t, pid as int); }
}

/// Whether `[ptr, ptr + len)` lies entirely within process `pid`'s mapped
/// user memory: its stack, or the first of its loaded ranges that contains it
/// (which must be writable, with `need_write`).
pub fn is_user_range(t: &ProcessTable, pid: usize, ptr: u64, len: u64, need_write: bool) -> (r: bool)
    requires
        t.wf(),
        pid < t.procs.len(),
    ensures
        r == proc_range_ok(t.procs[pid as int].loaded, ptr, len, need_write),
{
    let end = match ptr.checked_add(len) {
        Some(e) => e,
        None => return false,
    };
    if ptr >= USER_STACK_VA && end <= USER_STACK_VA + USER_STACK_SIZE {
        return true;
    }
    let loaded = &t.procs[pid].loaded;
    assert(t.procs[pid as int].wf());
    let mut i: usize = 0;
    proof { assert(loaded.used().subrange(0, loaded.count as int) =~= loaded.used()); }
    while i < loaded.count
        invariant
            loaded.wf(),
            *loaded == t.procs[pid as int].loaded,
            !(ptr >= USER_STACK_VA && end <= USER_STACK_VA + USER_STACK_SIZE),
            end == ptr + len,
            i <= loaded.count,
            range_verdict(loaded.used(), ptr as int, end as int, need_write)
                == range_verdict(loaded.used().subrange(i as int, loaded.count as int), ptr as int, end as int, need_write),
        decreases loaded.count - i,
    {
        let r = loaded.ranges[i];
        proof {
            let rest = loaded.used().subrange(i as int, loaded.count as int);
            assert(rest[0] == r);
            assert(rest.drop_first() =~= loaded.used().subrange(i + 1, loaded.count as int));
        }
        if ptr >= r.start && end <= r.end {
            return !need_write || r.writable;
        }
        i = i + 1;
    }
    false
}

/// After replacing process `pid` by a well-formed one, the table stays
/// well-formed.
proof fn lemma_others_wf(t0: &ProcessTable, t1: &ProcessTable, pid: int)
    requires
        t0.wf(),
        0 <= pid < t0.procs.len(),
        t1.procs.len() == t0.procs.len(),
        forall|j: int| 0 <= j < t1.procs.len() && j != pid ==> #[trigger] t1.procs[j] == t0.procs[j],
        t1.procs[pid].loaded == t0.procs[pid].loaded,
        t1.procs[pid].pending.len() == MAX_PENDING,
    ensures
        t1.wf(),
{
    assert forall|i: int| 0 <= i < t1.procs.len() implies #[trigger] t1.procs[i].wf() by {
        if i != pid {
            assert(t1.procs[i] == t0.procs[i]);
        } else {
            assert(t0.procs[pid].wf());
        }
    }
}

} // verus!
