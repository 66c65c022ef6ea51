//! Physical frame allocator: hands out and reclaims 4 KiB physical frames.
//!
//! Free frames form an intrusive stack: each free frame holds, in its first
//! word, the physical address of the next free frame. `head` is the first free
//! frame (`0` means empty, which is safe because RAM never starts at 0).
//! Allocating pops the head; freeing pushes.
use vstd::prelude::*;
use crate::kernel::phys::{PhysMem, FRAME_SIZE, frame_aligned, lemma_frames_disjoint};

verus! {

/// A 4 KiB-aligned physical frame, identified by its base address.
#[derive(Clone, Copy, PartialEq, Eq, Debug)]
pub struct Frame(u64);

impl View for Frame {
    type V = u64;

    closed spec fn view(&self) -> u64 {
        self.0
    }
}

impl Frame {
    /// The physical base address of this frame.
    pub fn addr(self) -> (a: u64)
        ensures
            a == self@,
    {
        self.0
    }

    /// The frame whose base address is `a` (used when a page-table walk or a
    /// bookkeeping list yields a frame's address).
    pub fn at(a: u64) -> (f: Frame)
        ensures
            f@ == a,
    {
        Frame(a)
    }
}

/// Round `addr` up to the next multiple of [`FRAME_SIZE`].
pub fn frame_align_up(addr: u64) -> (r: u64)
    requires
        addr + FRAME_SIZE - 1 <= u64::MAX,
    ensures
        frame_aligned(r as int),
        addr <= r < addr + FRAME_SIZE,
{
    let s = addr + 4095;
    let r = s & !4095u64;
    assert(r % 4096 == 0 && addr <= r && r < addr + 4096) by (bit_vector)
        requires
            r == s & !4095u64,
            s == addr + 4095,
            addr + 4095 <= 0xffff_ffff_ffff_ffffu64,
    ;
    r
}

/// The first frame boundary at or above `x`.
pub open spec fn frame_round_up(x: int) -> int {
    (x + 4095) / 4096 * 4096
}

/// The next free frame after position `i` of the stack `s` (`0` at the bottom).
pub open spec fn next_of(s: Seq<u64>, i: int) -> u64 {
    if i + 1 < s.len() {
        s[i + 1]
    } else {
        0
    }
}

/// The frames `first, first + 4096, ...` below `end`, in the order a stack
/// holds them after they were pushed one by one: the last pushed on top.
pub open spec fn region_stack(first: int, n: nat) -> Seq<u64> {
    Seq::new(n, |i: int| (first + (n - 1 - i) * FRAME_SIZE) as u64)
}

/// Number of whole frames from the frame boundary `first` up to `end`.
pub open spec fn region_count(first: int, end: int) -> nat {
    if end >= first {
        ((end - first) / FRAME_SIZE as int) as nat
    } else {
        0
    }
}

/// An intrusive free-list ("stack") of physical frames.
pub struct FrameAllocator {
    /// Physical address of the first free frame, or `0` when the pool is empty.
    head: u64,
    /// Number of frames currently free.
    free_count: u64,
    /// The free frames, top of the stack first.
    free: Ghost<Seq<u64>>,
}

impl FrameAllocator {
    /// The free frames, top of the stack first: the next `pop` returns the
    /// first of them.
    pub closed spec fn free_list(&self) -> Seq<u64> {
        self.free@
    }

    /// The stack held in `mem` is exactly `free_list()`: each listed frame is a
    /// distinct whole frame of RAM whose first word links to the next one.
    pub closed spec fn wf(&self, mem: &PhysMem) -> bool {
        let s = self.free@;
        &&& mem.wf()
        &&& s.no_duplicates()
        &&& self.free_count == s.len()
        &&& self.head == (if s.len() == 0 { 0 } else { s[0] })
        &&& forall|i: int| 0 <= i < s.len() ==> #[trigger] mem.has_frame(s[i] as int)
        &&& forall|i: int| 0 <= i < s.len() ==> #[trigger] mem.word(s[i] as int) == next_of(s, i)
    }

    /// A free list is untouched by any change to RAM that keeps the first
    /// word of every free frame.
    pub proof fn lemma_wf_mem_change(&self, mem: &PhysMem, mem2: &PhysMem)
        requires
            self.wf(mem),
            mem2.wf(),
            mem2.base == mem.base,
            mem2.words.len() == mem.words.len(),
            forall|i: int| 0 <= i < self.free_list().len()
                ==> #[trigger] mem2.word(self.free_list()[i] as int) == mem.word(self.free_list()[i] as int),
        ensures
            self.wf(mem2),
    {
        let s = self.free@;
        assert forall|i: int| 0 <= i < s.len() implies #[trigger] mem2.has_frame(s[i] as int) by {
            assert(mem.has_frame(s[i] as int));
        }
        assert forall|i: int| 0 <= i < s.len() implies #[trigger] mem2.word(s[i] as int) == next_of(s, i) by {
            assert(mem.word(s[i] as int) == next_of(s, i));
            assert(mem2.word(self.free_list()[i] as int) == mem.word(self.free_list()[i] as int));
        }
    }

    /// What `wf` guarantees of each free frame.
    pub proof fn lemma_wf_facts(&self, mem: &PhysMem)
        requires
            self.wf(mem),
        ensures
            mem.wf(),
            self.free_list().no_duplicates(),
            forall|i: int| 0 <= i < self.free_list().len() ==> #[trigger] mem.has_frame(self.free_list()[i] as int),
            self.free_list().len() <= mem.size(),
    {
        let s = self.free@;
        assert forall|i: int| 0 <= i < s.len() implies mem.base <= #[trigger] s[i] < mem.end() by {
            assert(mem.has_frame(s[i] as int));
        }
        lemma_no_dup_bounded(s, mem.base as int, mem.end());
    }

    /// An empty allocator.
    pub fn new() -> (fa: FrameAllocator)
        ensures
            fa.free_list() == Seq::<u64>::empty(),
            forall|m: &PhysMem| m.wf() ==> fa.wf(m),
    {
        FrameAllocator { head: 0, free_count: 0, free: Ghost(Seq::empty()) }
    }

    /// Push a frame onto the free list, storing the old head inside it.
    fn push(&mut self, mem: &mut PhysMem, frame: u64)
        requires
            old(self).wf(old(mem)),
            old(mem).has_frame(frame as int),
            !old(self).free_list().contains(frame),
        ensures
            final(self).wf(final(mem)),
            final(self).free_list() == seq![frame] + old(self).free_list(),
            final(mem).base == old(mem).base,
            final(mem).words@ == old(mem).words@.update(old(mem).idx(frame as int), old(self).head),
    {
        proof { self.lemma_wf_facts(mem); }
        let ghost s = self.free@;
        let ghost m0 = *mem;
        mem.write_u64(frame, self.head);
        self.head = frame;
        self.free_count = self.free_count + 1;
        self.free = Ghost(seq![frame] + s);
        proof {
            let t = self.free@;
            assert forall|i: int| 0 <= i < t.len() implies #[trigger] mem.has_frame(t[i] as int) by {
                if i > 0 { assert(t[i] == s[i - 1]); assert(m0.has_frame(s[i - 1] as int)); }
            }
            assert forall|i: int| 0 <= i < t.len() implies #[trigger] mem.word(t[i] as int) == next_of(t, i) by {
                if i > 0 {
                    assert(t[i] == s[i - 1]);
                    assert(m0.has_frame(s[i - 1] as int));
                    lemma_frames_disjoint(m0.base as int, frame as int, s[i - 1] as int, frame as int, s[i - 1] as int);
                    assert(m0.word(s[i - 1] as int) == next_of(s, i - 1));
                } else {
                    assert(mem.word(frame as int) == m0.words@.update(m0.idx(frame as int), m0.word(frame as int)).index(m0.idx(frame as int)) || true);
                }
            }
            assert forall|i: int, j: int| 0 <= i < t.len() && 0 <= j < t.len() && i != j implies t[i] != t[j] by {
                if i > 0 && j > 0 { assert(t[i] == s[i - 1] && t[j] == s[j - 1]); }
                else if i == 0 { assert(t[j] == s[j - 1]); }
                else { assert(t[i] == s[i - 1]); }
            }
        }
    }

    /// Pop a frame from the free list, reading the next head out of it.
    fn pop(&mut self, mem: &PhysMem) -> (r: Option<Frame>)
        requires
            old(self).wf(mem),
        ensures
            final(self).wf(mem),
            old(self).free_list().len() == 0 ==> r.is_none() && final(self).free_list() == old(self).free_list(),
            old(self).free_list().len() > 0 ==> r == Some(Frame(old(self).free_list()[0]))
                && final(self).free_list() == old(self).free_list().drop_first(),
    {
        if self.head == 0 {
            proof {
                if self.free@.len() > 0 { assert(mem.has_frame(self.free@[0] as int)); }
            }
            return None;
        }
        let frame = self.head;
        let ghost s = self.free@;
        assert(mem.has_frame(s[0] as int));
        self.head = mem.read_u64(frame);
        self.free_count = self.free_count - 1;
        self.free = Ghost(s.drop_first());
        proof {
            let t = self.free@;
            assert(mem.word(s[0] as int) == next_of(s, 0));
            assert forall|i: int| 0 <= i < t.len() implies #[trigger] mem.has_frame(t[i] as int) by {
                assert(t[i] == s[i + 1]);
            }
            assert forall|i: int| 0 <= i < t.len() implies #[trigger] mem.word(t[i] as int) == next_of(t, i) by {
                assert(t[i] == s[i + 1]);
                assert(mem.word(s[i + 1] as int) == next_of(s, i + 1));
            }
            assert forall|i: int, j: int| 0 <= i < t.len() && 0 <= j < t.len() && i != j implies t[i] != t[j] by {
                assert(t[i] == s[i + 1] && t[j] == s[j + 1]);
            }
        }
        Some(Frame(frame))
    }

    /// Push every whole frame in `[start, end)` onto the free list, lowest
    /// address first.
    fn add_region(&mut self, mem: &mut PhysMem, start: u64, end: u64)
        requires
            old(self).wf(old(mem)),
            old(mem).base <= start,
            start + FRAME_SIZE - 1 <= u64::MAX,
            end <= old(mem).end(),
            forall|i: int| 0 <= i < old(self).free_list().len() ==>
                #[trigger] old(self).free_list()[i] + FRAME_SIZE <= start || old(self).free_list()[i] >= end,
        ensures
            final(self).wf(final(mem)),
            final(mem).base == old(mem).base,
            final(mem).words.len() == old(mem).words.len(),
            ({
                let first = frame_round_up(start as int);
                final(self).free_list() == region_stack(first, region_count(first, end as int)) + old(self).free_list()
            }),
    {
        proof { self.lemma_wf_facts(mem); }
        let mut frame = frame_align_up(start);
        let ghost first = frame as int;
        assert(first == frame_round_up(start as int)) by {
            assert(frame_aligned(first) && start <= first < start + FRAME_SIZE);
        }
        let ghost s0 = self.free@;
        let ghost mut k: nat = 0;
        while frame <= end && end - frame >= FRAME_SIZE
            invariant
                self.wf(mem),
                mem.base == old(mem).base,
                mem.words.len() == old(mem).words.len(),
                frame_aligned(frame as int),
                frame == first + k * FRAME_SIZE,
                old(mem).base <= start <= first,
                end <= old(mem).end(),
                k == 0 || frame <= end,
                self.free_list() == region_stack(first, k) + s0,
                forall|i: int| 0 <= i < s0.len() ==> #[trigger] s0[i] + FRAME_SIZE <= start || s0[i] >= end,
            decreases end + FRAME_SIZE - frame as int,
        {
            proof {
                assert(!self.free_list().contains(frame)) by {
                    if self.free_list().contains(frame) {
                        let j = choose|j: int| 0 <= j < self.free_list().len() && self.free_list()[j] == frame;
                        if j < k {
                            assert(region_stack(first, k)[j] == frame);
                        } else {
                            assert(s0[j - k] == frame);
                        }
                    }
                }
                assert(mem.has_frame(frame as int));
            }
            self.push(mem, frame);
            frame = frame + FRAME_SIZE;
            proof {
                k = k + 1;
                assert(self.free_list() =~= region_stack(first, k) + s0);
            }
        }
        proof {
            assert(k == region_count(first, end as int));
        }
    }
}

/// A sequence of distinct values in `[lo, hi)` has at most `hi - lo` elements.
pub proof fn lemma_no_dup_bounded(s: Seq<u64>, lo: int, hi: int)
    requires
        s.no_duplicates(),
        forall|i: int| 0 <= i < s.len() ==> lo <= #[trigger] s[i] < hi,
    ensures
        s.len() <= if hi >= lo { hi - lo } else { 0 },
    decreases if hi >= lo { hi - lo } else { 0 },
{
    if s.len() == 0 {
    } else if hi <= lo {
        assert(lo <= s[0] < hi);
    } else if s.contains((hi - 1) as u64) {
        let j = choose|j: int| 0 <= j < s.len() && s[j] == (hi - 1) as u64;
        let t = s.remove(j);
        assert forall|i: int| 0 <= i < t.len() implies lo <= #[trigger] t[i] < hi - 1 by {
            if i < j { assert(t[i] == s[i]); } else { assert(t[i] == s[i + 1]); }
        }
        assert forall|a: int, b: int| 0 <= a < t.len() && 0 <= b < t.len() && a != b implies t[a] != t[b] by {
            let a2 = if a < j { a } else { a + 1 };
            let b2 = if b < j { b } else { b + 1 };
            assert(t[a] == s[a2] && t[b] == s[b2]);
        }
        lemma_no_dup_bounded(t, lo, hi - 1);
    } else {
        assert forall|i: int| 0 <= i < s.len() implies lo <= #[trigger] s[i] < hi - 1 by {
            if s[i] == hi - 1 { assert(s.contains((hi - 1) as u64)); }
        }
        lemma_no_dup_bounded(s, lo, hi - 1);
    }
}

/// Initialize the frame allocator with every whole frame from the first frame
/// boundary at or above `kernel_end` to the end of RAM.
pub fn init_frames(fa: &mut FrameAllocator, mem: &mut PhysMem, kernel_end: u64)
    requires
        old(fa).wf(old(mem)),
        old(mem).base <= kernel_end,
        kernel_end + FRAME_SIZE - 1 <= u64::MAX,
        forall|i: int| 0 <= i < old(fa).free_list().len() ==>
            #[trigger] old(fa).free_list()[i] + FRAME_SIZE <= kernel_end,
    ensures
        final(fa).wf(final(mem)),
        final(mem).base == old(mem).base,
        final(mem).words.len() == old(mem).words.len(),
        ({
            let first = frame_round_up(kernel_end as int);
            final(fa).free_list() == region_stack(first, region_count(first, old(mem).end())) + old(fa).free_list()
        }),
{
    let end = mem.base + (mem.words.len() as u64) * 8;
    fa.add_region(mem, kernel_end, end);
}

/// Allocate one physical frame: the most recently freed one, or `None` if
/// the pool is empty.
pub fn alloc_frame(fa: &mut FrameAllocator, mem: &PhysMem) -> (r: Option<Frame>)
    requires
        old(fa).wf(mem),
    ensures
        final(fa).wf(mem),
        old(fa).free_list().len() == 0 ==> r.is_none() && final(fa).free_list() == old(fa).free_list(),
        old(fa).free_list().len() > 0 ==> r.is_some() && r.unwrap()@ == old(fa).free_list()[0]
            && final(fa).free_list() == old(fa).free_list().drop_first(),
{
    fa.pop(mem)
}

/// Return a frame to the pool; it becomes the next one handed out.
pub fn free_frame(fa: &mut FrameAllocator, mem: &mut PhysMem, frame: Frame)
    requires
        old(fa).wf(old(mem)),
        old(mem).has_frame(frame@ as int),
        !old(fa).free_list().contains(frame@),
    ensures
        final(fa).wf(final(mem)),
        final(fa).free_list() == seq![frame@] + old(fa).free_list(),
        final(mem).base == old(mem).base,
        final(mem).words.len() == old(mem).words.len(),
        forall|i: int| 0 <= i < old(mem).words.len() && i != old(mem).idx(frame@ as int)
            ==> #[trigger] final(mem).words@[i] == old(mem).words@[i],
{
    fa.push(mem, frame.0);
}

/// Number of frames currently free.
pub fn free_frame_count(fa: &FrameAllocator, mem: &PhysMem) -> (n: u64)
    requires
        fa.wf(mem),
    ensures
        n == fa.free_list().len(),
{
    fa.free_count
}

} // verus!
