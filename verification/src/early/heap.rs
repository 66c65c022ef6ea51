//! The kernel heap: a bump allocator over a contiguous virtual window backed
//! by physical frames.
//!
//! The heap lives at a fixed virtual range ([`HEAP_VBASE`]) that [`init_heap`]
//! maps onto 4 KiB frames from the frame allocator. Each allocation rounds
//! `next` up to the requested alignment and advances past the size. Memory is
//! reclaimed only once every allocation has been freed: then `next` returns to
//! the start.
use vstd::prelude::*;
use crate::kernel::phys::FRAME_SIZE;
use crate::kernel::mmu::{Machine, ADDR_MASK, PAGE_KERNEL_RW, leaf_entry, translation, path_has_no_block,
    tables_needed, same_page, va_index};

verus! {

/// Base virtual address of the heap window (outside the identity-mapped
/// region, so heap addresses are virtual, not physical).
pub const HEAP_VBASE: u64 = 0x1_0000_0000;
/// Size of the heap window in bytes (2 MiB: one full L3 table).
pub const HEAP_SIZE: u64 = 0x20_0000;

/// `addr` rounded up to a multiple of `align`.
pub open spec fn align_up_spec(addr: int, align: int) -> int {
    (addr + align - 1) / align * align
}

/// Round `addr` up to the nearest multiple of `align` (a power of two).
fn align_up(addr: u64, align: u64) -> (r: u64)
    requires
        align > 0,
        addr + align - 1 <= u64::MAX,
    ensures
        r == align_up_spec(addr as int, align as int),
        r % align == 0,
        addr <= r < addr + align,
{
    let s = addr + (align - 1);
    let r = s - s % align;
    assert(r == s / align * align && addr <= r < addr + align) by (nonlinear_arith)
        requires
            align > 0,
            s == addr + align - 1,
            r == s - s % align,
    ;
    assert(r % align == 0) by (nonlinear_arith)
        requires
            align > 0,
            r == s / align * align,
    ;
    r
}

/// `a1` is `a0` after allocating `size` bytes aligned to `align`, answering
/// `r`: the bump pointer rounded up to the alignment when the block fits
/// before the end of the region (the pointer then moves past it), else
/// nothing.
pub open spec fn allocated(a0: BumpAllocator, a1: BumpAllocator, size: u64, align: u64, r: Option<u64>) -> bool {
    let a = align_up_spec(a0.next as int, align as int);
    &&& a1.heap_start == a0.heap_start
    &&& a1.heap_end == a0.heap_end
    &&& if a + size <= a0.heap_end {
        &&& r == Some(a as u64)
        &&& a1.next == a + size
        &&& a1.allocations == a0.allocations + 1
    } else {
        &&& r is None
        &&& a1 == a0
    }
}

/// A bump allocator over one contiguous (virtual) region.
pub struct BumpAllocator {
    pub heap_start: u64,
    pub heap_end: u64,
    pub next: u64,
    /// Allocations not yet freed.
    pub allocations: u64,
}

impl BumpAllocator {
    /// Allocations lie between the region's start and the bump pointer.
    pub open spec fn wf(&self) -> bool {
        self.heap_start <= self.next <= self.heap_end
    }

    /// An allocator with an empty region; [`BumpAllocator::init`] it before use.
    pub fn new() -> (a: BumpAllocator)
        ensures
            a.wf(),
            a.heap_start == 0 && a.heap_end == 0 && a.next == 0 && a.allocations == 0,
    {
        BumpAllocator { heap_start: 0, heap_end: 0, next: 0, allocations: 0 }
    }

    /// Point the allocator at the (mapped) region `[start, start + size)`,
    /// forgetting every earlier allocation.
    pub fn init(&mut self, start: u64, size: u64)
        requires
            start + size <= u64::MAX,
        ensures
            final(self).wf(),
            final(self).heap_start == start,
            final(self).heap_end == start + size,
            final(self).next == start,
            final(self).allocations == 0,
    {
        self.heap_start = start;
        self.heap_end = start + size;
        self.next = start;
        self.allocations = 0;
    }

    /// Allocate `size` bytes aligned to `align` (a power of two): the bump
    /// pointer rounded up to the alignment, if the block fits before the end
    /// of the region; `None` (out of memory) otherwise.
    pub fn allocate(&mut self, size: u64, align: u64) -> (r: Option<u64>)
        requires
            old(self).wf(),
            align > 0,
            old(self).next + align - 1 <= u64::MAX,
            old(self).allocations < u64::MAX,
        ensures
            final(self).wf(),
            allocated(*old(self), *final(self), size, align, r),
    {
        let alloc_start = align_up(self.next, align);
        let alloc_end = match alloc_start.checked_add(size) {
            Some(end) => end,
            None => return None,
        };
        if alloc_end > self.heap_end {
            None
        } else {
            self.next = alloc_end;
            self.allocations = self.allocations + 1;
            Some(alloc_start)
        }
    }

    /// Free one allocation; once none is left the whole region is reusable.
    pub fn deallocate(&mut self)
        requires
            old(self).wf(),
            old(self).allocations > 0,
        ensures
            final(self).wf(),
            final(self).heap_start == old(self).heap_start,
            final(self).heap_end == old(self).heap_end,
            final(self).allocations == old(self).allocations - 1,
            final(self).next == if final(self).allocations == 0 { old(self).heap_start } else { old(self).next },
    {
        self.allocations = self.allocations - 1;
        if self.allocations == 0 {
            self.next = self.heap_start;
        }
    }
}

/// The `i`-th page of the heap window.
pub open spec fn heap_page(i: int) -> u64 {
    (HEAP_VBASE + 4096 * i) as u64
}

proof fn lemma_heap_page_index(i: u64)
    requires
        i < 512,
    ensures
        va_index(heap_page(i as int), 0) == 0,
        va_index(heap_page(i as int), 1) == 4,
        va_index(heap_page(i as int), 2) == 0,
        va_index(heap_page(i as int), 3) == i,
        heap_page(i as int) == 0x1_0000_0000u64 + 4096 * i,
{
    let va: u64 = (0x1_0000_0000u64 + 4096 * i) as u64;
    assert(((va >> 39u64) & 0x1FF) == 0 && ((va >> 30u64) & 0x1FF) == 4 && ((va >> 21u64) & 0x1FF) == 0
        && ((va >> 12u64) & 0x1FF) == i) by (bit_vector)
        requires
            i < 512,
            va == 0x1_0000_0000u64 + 4096 * i,
    ;
}

/// Map the heap window onto fresh frames (kernel read/write) in the live
/// address space, then point `heap` at it.
pub fn init_heap(m: &mut Machine, heap: &mut BumpAllocator)
    requires
        old(m).wf(),
        old(m).is_root(old(m).ttbr0 & ADDR_MASK),
        path_has_no_block(old(m).mem, old(m).ttbr0 & ADDR_MASK, HEAP_VBASE),
        old(m).free().len() >= 512 + tables_needed(old(m).mem, old(m).ttbr0 & ADDR_MASK, HEAP_VBASE),
    ensures
        final(m).wf(),
        final(m).same_regs(old(m)),
        final(m).tables_grow(old(m)),
        final(heap).wf(),
        final(heap).heap_start == HEAP_VBASE,
        final(heap).heap_end == HEAP_VBASE + HEAP_SIZE,
        final(heap).next == HEAP_VBASE,
        final(heap).allocations == 0,
        forall|i: int| 0 <= i < 512 ==> {
            &&& #[trigger] leaf_entry(final(m).mem, final(m).ttbr0 & ADDR_MASK, heap_page(i)) is Some
            &&& leaf_entry(final(m).mem, final(m).ttbr0 & ADDR_MASK, heap_page(i))->0 & !ADDR_MASK == PAGE_KERNEL_RW
            &&& old(m).free().contains(leaf_entry(final(m).mem, final(m).ttbr0 & ADDR_MASK, heap_page(i))->0 & ADDR_MASK)
        },
        forall|i: int, j: int| 0 <= i < j < 512 ==> leaf_entry(final(m).mem, final(m).ttbr0 & ADDR_MASK,
            #[trigger] heap_page(i))->0 & ADDR_MASK != leaf_entry(final(m).mem, final(m).ttbr0 & ADDR_MASK,
            #[trigger] heap_page(j))->0 & ADDR_MASK,
{
    let ghost m0 = *m;
    let l0 = m.live_l0();
    let mut off: u64 = 0;
    proof {
        assert(HEAP_VBASE == heap_page(0));
    }
    let ghost mut i: int = 0;
    while off < HEAP_SIZE
        invariant
            m0.wf(),
            m.wf(),
            m.is_root(l0),
            l0 == m.ttbr0 & ADDR_MASK,
            m.same_regs(&m0),
            m.tables_grow(&m0),
            off == 4096 * i,
            0 <= i <= 512,
            path_has_no_block(m.mem, l0, HEAP_VBASE),
            i > 0 ==> tables_needed(m.mem, l0, HEAP_VBASE) == 0,
            m.free().len() >= 512 - i + tables_needed(m.mem, l0, HEAP_VBASE),
            forall|x: u64| m.free().contains(x) ==> m0.free().contains(x),
            forall|j: int| 0 <= j < i ==> {
                &&& #[trigger] leaf_entry(m.mem, l0, heap_page(j)) is Some
                &&& leaf_entry(m.mem, l0, heap_page(j))->0 & !ADDR_MASK == PAGE_KERNEL_RW
                &&& m0.free().contains(leaf_entry(m.mem, l0, heap_page(j))->0 & ADDR_MASK)
                &&& !m.free().contains(leaf_entry(m.mem, l0, heap_page(j))->0 & ADDR_MASK)
                &&& !m.tables@.dom().contains(leaf_entry(m.mem, l0, heap_page(j))->0 & ADDR_MASK)
            },
            forall|j1: int, j2: int| 0 <= j1 < j2 < i ==> leaf_entry(m.mem, l0, #[trigger] heap_page(j1))->0 & ADDR_MASK
                != leaf_entry(m.mem, l0, #[trigger] heap_page(j2))->0 & ADDR_MASK,
        decreases HEAP_SIZE - off,
    {
        let va = HEAP_VBASE + off;
        let ghost mb = *m;
        proof {
            lemma_heap_page_index(i as u64);
            lemma_heap_page_index(0);
            assert(va == heap_page(i));
            crate::kernel::mmu::lemma_same_table_path(m.mem, l0, HEAP_VBASE, va);
        }
        let frame = m.alloc_frame().unwrap();
        let ghost m1 = *m;
        proof {
            crate::kernel::mmu::lemma_leaf_unchanged(mb, m1.mem, l0, va);
            assert(0x60_0000_0000_0703u64 & 0x0000_FFFF_FFFF_F000u64 == 0) by (bit_vector);
            crate::kernel::mmu::lemma_page_desc(frame@, PAGE_KERNEL_RW);
            crate::kernel::mmu::lemma_page_frame(frame@);
        }
        m.map_page_in(l0, va, frame.addr(), PAGE_KERNEL_RW);
        proof {
            let f = frame@;
            let n = tables_needed(m1.mem, l0, va) as int;
            crate::kernel::mmu::lemma_same_table_path(m.mem, l0, HEAP_VBASE, va);
            assert(!m.free().contains(f)) by {
                if m.free().contains(f) {
                    let j = choose|j: int| 0 <= j < m.free().len() && m.free()[j] == f;
                    assert(m1.free()[n + j] == f);
                    assert(m1.free().contains(f));
                }
            }
            assert(!m.tables@.dom().contains(f)) by {
                if m.tables@.dom().contains(f) {
                    let sub = m1.free().subrange(0, n);
                    let j = choose|j: int| 0 <= j < sub.len() && sub[j] == f;
                    assert(m1.free()[j] == f);
                    assert(m1.free().contains(f));
                }
            }
            assert forall|x: u64| m.free().contains(x) implies m0.free().contains(x) by {
                let j = choose|j: int| 0 <= j < m.free().len() && m.free()[j] == x;
                assert(m1.free()[n + j] == x);
                assert(mb.free()[1 + n + j] == x);
                assert(mb.free().contains(x));
            }
            assert(mb.free().contains(f));
            assert forall|j: int| 0 <= j < i + 1 implies {
                &&& #[trigger] leaf_entry(m.mem, l0, heap_page(j)) is Some
                &&& leaf_entry(m.mem, l0, heap_page(j))->0 & !ADDR_MASK == PAGE_KERNEL_RW
                &&& m0.free().contains(leaf_entry(m.mem, l0, heap_page(j))->0 & ADDR_MASK)
                &&& !m.free().contains(leaf_entry(m.mem, l0, heap_page(j))->0 & ADDR_MASK)
                &&& !m.tables@.dom().contains(leaf_entry(m.mem, l0, heap_page(j))->0 & ADDR_MASK)
            } by {
                if j < i {
                    lemma_heap_page_index(j as u64);
                    crate::kernel::mmu::lemma_leaf_unchanged(mb, m1.mem, l0, heap_page(j));
                    assert(!same_page(va, heap_page(j)));
                    let g = leaf_entry(mb.mem, l0, heap_page(j))->0 & ADDR_MASK;
                    assert(leaf_entry(m.mem, l0, heap_page(j)) == leaf_entry(mb.mem, l0, heap_page(j)));
                    assert(!mb.free().contains(g));
                    assert(!m.free().contains(g)) by {
                        if m.free().contains(g) {
                            let k = choose|k: int| 0 <= k < m.free().len() && m.free()[k] == g;
                            assert(m1.free()[n + k] == g);
                            assert(mb.free()[1 + n + k] == g);
                        }
                    }
                    assert(!m.tables@.dom().contains(g)) by {
                        if m.tables@.dom().contains(g) && !m1.tables@.dom().contains(g) {
                            let sub = m1.free().subrange(0, n);
                            let k = choose|k: int| 0 <= k < sub.len() && sub[k] == g;
                            assert(m1.free()[k] == g);
                            assert(mb.free()[1 + k] == g);
                        }
                    }
                }
            }
            assert forall|j1: int, j2: int| 0 <= j1 < j2 < i + 1 implies leaf_entry(m.mem, l0, #[trigger] heap_page(j1))->0
                & ADDR_MASK != leaf_entry(m.mem, l0, #[trigger] heap_page(j2))->0 & ADDR_MASK by {
                if j2 < i {
                    lemma_heap_page_index(j1 as u64);
                    lemma_heap_page_index(j2 as u64);
                    crate::kernel::mmu::lemma_leaf_unchanged(mb, m1.mem, l0, heap_page(j1));
                    crate::kernel::mmu::lemma_leaf_unchanged(mb, m1.mem, l0, heap_page(j2));
                } else {
                    lemma_heap_page_index(j1 as u64);
                    crate::kernel::mmu::lemma_leaf_unchanged(mb, m1.mem, l0, heap_page(j1));
                    assert(!same_page(va, heap_page(j1)));
                    assert(leaf_entry(m.mem, l0, heap_page(j1)) == leaf_entry(mb.mem, l0, heap_page(j1)));
                    assert(!mb.free().contains(leaf_entry(mb.mem, l0, heap_page(j1))->0 & ADDR_MASK));
                }
            }
        }
        off = off + FRAME_SIZE;
        proof { i = i + 1; }
    }
    heap.init(HEAP_VBASE, HEAP_SIZE);
    proof {
        assert(i == 512);
    }
}

} // verus!
