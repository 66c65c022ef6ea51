//! Page tables for the AArch64 MMU, kept in physical memory.
//!
//! A [`Machine`] is RAM, its frame allocator, and the page tables that live in
//! RAM. Tables are 512 descriptors; an L0/L1/L2 descriptor whose low two bits
//! are `0b11` points at the next-level table. Every table the kernel built is
//! recorded (as ghost state) with its level, and the machine invariant says a
//! table descriptor at level `k` always points at a recorded table of level
//! `k + 1`, and that no table frame is on the free list.
use vstd::prelude::*;
use crate::kernel::phys::{PhysMem, FRAME_SIZE, frame_aligned, lemma_frames_disjoint, lemma_idx_in_frame, lemma_one_frame, lemma_word_of_byte};
use crate::kernel::frames::{FrameAllocator, Frame, alloc_frame, free_frame};

verus! {

/// Entries per 4 KiB table (4096 / 8).
pub const ENTRIES: u64 = 512;

/// Descriptor type bits [1:0]: a block (L1/L2) mapping.
pub const DESC_BLOCK: u64 = 0b01;
/// Descriptor type bits [1:0]: a next-level table (L0-L2).
pub const DESC_TABLE: u64 = 0b11;
/// Bit 0: the descriptor is valid.
pub const DESC_VALID: u64 = 0b01;
/// At L3, `0b11` means a page.
pub const DESC_PAGE: u64 = 0b11;

/// Lower attribute: MAIR index 1 (Device memory).
pub const ATTR_IDX_DEVICE: u64 = 0x4;
/// Lower attribute: inner shareable.
pub const SH_INNER: u64 = 0x300;
/// Lower attribute: access flag.
pub const AF: u64 = 0x400;
/// Upper attribute: privileged execute-never.
pub const PXN: u64 = 0x20_0000_0000_0000;
/// Upper attribute: unprivileged execute-never.
pub const UXN: u64 = 0x40_0000_0000_0000;

/// Block flags for Normal cacheable RAM.
pub const NORMAL_BLOCK: u64 = 0x40_0000_0000_0701;
/// Block flags for Device MMIO.
pub const DEVICE_BLOCK: u64 = 0x60_0000_0000_0405;

/// Mask selecting a descriptor's output-address bits [47:12].
pub const ADDR_MASK: u64 = 0x0000_FFFF_FFFF_F000;

/// L3 flags for kernel read/write data.
pub const PAGE_KERNEL_RW: u64 = 0x60_0000_0000_0703;
/// Access permission: EL1 and EL0 read/write.
pub const AP_EL0_RW: u64 = 0x40;
/// Access permission: EL1 and EL0 read-only.
pub const AP_EL0_RO: u64 = 0xC0;
/// L3 flags for user read/write data (EL0 RW, never executable).
pub const PAGE_USER_RW: u64 = 0x60_0000_0000_0743;
/// L3 flags for user code (EL0 read + execute).
pub const PAGE_USER_RX: u64 = 0x20_0000_0000_07C3;

/// Base of RAM on the QEMU `virt` machine.
pub const RAM_BASE: u64 = 0x4000_0000;
/// Size of a 2 MiB block.
pub const BLOCK_2MIB: u64 = 0x20_0000;
/// Number of 2 MiB blocks covering the 128 MiB of RAM.
pub const RAM_BLOCKS: u64 = 64;

/// MAIR: attr0 = Normal write-back, attr1 = Device-nGnRE.
pub const MAIR: u64 = 0x04FF;
/// TCR: 48-bit VA, 4 KiB granule, TTBR1 walks disabled.
pub const TCR: u64 = 0x1_8080_3510;

/// Top of the physical address range descriptors can name (48 bits).
pub const PA_LIMIT: u64 = 0x1_0000_0000_0000;

/// Index into the level-`lvl` table for virtual address `va`.
pub open spec fn va_index(va: u64, lvl: int) -> u64 {
    if lvl == 0 {
        (va >> 39u64) & 0x1FF
    } else if lvl == 1 {
        (va >> 30u64) & 0x1FF
    } else if lvl == 2 {
        (va >> 21u64) & 0x1FF
    } else {
        (va >> 12u64) & 0x1FF
    }
}

/// The descriptor points at a next-level table.
pub open spec fn is_table(e: u64) -> bool {
    e & 3 == 3
}

/// The descriptor is valid.
pub open spec fn is_valid(e: u64) -> bool {
    e & 1 != 0
}

/// Descriptor `i` of the table at `t`.
pub open spec fn entry(mem: PhysMem, t: u64, i: int) -> u64 {
    mem.word(t + 8 * i)
}

/// The table reached from table `t` (at level `lvl`) on the way to `va`, if
/// the descriptor there is a table descriptor.
pub open spec fn next_table(mem: PhysMem, t: u64, va: u64, lvl: int) -> Option<u64> {
    let e = entry(mem, t, va_index(va, lvl) as int);
    if is_table(e) {
        Some(e & ADDR_MASK)
    } else {
        None
    }
}

/// The L3 descriptor for `va` under the L0 table `l0`, if every level above
/// it holds a table descriptor.
pub open spec fn leaf_entry(mem: PhysMem, l0: u64, va: u64) -> Option<u64> {
    match next_table(mem, l0, va, 0) {
        None => None,
        Some(t1) => match next_table(mem, t1, va, 1) {
            None => None,
            Some(t2) => match next_table(mem, t2, va, 2) {
                None => None,
                Some(t3) => Some(entry(mem, t3, va_index(va, 3) as int)),
            },
        },
    }
}

/// What the MMU makes of `va` under `l0`: the physical address, or `None`
/// when `va` is unmapped.
pub open spec fn translation(mem: PhysMem, l0: u64, va: u64) -> Option<u64> {
    match leaf_entry(mem, l0, va) {
        Some(e) => if is_valid(e) {
            Some((e & ADDR_MASK) | (va & 0xFFF))
        } else {
            None
        },
        None => None,
    }
}

/// The descriptor at level `lvl` is a valid block mapping rather than a table.
pub open spec fn is_block(e: u64) -> bool {
    is_valid(e) && !is_table(e)
}

/// Walking to `va` never meets a block descriptor at L0-L2.
pub open spec fn path_has_no_block(mem: PhysMem, l0: u64, va: u64) -> bool {
    &&& !is_block(entry(mem, l0, va_index(va, 0) as int))
    &&& match next_table(mem, l0, va, 0) {
        None => true,
        Some(t1) => {
            &&& !is_block(entry(mem, t1, va_index(va, 1) as int))
            &&& match next_table(mem, t1, va, 1) {
                None => true,
                Some(t2) => !is_block(entry(mem, t2, va_index(va, 2) as int)),
            }
        },
    }
}

/// How many tables mapping `va` under `l0` would have to create.
pub open spec fn tables_needed(mem: PhysMem, l0: u64, va: u64) -> nat {
    match next_table(mem, l0, va, 0) {
        None => 3,
        Some(t1) => match next_table(mem, t1, va, 1) {
            None => 2,
            Some(t2) => match next_table(mem, t2, va, 2) {
                None => 1,
                Some(t3) => 0,
            },
        },
    }
}

/// A table descriptor at `t[i]` points at a recorded table one level down.
pub open spec fn entry_ok(mem: PhysMem, tables: Map<u64, nat>, t: u64, i: int) -> bool {
    let e = entry(mem, t, i);
    is_table(e) ==> tables.dom().contains(e & ADDR_MASK) && tables[e & ADDR_MASK] == tables[t] + 1
}

/// A table descriptor at `t[i]` is the only one pointing at its target table,
/// except that the kernel's L1 may be pointed at from slot 0 of any L0 table
/// (every address space shares the kernel half).
pub open spec fn parent_ok(mem: PhysMem, tables: Map<u64, nat>, parents: Map<u64, (u64, u64)>, kernel_l1: u64, t: u64, i: int) -> bool {
    let e = entry(mem, t, i);
    is_table(e) ==> ((e & ADDR_MASK) == kernel_l1 && i == 0 && tables[t] == 0)
        || parents[e & ADDR_MASK] == (t, i as u64)
}

/// RAM, the frame allocator, and the page tables built in RAM.
pub struct Machine {
    pub mem: PhysMem,
    pub frames: FrameAllocator,
    /// Every page table in RAM, with its level (0 = L0).
    pub tables: Ghost<Map<u64, nat>>,
    /// For each table below L0: the table and slot whose descriptor points at it.
    pub parents: Ghost<Map<u64, (u64, u64)>>,
    /// Physical address of the kernel's L1 table (`0` before `init_mmu`).
    pub kernel_l1: u64,
    /// The boot address-space root (`0` before `init_mmu`).
    pub kernel_ttbr0: u64,
    /// The address-space root last installed by `activate` (`0` before).
    pub installed: u64,
    /// The live `TTBR0_EL1` value.
    pub ttbr0: u64,
}

impl Machine {
    /// The machine invariant.
    pub open spec fn wf(&self) -> bool {
        &&& self.frames.wf(&self.mem)
        &&& self.mem.end() <= PA_LIMIT
        &&& forall|t: u64| #[trigger] self.tables@.dom().contains(t) ==> {
            &&& self.mem.has_frame(t as int)
            &&& self.tables@[t] <= 3
            &&& !self.frames.free_list().contains(t)
        }
        &&& forall|t: u64, i: int|
            self.tables@.dom().contains(t) && self.tables@[t] < 3 && 0 <= i < 512
                ==> #[trigger] entry_ok(self.mem, self.tables@, t, i)
        &&& forall|t: u64, i: int|
            self.tables@.dom().contains(t) && self.tables@[t] < 3 && 0 <= i < 512
                ==> #[trigger] parent_ok(self.mem, self.tables@, self.parents@, self.kernel_l1, t, i)
        &&& self.kernel_l1 != 0 ==> {
            &&& self.tables@.dom().contains(self.kernel_l1)
            &&& self.tables@[self.kernel_l1] == 1
            &&& self.tables@.dom().contains(self.kernel_ttbr0)
            &&& self.tables@[self.kernel_ttbr0] == 0
            &&& entry(self.mem, self.kernel_ttbr0, 0) == self.kernel_l1 | 3
            &&& self.parents@[self.kernel_l1] == (self.kernel_ttbr0, 0u64)
        }
    }

    /// Everything but RAM contents and the table registry is as in `m`
    /// (RAM itself spans the same addresses).
    pub open spec fn same_regs(&self, m: &Machine) -> bool {
        &&& self.mem.base == m.mem.base
        &&& self.mem.words.len() == m.mem.words.len()
        &&& self.kernel_l1 == m.kernel_l1
        &&& self.kernel_ttbr0 == m.kernel_ttbr0
        &&& self.installed == m.installed
        &&& self.ttbr0 == m.ttbr0
    }

    /// Every table of `m` is still a table of the same level.
    pub open spec fn tables_grow(&self, m: &Machine) -> bool {
        forall|t: u64| #[trigger] m.tables@.dom().contains(t)
            ==> self.tables@.dom().contains(t) && self.tables@[t] == m.tables@[t]
    }

    /// `l0` is a recorded L0 table: the root of an address space.
    pub open spec fn is_root(&self, l0: u64) -> bool {
        self.tables@.dom().contains(l0) && self.tables@[l0] == 0
    }

    /// The frames still free.
    pub open spec fn free(&self) -> Seq<u64> {
        self.frames.free_list()
    }

    /// A machine with `size` bytes of zeroed RAM at `base`, every whole frame
    /// of it free, and no page tables yet.
    pub fn new(base: u64, size: u64) -> (m: Machine)
        requires
            base > 0,
            frame_aligned(base as int),
            size % FRAME_SIZE == 0,
            base + size <= PA_LIMIT,
            size / 8 <= usize::MAX,
        ensures
            m.wf(),
            m.mem.base == base,
            m.mem.size() == size,
            m.tables@ == Map::<u64, nat>::empty(),
            m.kernel_l1 == 0 && m.kernel_ttbr0 == 0 && m.installed == 0 && m.ttbr0 == 0,
            m.free() == crate::kernel::frames::region_stack(base as int, (size / FRAME_SIZE) as nat),
    {
        let mut mem = PhysMem::new(base, size);
        let mut frames = FrameAllocator::new();
        crate::kernel::frames::init_frames(&mut frames, &mut mem, base);
        proof {
            let b = base as int;
            assert(crate::kernel::frames::frame_round_up(b) == b) by (nonlinear_arith)
                requires
                    b % 4096 == 0,
                    b >= 0,
            {}
            assert(crate::kernel::frames::region_count(b, b + size) == size / FRAME_SIZE);
            assert(frames.free_list() =~= crate::kernel::frames::region_stack(b, (size / FRAME_SIZE) as nat));
        }
        Machine {
            mem,
            frames,
            tables: Ghost(Map::empty()),
            parents: Ghost(Map::empty()),
            kernel_l1: 0,
            kernel_ttbr0: 0,
            installed: 0,
            ttbr0: 0,
        }
    }
}

impl Machine {
    /// Writing one word keeps the invariant when the word is not the link of a
    /// free frame and, inside an L0-L2 table, replaces a non-table descriptor
    /// by a good one.
    #[verifier::spinoff_prover]
    #[verifier::rlimit(40)]
    proof fn lemma_write_keeps_wf(old_m: Machine, new_m: Machine, a: int, v: u64)
        requires
            old_m.wf(),
            old_m.mem.has_word(a),
            new_m.mem.wf(),
            new_m.mem.base == old_m.mem.base,
            new_m.mem.words@ == old_m.mem.words@.update(old_m.mem.idx(a), v),
            new_m.frames == old_m.frames,
            new_m.tables == old_m.tables,
            new_m.parents == old_m.parents,
            new_m.kernel_l1 == old_m.kernel_l1,
            new_m.kernel_ttbr0 == old_m.kernel_ttbr0,
            forall|i: int| 0 <= i < old_m.free().len() ==> #[trigger] old_m.free()[i] != a,
            forall|t: u64, i: int| old_m.tables@.dom().contains(t) && old_m.tables@[t] < 3 && 0 <= i < 512
                && t + 8 * i == a ==> !is_table(#[trigger] entry(old_m.mem, t, i)) && entry_ok(new_m.mem, new_m.tables@, t, i)
                    && parent_ok(new_m.mem, new_m.tables@, new_m.parents@, new_m.kernel_l1, t, i),
        ensures
            new_m.wf(),
    {
        old_m.frames.lemma_wf_facts(&old_m.mem);
        Machine::lemma_write_other_entries(old_m, new_m, a, v);
        assert forall|i: int| 0 <= i < old_m.free().len()
            implies #[trigger] new_m.mem.word(old_m.free()[i] as int) == old_m.mem.word(old_m.free()[i] as int) by {
            assert(old_m.mem.has_frame(old_m.free()[i] as int));
        }
        old_m.frames.lemma_wf_mem_change(&old_m.mem, &new_m.mem);
        assert forall|t: u64, i: int|
            new_m.tables@.dom().contains(t) && new_m.tables@[t] < 3 && 0 <= i < 512
                implies #[trigger] entry_ok(new_m.mem, new_m.tables@, t, i) by {
            if t + 8 * i != a {
                assert(entry_ok(old_m.mem, old_m.tables@, t, i));
                let e = entry(new_m.mem, t, i);
                assert(e == entry(old_m.mem, t, i));
                if is_table(e) {
                    assert(old_m.tables@.dom().contains(e & ADDR_MASK));
                }
            } else {
                assert(!is_table(entry(old_m.mem, t, i)));
            }
        }
        assert forall|t: u64, i: int|
            new_m.tables@.dom().contains(t) && new_m.tables@[t] < 3 && 0 <= i < 512
                implies #[trigger] parent_ok(new_m.mem, new_m.tables@, new_m.parents@, new_m.kernel_l1, t, i) by {
            if t + 8 * i != a {
                assert(parent_ok(old_m.mem, old_m.tables@, old_m.parents@, old_m.kernel_l1, t, i));
                assert(entry(new_m.mem, t, i) == entry(old_m.mem, t, i));
            } else {
                assert(!is_table(entry(old_m.mem, t, i)));
            }
        }
        if old_m.kernel_l1 != 0 {
            assert(old_m.mem.has_frame(old_m.kernel_ttbr0 as int));
            if old_m.kernel_ttbr0 as int == a {
                lemma_table_desc(old_m.kernel_l1);
                assert(old_m.mem.has_frame(old_m.kernel_l1 as int));
                assert(!is_table(entry(old_m.mem, old_m.kernel_ttbr0, 0)));
            }
        }
    }

    /// A one-word write leaves every other descriptor of every table as it was.
    proof fn lemma_write_other_entries(old_m: Machine, new_m: Machine, a: int, v: u64)
        requires
            old_m.wf(),
            old_m.mem.has_word(a),
            new_m.mem.base == old_m.mem.base,
            new_m.mem.words@ == old_m.mem.words@.update(old_m.mem.idx(a), v),
        ensures
            forall|t: u64, i: int| old_m.tables@.dom().contains(t) && 0 <= i < 512 && t + 8 * i != a
                ==> #[trigger] entry(new_m.mem, t, i) == entry(old_m.mem, t, i),
    {
        assert forall|t: u64, i: int| old_m.tables@.dom().contains(t) && 0 <= i < 512 && t + 8 * i != a
            implies #[trigger] entry(new_m.mem, t, i) == entry(old_m.mem, t, i) by {
            assert(old_m.mem.has_frame(t as int));
        }
    }

    /// Zeroing a frame that is neither free nor a table keeps the invariant.
    proof fn lemma_zero_keeps_wf(old_m: Machine, new_m: Machine, f: u64)
        requires
            old_m.wf(),
            old_m.mem.has_frame(f as int),
            !old_m.tables@.dom().contains(f),
            !old_m.free().contains(f),
            new_m.mem.wf(),
            new_m.mem.base == old_m.mem.base,
            new_m.mem.words.len() == old_m.mem.words.len(),
            forall|i: int| 0 <= i < old_m.mem.words.len()
                && !(old_m.mem.idx(f as int) <= i < old_m.mem.idx(f as int) + 512)
                ==> #[trigger] new_m.mem.words@[i] == old_m.mem.words@[i],
            new_m.frames == old_m.frames,
            new_m.tables == old_m.tables,
            new_m.parents == old_m.parents,
            new_m.kernel_l1 == old_m.kernel_l1,
            new_m.kernel_ttbr0 == old_m.kernel_ttbr0,
        ensures
            new_m.wf(),
            forall|t: u64, i: int| old_m.tables@.dom().contains(t) && 0 <= i < 512
                ==> #[trigger] entry(new_m.mem, t, i) == entry(old_m.mem, t, i),
    {
        let base = old_m.mem.base as int;
        old_m.frames.lemma_wf_facts(&old_m.mem);
        assert forall|i: int| 0 <= i < old_m.free().len()
            implies #[trigger] new_m.mem.word(old_m.free()[i] as int) == old_m.mem.word(old_m.free()[i] as int) by {
            let g = old_m.free()[i];
            assert(old_m.mem.has_frame(g as int));
            lemma_idx_in_frame(base, g as int, g as int);
            if old_m.mem.idx(f as int) <= old_m.mem.idx(g as int) < old_m.mem.idx(f as int) + 512 {
                lemma_frames_disjoint(base, f as int, g as int, f as int + 8 * (old_m.mem.idx(g as int) - old_m.mem.idx(f as int)), g as int);
            }
        }
        old_m.frames.lemma_wf_mem_change(&old_m.mem, &new_m.mem);
        assert forall|t: u64, i: int| old_m.tables@.dom().contains(t) && 0 <= i < 512
            implies #[trigger] entry(new_m.mem, t, i) == entry(old_m.mem, t, i) by {
            assert(old_m.mem.has_frame(t as int));
            lemma_idx_in_frame(base, t as int, t + 8 * i);
            if old_m.mem.idx(f as int) <= old_m.mem.idx(t + 8 * i) < old_m.mem.idx(f as int) + 512 {
                lemma_frames_disjoint(base, f as int, t as int, f as int + 8 * (old_m.mem.idx(t + 8 * i) - old_m.mem.idx(f as int)), t + 8 * i);
            }
        }
        assert forall|t: u64, i: int|
            new_m.tables@.dom().contains(t) && new_m.tables@[t] < 3 && 0 <= i < 512
                implies #[trigger] entry_ok(new_m.mem, new_m.tables@, t, i) by {
            assert(new_m.tables@ == old_m.tables@);
            assert(old_m.tables@.dom().contains(t));
            assert(entry_ok(old_m.mem, old_m.tables@, t, i));
            let e = entry(new_m.mem, t, i);
            assert(e == entry(old_m.mem, t, i));
            if is_table(e) {
                assert(old_m.tables@.dom().contains(e & ADDR_MASK));
            }
        }
        assert forall|t: u64, i: int|
            new_m.tables@.dom().contains(t) && new_m.tables@[t] < 3 && 0 <= i < 512
                implies #[trigger] parent_ok(new_m.mem, new_m.tables@, new_m.parents@, new_m.kernel_l1, t, i) by {
            assert(parent_ok(old_m.mem, old_m.tables@, old_m.parents@, old_m.kernel_l1, t, i));
            assert(entry(new_m.mem, t, i) == entry(old_m.mem, t, i));
        }
        if old_m.kernel_l1 != 0 {
            assert(entry(new_m.mem, old_m.kernel_ttbr0, 0) == entry(old_m.mem, old_m.kernel_ttbr0, 0));
        }
    }
}

impl Machine {
    /// Allocate a frame and zero it for use as a page table.
    fn alloc_table(&mut self) -> (t: u64)
        requires
            old(self).wf(),
            old(self).free().len() > 0,
        ensures
            final(self).wf(),
            t == old(self).free()[0],
            final(self).free() == old(self).free().drop_first(),
            final(self).tables == old(self).tables,
            final(self).parents == old(self).parents,
            final(self).same_regs(old(self)),
            final(self).mem.has_frame(t as int),
            !old(self).tables@.dom().contains(t),
            !final(self).free().contains(t),
            final(self).mem.base == old(self).mem.base,
            final(self).mem.words.len() == old(self).mem.words.len(),
            forall|i: int| 0 <= i < 512 ==> #[trigger] entry(final(self).mem, t, i) == 0,
            forall|t2: u64, i: int| old(self).tables@.dom().contains(t2) && 0 <= i < 512
                ==> #[trigger] entry(final(self).mem, t2, i) == entry(old(self).mem, t2, i),
            forall|g: u64| old(self).mem.has_frame(g as int) && g != t
                ==> #[trigger] final(self).mem.frame_kept(&old(self).mem, g),
    {
        let ghost m0 = *self;
        proof { self.frames.lemma_wf_facts(&self.mem); }
        let frame = alloc_frame(&mut self.frames, &self.mem);
        let t = frame.unwrap().addr();
        proof {
            assert(m0.mem.has_frame(t as int));
            assert(!m0.tables@.dom().contains(t)) by {
                if m0.tables@.dom().contains(t) { assert(m0.free().contains(t)); }
            }
            assert(!self.free().contains(t)) by {
                if self.free().contains(t) {
                    let j = choose|j: int| 0 <= j < self.free().len() && self.free()[j] == t;
                    assert(m0.free()[j + 1] == m0.free()[0]);
                }
            }
            assert forall|u: u64| #[trigger] self.tables@.dom().contains(u) implies !self.free().contains(u) by {
                if self.free().contains(u) {
                    let j = choose|j: int| 0 <= j < self.free().len() && self.free()[j] == u;
                    assert(m0.free()[j + 1] == u);
                }
            }
        }
        let ghost m1 = *self;
        self.mem.zero_frame(t);
        proof {
            Machine::lemma_zero_keeps_wf(m1, *self, t);
            assert forall|i: int| 0 <= i < 512 implies #[trigger] entry(self.mem, t, i) == 0 by {
                assert(t <= t + 8 * i < t + FRAME_SIZE);
            }
        }
        t
    }

    /// Follow the table descriptor at `table[index]` (a level-`lvl` table),
    /// allocating and installing a fresh next-level table if the slot is empty.
    fn get_or_create(&mut self, table: u64, index: u64, Ghost(lvl): Ghost<nat>) -> (next: u64)
        requires
            old(self).wf(),
            old(self).tables@.dom().contains(table),
            old(self).tables@[table] == lvl,
            lvl < 3,
            index < 512,
            !is_block(entry(old(self).mem, table, index as int)),
            !is_table(entry(old(self).mem, table, index as int)) ==> old(self).free().len() > 0,
        ensures
            final(self).wf(),
            final(self).same_regs(old(self)),
            final(self).tables_grow(old(self)),
            final(self).tables@.dom().contains(next),
            final(self).tables@[next] == lvl + 1,
            is_table(entry(final(self).mem, table, index as int)),
            entry(final(self).mem, table, index as int) & ADDR_MASK == next,
            is_table(entry(old(self).mem, table, index as int)) ==> *final(self) == *old(self)
                && next == entry(old(self).mem, table, index as int) & ADDR_MASK,
            !is_table(entry(old(self).mem, table, index as int)) ==> {
                &&& next == old(self).free()[0]
                &&& final(self).free() == old(self).free().drop_first()
                &&& final(self).tables@ == old(self).tables@.insert(next, lvl + 1)
                &&& final(self).parents@ == old(self).parents@.insert(next, (table, index))
                &&& !old(self).tables@.dom().contains(next)
                &&& forall|i: int| 0 <= i < 512 ==> #[trigger] entry(final(self).mem, next, i) == 0
            },
            forall|t2: u64, i: int| old(self).tables@.dom().contains(t2) && 0 <= i < 512
                && !(t2 == table && i == index) ==> #[trigger] entry(final(self).mem, t2, i) == entry(old(self).mem, t2, i),
            final(self).free().len() + tables_delta(old(self), table, index) == old(self).free().len(),
            forall|g: u64| old(self).mem.has_frame(g as int) && !final(self).tables@.dom().contains(g)
                ==> #[trigger] final(self).mem.frame_kept(&old(self).mem, g),
    {
        proof {
            self.frames.lemma_wf_facts(&self.mem);
            assert(self.mem.has_frame(table as int));
        }
        let e = self.mem.read_u64(table + 8 * index);
        if e & DESC_VALID != 0 {
            // A valid descriptor on the way down must be a table.
            proof {
                assert(entry_ok(self.mem, self.tables@, table, index as int));
                assert(e & 3 == 3);
            }
            e & ADDR_MASK
        } else {
            let ghost m0 = *self;
            proof {
                assert(e & 3 == 3 ==> e & 1 != 0) by (bit_vector);
            }
            let next = self.alloc_table();
            self.register_table(next, Ghost(lvl + 1), Ghost((table, index)));
            proof {
                lemma_table_desc(next);
                assert(self.mem.has_frame(next as int));
                assert(entry(self.mem, table, index as int) == entry(m0.mem, table, index as int));
            }
            let ghost m1 = *self;
            self.write_desc(table, index, next | DESC_TABLE);
            proof {
                assert forall|i: int| 0 <= i < 512 implies #[trigger] entry(self.mem, next, i) == 0 by {
                    assert(entry(m1.mem, next, i) == 0);
                }
                assert(self.free() == m0.free().drop_first());
                assert(self.tables@ == m0.tables@.insert(next, lvl + 1));
                assert(self.parents@ == m0.parents@.insert(next, (table, index)));
                assert forall|g: u64| m0.mem.has_frame(g as int) && !self.tables@.dom().contains(g)
                    implies #[trigger] self.mem.frame_kept(&m0.mem, g) by {
                    assert(m1.mem.frame_kept(&m0.mem, g));
                    assert(self.mem.frame_kept(&m1.mem, g));
                    assert forall|x: int| g <= x < g + FRAME_SIZE implies #[trigger] self.mem.byte(x) == m0.mem.byte(x) by {
                        assert(self.mem.byte(x) == m1.mem.byte(x));
                        assert(m1.mem.byte(x) == m0.mem.byte(x));
                    }
                }
            }
            next
        }
    }
}

impl Machine {
    /// Write the descriptor `v` into slot `i` of the level-3 table `t`.
    #[verifier::spinoff_prover]
    #[verifier::rlimit(30)]
    fn write_leaf(&mut self, t: u64, i: u64, v: u64)
        requires
            old(self).wf(),
            old(self).tables@.dom().contains(t),
            old(self).tables@[t] == 3,
            i < 512,
        ensures
            final(self).wf(),
            final(self).same_regs(old(self)),
            final(self).tables == old(self).tables,
            final(self).parents == old(self).parents,
            final(self).frames == old(self).frames,
            entry(final(self).mem, t, i as int) == v,
            forall|t2: u64, j: int| old(self).tables@.dom().contains(t2) && 0 <= j < 512
                && !(t2 == t && j == i) ==> #[trigger] entry(final(self).mem, t2, j) == entry(old(self).mem, t2, j),
            forall|g: u64| old(self).mem.has_frame(g as int) && g != t
                ==> #[trigger] final(self).mem.frame_kept(&old(self).mem, g),
    {
        let ghost m0 = *self;
        proof {
            self.frames.lemma_wf_facts(&self.mem);
            assert(self.mem.has_frame(t as int));
            assert forall|k: int| 0 <= k < self.free().len() implies #[trigger] self.free()[k] != t + 8 * i by {
                let g = self.free()[k];
                assert(self.mem.has_frame(g as int));
                if g == t + 8 * i {
                    assert(g == t);
                    assert(self.free().contains(t));
                }
            }
            assert forall|t2: u64, j: int| self.tables@.dom().contains(t2) && self.tables@[t2] < 3 && 0 <= j < 512
                && t2 + 8 * j == t + 8 * i implies !is_table(#[trigger] entry(self.mem, t2, j)) by {
                lemma_frames_disjoint(self.mem.base as int, t2 as int, t as int, t2 + 8 * j, t + 8 * i);
            }
        }
        self.mem.write_u64(t + 8 * i, v);
        proof {
            assert forall|g: u64| m0.mem.has_frame(g as int) && g != t
                implies #[trigger] self.mem.frame_kept(&m0.mem, g) by {
                if g <= t + 8 * i < g + FRAME_SIZE {
                    lemma_one_frame(g as int, t as int, t + 8 * i);
                }
            }
            Machine::lemma_write_keeps_wf(m0, *self, t + 8 * i, v);
            assert forall|t2: u64, j: int| m0.tables@.dom().contains(t2) && 0 <= j < 512
                && !(t2 == t && j == i) implies #[trigger] entry(self.mem, t2, j) == entry(m0.mem, t2, j) by {
                assert(m0.mem.has_frame(t2 as int));
                if t2 != t {
                    lemma_frames_disjoint(self.mem.base as int, t2 as int, t as int, t2 + 8 * j, t + 8 * i);
                }
            }
        }
    }

    /// Map one 4 KiB page into the address space rooted at `l0`: virtual `va`
    /// to physical `pa` with descriptor `flags`, creating any missing
    /// intermediate tables.
    pub fn map_page_in(&mut self, l0: u64, va: u64, pa: u64, flags: u64)
        requires
            old(self).wf(),
            old(self).is_root(l0),
            path_has_no_block(old(self).mem, l0, va),
            tables_needed(old(self).mem, l0, va) <= old(self).free().len(),
        ensures
            final(self).wf(),
            final(self).same_regs(old(self)),
            final(self).tables_grow(old(self)),
            leaf_entry(final(self).mem, l0, va) == Some((pa & ADDR_MASK) | flags),
            final(self).free().len() + tables_needed(old(self).mem, l0, va) == old(self).free().len(),
            final(self).free() == old(self).free().subrange(tables_needed(old(self).mem, l0, va) as int,
                old(self).free().len() as int),
            forall|t: u64| #[trigger] final(self).tables@.dom().contains(t) ==> old(self).tables@.dom().contains(t)
                || old(self).free().subrange(0, tables_needed(old(self).mem, l0, va) as int).contains(t),
            forall|va2: u64| !same_page(va, va2)
                ==> #[trigger] translation(final(self).mem, l0, va2) == translation(old(self).mem, l0, va2),
            forall|va2: u64| !same_page(va, va2) && leaf_entry(old(self).mem, l0, va2) is Some
                ==> #[trigger] leaf_entry(final(self).mem, l0, va2) == leaf_entry(old(self).mem, l0, va2),
            forall|va2: u64| path_has_no_block(old(self).mem, l0, va2)
                ==> #[trigger] path_has_no_block(final(self).mem, l0, va2),
            forall|g: u64| old(self).mem.has_frame(g as int) && !final(self).tables@.dom().contains(g)
                ==> #[trigger] final(self).mem.frame_kept(&old(self).mem, g),
            old(self).kernel_l1 != 0 && va_index(va, 0) != 0 ==> others_kept(*old(self), *final(self), l0),
    {
        let i0 = index_at(va, 0);
        let i1 = index_at(va, 1);
        let i2 = index_at(va, 2);
        let i3 = index_at(va, 3);
        let ghost m0 = *self;
        proof {
            lemma_zero_desc();
            m0.frames.lemma_wf_facts(&m0.mem);
            assert(m0.mem.has_frame(l0 as int));
        }
        let l1 = self.get_or_create(l0, i0, Ghost(0));
        let ghost m1 = *self;
        proof {
            if !is_table(entry(m0.mem, l0, i0 as int)) {
                assert(entry(m1.mem, l1, i1 as int) == 0);
            }
        }
        let l2 = self.get_or_create(l1, i1, Ghost(1));
        let ghost m2 = *self;
        proof {
            if !is_table(entry(m1.mem, l1, i1 as int)) {
                assert(entry(m2.mem, l2, i2 as int) == 0);
            } else if is_table(entry(m0.mem, l0, i0 as int)) {
                assert(m1 == m0);
                assert(m2 == m1);
            }
        }
        let l3 = self.get_or_create(l2, i2, Ghost(2));
        let ghost m3 = *self;
        self.write_leaf(l3, i3, (pa & ADDR_MASK) | flags);
        proof {
            let d = tables_needed(m0.mem, l0, va) as int;
            let f0 = m0.free();
            assert(self.free() =~= f0.subrange(d, f0.len() as int));
            assert forall|t: u64| #[trigger] self.tables@.dom().contains(t) implies m0.tables@.dom().contains(t)
                || f0.subrange(0, d).contains(t) by {
                if !m0.tables@.dom().contains(t) {
                    if t == l1 && !m1.free().contains(t) && m1.free() != f0 {
                        assert(f0.subrange(0, d)[0] == t);
                    } else if t == l2 && !m0.tables@.dom().contains(l2) && !m1.tables@.dom().contains(l2) {
                        assert(m1.free()[0] == l2);
                        let j = f0.len() - m1.free().len();
                        assert(f0[j] == l2);
                        assert(f0.subrange(0, d)[j] == t);
                    } else if t == l3 && !m2.tables@.dom().contains(l3) {
                        assert(m2.free()[0] == l3);
                        let j = f0.len() - m2.free().len();
                        assert(f0[j] == l3);
                        assert(f0.subrange(0, d)[j] == t);
                    } else if t == l2 {
                        let j = f0.len() - m1.free().len();
                        assert(f0[j] == l2);
                        assert(f0.subrange(0, d)[j] == t);
                    } else {
                        assert(f0.subrange(0, d)[0] == t);
                    }
                }
            }
            assert(l0 != l1 && l1 != l2 && l2 != l3 && l0 != l2 && l0 != l3 && l1 != l3);
            assert(entry(self.mem, l0, i0 as int) == entry(m1.mem, l0, i0 as int));
            assert(entry(self.mem, l1, i1 as int) == entry(m2.mem, l1, i1 as int));
            assert(entry(self.mem, l2, i2 as int) == entry(m3.mem, l2, i2 as int));
            assert(entry(m3.mem, l0, i0 as int) == entry(m1.mem, l0, i0 as int));
            assert(entry(m3.mem, l1, i1 as int) == entry(m2.mem, l1, i1 as int));
            assert(walk3(m3.mem, l0, va) == Some(l3));
            assert forall|va2: u64| !same_page(va, va2)
                implies #[trigger] translation(self.mem, l0, va2) == translation(m0.mem, l0, va2) by {
                if !is_table(entry(m0.mem, l0, i0 as int)) {
                    lemma_fresh_table(m0, m1.mem, l0, i0 as int, l1, l0, va2);
                }
                if !is_table(entry(m1.mem, l1, i1 as int)) {
                    lemma_fresh_table(m1, m2.mem, l1, i1 as int, l2, l0, va2);
                }
                if !is_table(entry(m2.mem, l2, i2 as int)) {
                    lemma_fresh_table(m2, m3.mem, l2, i2 as int, l3, l0, va2);
                }
                if walk3(m3.mem, l0, va2) == Some(l3) && va_index(va2, 3) == i3 {
                    lemma_same_l3(m3, l0, va, va2);
                }
                lemma_leaf_write_others(m3, self.mem, l3, i3 as int, l0, va2);
            }
            assert forall|va2: u64| !same_page(va, va2) && leaf_entry(m0.mem, l0, va2) is Some
                implies #[trigger] leaf_entry(self.mem, l0, va2) == leaf_entry(m0.mem, l0, va2) by {
                if !is_table(entry(m0.mem, l0, i0 as int)) {
                    lemma_fresh_table(m0, m1.mem, l0, i0 as int, l1, l0, va2);
                }
                if !is_table(entry(m1.mem, l1, i1 as int)) {
                    lemma_fresh_table(m1, m2.mem, l1, i1 as int, l2, l0, va2);
                }
                if !is_table(entry(m2.mem, l2, i2 as int)) {
                    lemma_fresh_table(m2, m3.mem, l2, i2 as int, l3, l0, va2);
                }
                if walk3(m3.mem, l0, va2) == Some(l3) && va_index(va2, 3) == i3 {
                    lemma_same_l3(m3, l0, va, va2);
                }
                lemma_leaf_write_others(m3, self.mem, l3, i3 as int, l0, va2);
            }
            assert forall|va2: u64| path_has_no_block(m0.mem, l0, va2)
                implies #[trigger] path_has_no_block(self.mem, l0, va2) by {
                if !is_table(entry(m0.mem, l0, i0 as int)) {
                    lemma_fresh_table(m0, m1.mem, l0, i0 as int, l1, l0, va2);
                }
                if !is_table(entry(m1.mem, l1, i1 as int)) {
                    lemma_fresh_table(m1, m2.mem, l1, i1 as int, l2, l0, va2);
                }
                if !is_table(entry(m2.mem, l2, i2 as int)) {
                    lemma_fresh_table(m2, m3.mem, l2, i2 as int, l3, l0, va2);
                }
                lemma_leaf_write_others(m3, self.mem, l3, i3 as int, l0, va2);
            }
            assert forall|t: u64, j: int| m0.tables@.dom().contains(t) && 0 <= j < 512
                && !(t == l0 && j == i0) && !(t == l1 && j == i1) && !(t == l2 && j == i2) && !(t == l3 && j == i3)
                implies #[trigger] entry(self.mem, t, j) == entry(m0.mem, t, j) by {
                assert(m1.tables@.dom().contains(t));
                assert(m2.tables@.dom().contains(t));
                assert(m3.tables@.dom().contains(t));
                assert(entry(m1.mem, t, j) == entry(m0.mem, t, j));
                assert(entry(m2.mem, t, j) == entry(m1.mem, t, j));
                assert(entry(m3.mem, t, j) == entry(m2.mem, t, j));
            }
            if m0.tables@.dom().contains(l2) {
                if !m0.tables@.dom().contains(l1) {
                    assert(entry(m1.mem, l1, i1 as int) == 0);
                    assert(!is_table(0u64)) by { lemma_zero_desc(); }
                }
                assert(entry(m1.mem, l1, i1 as int) == entry(m0.mem, l1, i1 as int));
            }
            if m0.tables@.dom().contains(l3) {
                assert(m1.tables@.dom().contains(l3));
                if !m1.tables@.dom().contains(l2) {
                    assert(entry(m2.mem, l2, i2 as int) == 0);
                    assert(!is_table(0u64)) by { lemma_zero_desc(); }
                }
                if !m0.tables@.dom().contains(l2) {
                    assert(entry(m2.mem, l2, i2 as int) == entry(m1.mem, l2, i2 as int));
                    assert(entry(m1.mem, l2, i2 as int) == 0);
                    assert(!is_table(0u64)) by { lemma_zero_desc(); }
                }
                assert(entry(m2.mem, l2, i2 as int) == entry(m1.mem, l2, i2 as int));
                assert(entry(m1.mem, l2, i2 as int) == entry(m0.mem, l2, i2 as int));
            }
            assert forall|r: u64, va2: u64| m0.kernel_l1 != 0 && va_index(va, 0) != 0 && m0.is_root(r) && r != l0
                implies #[trigger] translation(self.mem, r, va2) == translation(m0.mem, r, va2) by {
                lemma_other_root_unchanged(m0, self.mem, l0, va, l1, l2, l3, r, va2);
            }
            assert forall|g: u64| m0.mem.has_frame(g as int) && !self.tables@.dom().contains(g)
                implies #[trigger] self.mem.frame_kept(&m0.mem, g) by {
                assert(m1.mem.frame_kept(&m0.mem, g));
                assert(m2.mem.frame_kept(&m1.mem, g));
                assert(m3.mem.frame_kept(&m2.mem, g));
                assert(self.mem.frame_kept(&m3.mem, g));
                assert forall|x: int| g <= x < g + FRAME_SIZE implies #[trigger] self.mem.byte(x) == m0.mem.byte(x) by {
                    assert(self.mem.byte(x) == m3.mem.byte(x));
                    assert(m3.mem.byte(x) == m2.mem.byte(x));
                    assert(m2.mem.byte(x) == m1.mem.byte(x));
                    assert(m1.mem.byte(x) == m0.mem.byte(x));
                }
            }
        }
    }

    /// Remove the 4 KiB mapping at `va` in the address space rooted at `l0`:
    /// clear its L3 descriptor. No change if some level of the walk is absent.
    pub fn unmap_page_in(&mut self, l0: u64, va: u64)
        requires
            old(self).wf(),
            old(self).is_root(l0),
        ensures
            final(self).wf(),
            final(self).same_regs(old(self)),
            final(self).tables == old(self).tables,
            final(self).parents == old(self).parents,
            final(self).frames == old(self).frames,
            leaf_entry(old(self).mem, l0, va) is None ==> final(self).mem == old(self).mem,
            leaf_entry(old(self).mem, l0, va) is Some ==> leaf_entry(final(self).mem, l0, va) == Some(0u64),
            translation(final(self).mem, l0, va) is None,
            forall|va2: u64| !same_page(va, va2)
                ==> #[trigger] translation(final(self).mem, l0, va2) == translation(old(self).mem, l0, va2),
            old(self).kernel_l1 != 0 && va_index(va, 0) != 0 ==> others_kept(*old(self), *final(self), l0),
    {
        let ghost m0 = *self;
        proof { lemma_zero_desc(); }
        let t1 = match self.walk_step(l0, va, 0) {
            Some(t) => t,
            None => return,
        };
        let t2 = match self.walk_step(t1, va, 1) {
            Some(t) => t,
            None => return,
        };
        let t3 = match self.walk_step(t2, va, 2) {
            Some(t) => t,
            None => return,
        };
        let i3 = index_at(va, 3);
        self.write_leaf(t3, i3, 0);
        proof {
            lemma_index_bound(va, 0);
            lemma_index_bound(va, 1);
            lemma_index_bound(va, 2);
            assert(l0 != t1 && t1 != t2 && t2 != t3 && l0 != t2 && l0 != t3 && t1 != t3);
            assert(entry(self.mem, l0, va_index(va, 0) as int) == entry(m0.mem, l0, va_index(va, 0) as int));
            assert(entry(self.mem, t1, va_index(va, 1) as int) == entry(m0.mem, t1, va_index(va, 1) as int));
            assert(entry(self.mem, t2, va_index(va, 2) as int) == entry(m0.mem, t2, va_index(va, 2) as int));
            assert(walk3(m0.mem, l0, va) == Some(t3));
            assert forall|va2: u64| !same_page(va, va2)
                implies #[trigger] translation(self.mem, l0, va2) == translation(m0.mem, l0, va2) by {
                if walk3(m0.mem, l0, va2) == Some(t3) && va_index(va2, 3) == i3 {
                    lemma_same_l3(m0, l0, va, va2);
                }
                lemma_leaf_write_others(m0, self.mem, t3, i3 as int, l0, va2);
            }
            assert forall|r: u64, va2: u64| m0.kernel_l1 != 0 && va_index(va, 0) != 0 && m0.is_root(r) && r != l0
                implies #[trigger] translation(self.mem, r, va2) == translation(m0.mem, r, va2) by {
                lemma_other_root_unchanged(m0, self.mem, l0, va, t1, t2, t3, r, va2);
            }
        }
    }

    /// One step of a read-only walk: the level-`lvl + 1` table that `table`
    /// (a level-`lvl` table) leads to on the way to `va`.
    fn walk_step(&self, table: u64, va: u64, lvl: u64) -> (r: Option<u64>)
        requires
            self.wf(),
            self.tables@.dom().contains(table),
            self.tables@[table] == lvl,
            lvl < 3,
        ensures
            r == next_table(self.mem, table, va, lvl as int),
            r matches Some(t) ==> self.tables@.dom().contains(t) && self.tables@[t] == lvl + 1,
    {
        proof {
            self.frames.lemma_wf_facts(&self.mem);
            assert(self.mem.has_frame(table as int));
        }
        let index = index_at(va, lvl);
        let e = self.mem.read_u64(table + 8 * index);
        if e & DESC_TABLE != DESC_TABLE {
            return None;
        }
        assert(entry_ok(self.mem, self.tables@, table, index as int));
        Some(e & ADDR_MASK)
    }

    /// How many page tables mapping `va` under `l0` would have to create.
    pub(crate) fn tables_to_create(&self, l0: u64, va: u64) -> (n: u64)
        requires
            self.wf(),
            self.is_root(l0),
        ensures
            n == tables_needed(self.mem, l0, va),
            n <= 3,
    {
        let t1 = match self.walk_step(l0, va, 0) {
            Some(t) => t,
            None => return 3,
        };
        let t2 = match self.walk_step(t1, va, 1) {
            Some(t) => t,
            None => return 2,
        };
        match self.walk_step(t2, va, 2) {
            Some(_) => 0,
            None => 1,
        }
    }

    /// The number of frames still free.
    pub fn free_frames(&self) -> (n: u64)
        requires
            self.wf(),
        ensures
            n == self.free().len(),
    {
        crate::kernel::frames::free_frame_count(&self.frames, &self.mem)
    }

    /// Translate `va` in the address space rooted at `ttbr0` to a physical
    /// address, or `None` if unmapped. Walks the tables read-only.
    pub fn translate(&self, ttbr0: u64, va: u64) -> (r: Option<u64>)
        requires
            self.wf(),
            self.is_root(ttbr0 & ADDR_MASK),
        ensures
            r == translation(self.mem, ttbr0 & ADDR_MASK, va),
    {
        proof { self.frames.lemma_wf_facts(&self.mem); }
        let l0 = l0_ptr(ttbr0);
        let t1 = match self.walk_step(l0, va, 0) {
            Some(t) => t,
            None => return None,
        };
        let t2 = match self.walk_step(t1, va, 1) {
            Some(t) => t,
            None => return None,
        };
        let t3 = match self.walk_step(t2, va, 2) {
            Some(t) => t,
            None => return None,
        };
        let i3 = index_at(va, 3);
        assert(self.mem.has_frame(t3 as int));
        let e = self.mem.read_u64(t3 + 8 * i3);
        if e & DESC_VALID == 0 {
            return None;
        }
        Some((e & ADDR_MASK) | (va & 0xFFF))
    }
}

impl Machine {
    /// Write descriptor `v` into slot `i` of the L0-L2 table `t`, replacing a
    /// non-table descriptor.
    #[verifier::spinoff_prover]
    #[verifier::rlimit(30)]
    fn write_desc(&mut self, t: u64, i: u64, v: u64)
        requires
            old(self).wf(),
            old(self).tables@.dom().contains(t),
            old(self).tables@[t] < 3,
            i < 512,
            !is_table(entry(old(self).mem, t, i as int)),
            is_table(v) ==> old(self).tables@.dom().contains(v & ADDR_MASK)
                && old(self).tables@[v & ADDR_MASK] == old(self).tables@[t] + 1,
            is_table(v) ==> ((v & ADDR_MASK) == old(self).kernel_l1 && i == 0 && old(self).tables@[t] == 0)
                || old(self).parents@[v & ADDR_MASK] == (t, i),
        ensures
            final(self).wf(),
            final(self).same_regs(old(self)),
            final(self).tables == old(self).tables,
            final(self).parents == old(self).parents,
            final(self).frames == old(self).frames,
            entry(final(self).mem, t, i as int) == v,
            forall|t2: u64, j: int| old(self).tables@.dom().contains(t2) && 0 <= j < 512
                && !(t2 == t && j == i) ==> #[trigger] entry(final(self).mem, t2, j) == entry(old(self).mem, t2, j),
            forall|g: u64| old(self).mem.has_frame(g as int) && g != t
                ==> #[trigger] final(self).mem.frame_kept(&old(self).mem, g),
    {
        let ghost m0 = *self;
        proof {
            self.frames.lemma_wf_facts(&self.mem);
            assert(self.mem.has_frame(t as int));
            assert forall|k: int| 0 <= k < self.free().len() implies #[trigger] self.free()[k] != t + 8 * i by {
                let g = self.free()[k];
                assert(self.mem.has_frame(g as int));
                if g == t + 8 * i {
                    assert(g == t);
                    assert(self.free().contains(t));
                }
            }
            assert forall|t2: u64, j: int| self.tables@.dom().contains(t2) && self.tables@[t2] < 3 && 0 <= j < 512
                && t2 + 8 * j == t + 8 * i implies !is_table(#[trigger] entry(self.mem, t2, j)) by {
                if t2 != t {
                    lemma_frames_disjoint(self.mem.base as int, t2 as int, t as int, t2 + 8 * j, t + 8 * i);
                }
            }
        }
        self.mem.write_u64(t + 8 * i, v);
        proof {
            assert forall|g: u64| m0.mem.has_frame(g as int) && g != t
                implies #[trigger] self.mem.frame_kept(&m0.mem, g) by {
                if g <= t + 8 * i < g + FRAME_SIZE {
                    lemma_one_frame(g as int, t as int, t + 8 * i);
                }
            }
            assert forall|t2: u64, j: int| m0.tables@.dom().contains(t2) && m0.tables@[t2] < 3 && 0 <= j < 512
                && t2 + 8 * j == t + 8 * i implies entry_ok(self.mem, self.tables@, t2, j)
                    && parent_ok(self.mem, self.tables@, self.parents@, self.kernel_l1, t2, j) by {
                if t2 != t {
                    lemma_frames_disjoint(self.mem.base as int, t2 as int, t as int, t2 + 8 * j, t + 8 * i);
                }
                assert(entry(self.mem, t, i as int) == v);
            }
            Machine::lemma_write_keeps_wf(m0, *self, t + 8 * i, v);
            assert forall|t2: u64, j: int| m0.tables@.dom().contains(t2) && 0 <= j < 512
                && !(t2 == t && j == i) implies #[trigger] entry(self.mem, t2, j) == entry(m0.mem, t2, j) by {
                assert(m0.mem.has_frame(t2 as int));
                if t2 != t {
                    lemma_frames_disjoint(self.mem.base as int, t2 as int, t as int, t2 + 8 * j, t + 8 * i);
                }
            }
        }
    }

    /// Build the identity-map tables (L0 -> L1 -> L2): the device region as
    /// one 1 GiB Device block, the 128 MiB of RAM as 64 Normal 2 MiB blocks.
    /// Records the kernel L1 and the boot root and installs the latter as the
    /// live `TTBR0`; returns the root. Call once.
    pub fn init_mmu(&mut self) -> (ttbr0: u64)
        requires
            old(self).wf(),
            old(self).kernel_l1 == 0,
            old(self).free().len() >= 3,
        ensures
            final(self).wf(),
            final(self).free() == old(self).free().subrange(3, old(self).free().len() as int),
            ttbr0 == old(self).free()[0],
            final(self).kernel_ttbr0 == ttbr0,
            final(self).kernel_l1 == old(self).free()[1],
            final(self).ttbr0 == ttbr0,
            final(self).installed == old(self).installed,
            final(self).is_root(ttbr0),
            final(self).tables_grow(old(self)),
            ({
                let l1 = old(self).free()[1];
                let l2 = old(self).free()[2];
                &&& entry(final(self).mem, ttbr0, 0) == l1 | DESC_TABLE
                &&& forall|i: int| 1 <= i < 512 ==> #[trigger] entry(final(self).mem, ttbr0, i) == 0
                &&& entry(final(self).mem, l1, 0) == DEVICE_BLOCK
                &&& entry(final(self).mem, l1, 1) == l2 | DESC_TABLE
                &&& forall|i: int| 2 <= i < 512 ==> #[trigger] entry(final(self).mem, l1, i) == 0
                &&& forall|i: int| 0 <= i < 64 ==> #[trigger] entry(final(self).mem, l2, i)
                        == (RAM_BASE + i * BLOCK_2MIB) as u64 | NORMAL_BLOCK
                &&& forall|i: int| 64 <= i < 512 ==> #[trigger] entry(final(self).mem, l2, i) == 0
            }),
    {
        let ghost f0 = self.free();
        let ghost m0 = *self;
        proof { lemma_zero_desc(); }
        let l0 = self.alloc_table();
        self.register_table(l0, Ghost(0), Ghost((0, 0)));
        let l1 = self.alloc_table();
        self.register_table(l1, Ghost(1), Ghost((l0, 0)));
        let l2 = self.alloc_table();
        self.register_table(l2, Ghost(2), Ghost((l1, 1)));
        proof {
            assert(f0[1] == l1 && f0[2] == l2);
            assert(self.free() =~= f0.subrange(3, f0.len() as int));
            assert(forall|j: int| 0 <= j < 512 ==> #[trigger] entry(self.mem, l0, j) == 0);
            assert(forall|j: int| 0 <= j < 512 ==> #[trigger] entry(self.mem, l1, j) == 0);
            assert(forall|j: int| 0 <= j < 512 ==> #[trigger] entry(self.mem, l2, j) == 0);
            assert(self.parents@[l2] == (l1, 1u64));
            assert(self.parents@[l1] == (l0, 0u64));
        }
        let ghost m1 = *self;
        let mut i: u64 = 0;
        while i < RAM_BLOCKS
            invariant
                self.wf(),
                self.same_regs(&m1),
                self.tables == m1.tables,
                self.parents == m1.parents,
                self.frames == m1.frames,
                i <= 64,
                self.tables@.dom().contains(l2) && self.tables@[l2] == 2,
                forall|j: int| 0 <= j < i ==> #[trigger] entry(self.mem, l2, j) == (RAM_BASE + j * BLOCK_2MIB) as u64 | NORMAL_BLOCK,
                forall|t2: u64, j: int| m1.tables@.dom().contains(t2) && 0 <= j < 512 && !(t2 == l2 && j < i)
                    ==> #[trigger] entry(self.mem, t2, j) == entry(m1.mem, t2, j),
                forall|j: int| 0 <= j < 512 ==> #[trigger] entry(m1.mem, l2, j) == 0,
                forall|j: int| 0 <= j < 512 ==> #[trigger] entry(m1.mem, l1, j) == 0,
                forall|j: int| 0 <= j < 512 ==> #[trigger] entry(m1.mem, l0, j) == 0,
                m1.tables@.dom().contains(l1) && m1.tables@.dom().contains(l0),
            decreases 64 - i,
        {
            let pa = RAM_BASE + i * BLOCK_2MIB;
            proof {
                lemma_block_desc(pa);
                lemma_zero_desc();
                assert(entry(self.mem, l2, i as int) == entry(m1.mem, l2, i as int));
            }
            self.write_desc(l2, i, pa | NORMAL_BLOCK);
            i = i + 1;
        }
        proof { lemma_block_desc(0); lemma_table_desc(l1); lemma_table_desc(l2); }
        assert(DEVICE_BLOCK & 3 == 1) by (bit_vector);
        self.write_desc(l1, 0, DEVICE_BLOCK);
        self.write_desc(l1, 1, l2 | DESC_TABLE);
        self.write_desc(l0, 0, l1 | DESC_TABLE);
        let ghost m2 = *self;
        self.kernel_l1 = l1;
        self.kernel_ttbr0 = l0;
        self.ttbr0 = l0;
        proof {
            m2.frames.lemma_wf_facts(&m2.mem);
            assert forall|t: u64, i: int| self.tables@.dom().contains(t) && self.tables@[t] < 3 && 0 <= i < 512
                implies #[trigger] parent_ok(self.mem, self.tables@, self.parents@, self.kernel_l1, t, i) by {
                assert(parent_ok(m2.mem, m2.tables@, m2.parents@, m2.kernel_l1, t, i));
                assert(entry_ok(m2.mem, m2.tables@, t, i));
                assert(m2.kernel_l1 == 0);
                let e = entry(self.mem, t, i);
                if is_table(e) {
                    assert(m2.tables@.dom().contains(e & ADDR_MASK));
                    assert(m2.mem.has_frame((e & ADDR_MASK) as int));
                }
            }
        }
        l0
    }

    /// Record the zeroed frame `t` as a page table of level `lvl`.
    fn register_table(&mut self, t: u64, Ghost(lvl): Ghost<nat>, Ghost(parent): Ghost<(u64, u64)>)
        requires
            old(self).wf(),
            lvl <= 3,
            old(self).mem.has_frame(t as int),
            !old(self).tables@.dom().contains(t),
            !old(self).free().contains(t),
            forall|i: int| 0 <= i < 512 ==> #[trigger] entry(old(self).mem, t, i) == 0,
        ensures
            final(self).wf(),
            final(self).mem == old(self).mem,
            final(self).frames == old(self).frames,
            final(self).same_regs(old(self)),
            final(self).tables@ == old(self).tables@.insert(t, lvl),
            final(self).parents@ == old(self).parents@.insert(t, parent),
    {
        let ghost m0 = *self;
        proof {
            lemma_zero_desc();
            self.tables@ = self.tables@.insert(t, lvl);
            self.parents@ = self.parents@.insert(t, parent);
            assert forall|t2: u64, i: int|
                self.tables@.dom().contains(t2) && self.tables@[t2] < 3 && 0 <= i < 512
                    implies #[trigger] entry_ok(self.mem, self.tables@, t2, i) by {
                if t2 == t {
                    assert(entry(self.mem, t, i) == 0);
                } else {
                    assert(entry_ok(m0.mem, m0.tables@, t2, i));
                    let e = entry(self.mem, t2, i);
                    if is_table(e) {
                        assert(m0.tables@.dom().contains(e & ADDR_MASK));
                    }
                }
            }
            assert forall|t2: u64, i: int|
                self.tables@.dom().contains(t2) && self.tables@[t2] < 3 && 0 <= i < 512
                    implies #[trigger] parent_ok(self.mem, self.tables@, self.parents@, self.kernel_l1, t2, i) by {
                if t2 == t {
                    assert(entry(self.mem, t, i) == 0);
                } else {
                    assert(parent_ok(m0.mem, m0.tables@, m0.parents@, m0.kernel_l1, t2, i));
                    assert(entry_ok(m0.mem, m0.tables@, t2, i));
                    let e = entry(self.mem, t2, i);
                    if is_table(e) {
                        assert(m0.tables@.dom().contains(e & ADDR_MASK));
                        assert(e & ADDR_MASK != t);
                    }
                }
            }
        }
    }
}

proof fn lemma_block_desc(pa: u64)
    requires
        pa % 4 == 0,
    ensures
        !is_table(pa | NORMAL_BLOCK),
        !is_table(pa | DEVICE_BLOCK),
{
    assert((pa | 0x40_0000_0000_0701u64) & 3 == 1 && (pa | 0x60_0000_0000_0405u64) & 3 == 1) by (bit_vector)
        requires
            pa % 4 == 0,
    ;
}

impl Machine {
    /// The live `TTBR0_EL1` value.
    pub fn current_ttbr0(&self) -> (r: u64)
        ensures
            r == self.ttbr0,
    {
        self.ttbr0
    }

    /// The L0 table of the live address space.
    pub fn live_l0(&self) -> (l0: u64)
        ensures
            l0 == self.ttbr0 & ADDR_MASK,
    {
        l0_ptr(self.current_ttbr0())
    }

    /// Map one 4 KiB page in the live address space.
    pub fn map_page(&mut self, va: u64, pa: u64, flags: u64)
        requires
            old(self).wf(),
            old(self).is_root(old(self).ttbr0 & ADDR_MASK),
            path_has_no_block(old(self).mem, old(self).ttbr0 & ADDR_MASK, va),
            tables_needed(old(self).mem, old(self).ttbr0 & ADDR_MASK, va) <= old(self).free().len(),
        ensures
            final(self).wf(),
            final(self).same_regs(old(self)),
            final(self).tables_grow(old(self)),
            leaf_entry(final(self).mem, final(self).ttbr0 & ADDR_MASK, va) == Some((pa & ADDR_MASK) | flags),
            final(self).free().len() + tables_needed(old(self).mem, old(self).ttbr0 & ADDR_MASK, va) == old(self).free().len(),
            final(self).free() == old(self).free().subrange(tables_needed(old(self).mem, old(self).ttbr0 & ADDR_MASK, va) as int,
                old(self).free().len() as int),
            forall|t: u64| #[trigger] final(self).tables@.dom().contains(t) ==> old(self).tables@.dom().contains(t)
                || old(self).free().subrange(0, tables_needed(old(self).mem, old(self).ttbr0 & ADDR_MASK, va) as int).contains(t),
            forall|va2: u64| !same_page(va, va2) ==> #[trigger] translation(final(self).mem, old(self).ttbr0 & ADDR_MASK, va2)
                == translation(old(self).mem, old(self).ttbr0 & ADDR_MASK, va2),
    {
        let l0 = self.live_l0();
        self.map_page_in(l0, va, pa, flags);
    }

    /// Remove the 4 KiB mapping at `va` in the live address space.
    pub fn unmap_page(&mut self, va: u64)
        requires
            old(self).wf(),
            old(self).is_root(old(self).ttbr0 & ADDR_MASK),
        ensures
            final(self).wf(),
            final(self).same_regs(old(self)),
            final(self).tables == old(self).tables,
            final(self).parents == old(self).parents,
            final(self).frames == old(self).frames,
            leaf_entry(old(self).mem, old(self).ttbr0 & ADDR_MASK, va) is None ==> final(self).mem == old(self).mem,
            leaf_entry(old(self).mem, old(self).ttbr0 & ADDR_MASK, va) is Some
                ==> leaf_entry(final(self).mem, old(self).ttbr0 & ADDR_MASK, va) == Some(0u64),
            translation(final(self).mem, old(self).ttbr0 & ADDR_MASK, va) is None,
            forall|va2: u64| !same_page(va, va2) ==> #[trigger] translation(final(self).mem, old(self).ttbr0 & ADDR_MASK, va2)
                == translation(old(self).mem, old(self).ttbr0 & ADDR_MASK, va2),
    {
        let l0 = self.live_l0();
        self.unmap_page_in(l0, va);
    }

    /// Create a fresh address space: an L0 table whose slot 0 aliases the
    /// kernel L1 and whose other slots (the user window among them) are empty.
    /// Returns the new root (`TTBR0` value).
    pub fn new_address_space(&mut self) -> (ttbr0: u64)
        requires
            old(self).wf(),
            old(self).kernel_l1 != 0,
            old(self).free().len() > 0,
        ensures
            final(self).wf(),
            final(self).same_regs(old(self)),
            ttbr0 == old(self).free()[0],
            final(self).free() == old(self).free().drop_first(),
            final(self).tables@ == old(self).tables@.insert(ttbr0, 0),
            final(self).is_root(ttbr0),
            ttbr0 & ADDR_MASK == ttbr0,
            entry(final(self).mem, ttbr0, 0) == final(self).kernel_l1 | DESC_TABLE,
            forall|i: int| 1 <= i < 512 ==> #[trigger] entry(final(self).mem, ttbr0, i) == 0,
            forall|t: u64, i: int| old(self).tables@.dom().contains(t) && 0 <= i < 512
                ==> #[trigger] entry(final(self).mem, t, i) == entry(old(self).mem, t, i),
    {
        let l0 = self.alloc_table();
        self.register_table(l0, Ghost(0), Ghost((0, 0)));
        proof {
            lemma_zero_desc();
            lemma_table_desc(self.kernel_l1);
            assert(self.mem.has_frame(self.kernel_l1 as int));
            assert(entry(self.mem, l0, 0) == 0);
            lemma_table_desc(l0);
        }
        let kernel_l1 = self.kernel_l1;
        self.write_desc(l0, 0, kernel_l1 | DESC_TABLE);
        proof {
            assert(self.tables@.dom().contains(l0));
            assert(self.mem.has_frame(l0 as int));
            lemma_table_desc(l0);
        }
        l0
    }

    /// Install `ttbr0` as the live address space unless it already is (the
    /// caller then flushes the TLB). Returns whether a switch happened.
    pub fn activate(&mut self, ttbr0: u64) -> (switched: bool)
            ensures
            activated(*old(self), *final(self), ttbr0, switched),
    {
        if self.installed != ttbr0 {
            self.installed = ttbr0;
            self.ttbr0 = ttbr0;
            true
        } else {
            false
        }
    }
}

/// `m1` is `m0` after `alloc_frame` answered `r`: with the pool empty,
/// nothing; otherwise the first free frame, now neither free nor a table.
pub open spec fn frame_taken(m0: Machine, m1: Machine, r: Option<Frame>) -> bool {
    &&& m0.free().len() == 0 ==> r.is_none() && m1.free() == m0.free()
    &&& m0.free().len() > 0 ==> {
        &&& r matches Some(f)
        &&& f@ == m0.free()[0]
        &&& m1.free() == m0.free().drop_first()
        &&& m1.mem.has_frame(f@ as int)
        &&& !m1.tables@.dom().contains(f@)
        &&& !m1.free().contains(f@)
    }
}

/// `m1` is `m0` after `free_frame(f)`: `f` is the first free frame.
pub open spec fn frame_returned(m0: Machine, m1: Machine, f: Frame) -> bool {
    m1.free() == seq![f@] + m0.free()
}

/// `m1` is `m0` after `activate(ttbr0)` answered `switched`: a switch
/// happens exactly when `ttbr0` is not already installed.
pub open spec fn activated(m0: Machine, m1: Machine, ttbr0: u64, switched: bool) -> bool {
    &&& switched == (m0.installed != ttbr0)
    &&& m1.installed == ttbr0
    &&& m1.ttbr0 == if switched { ttbr0 } else { m0.ttbr0 }
    &&& m1.mem == m0.mem
    &&& m1.frames == m0.frames
    &&& m1.tables == m0.tables
    &&& m1.parents == m0.parents
    &&& m1.kernel_l1 == m0.kernel_l1
    &&& m1.kernel_ttbr0 == m0.kernel_ttbr0
}

impl Machine {
    /// Allocate a data frame (not a page table) from the pool.
    pub fn alloc_frame(&mut self) -> (r: Option<Frame>)
        requires
            old(self).wf(),
        ensures
            final(self).wf(),
            final(self).same_regs(old(self)),
            final(self).tables == old(self).tables,
            final(self).parents == old(self).parents,
            final(self).mem == old(self).mem,
            frame_taken(*old(self), *final(self), r),
    {
        let ghost m0 = *self;
        proof { self.frames.lemma_wf_facts(&self.mem); }
        let r = alloc_frame(&mut self.frames, &self.mem);
        proof {
            if m0.free().len() > 0 {
                let f = m0.free()[0];
                assert(m0.mem.has_frame(f as int));
                assert(!m0.tables@.dom().contains(f)) by {
                    if m0.tables@.dom().contains(f) { assert(m0.free().contains(f)); }
                }
                assert(!self.free().contains(f)) by {
                    if self.free().contains(f) {
                        let j = choose|j: int| 0 <= j < self.free().len() && self.free()[j] == f;
                        assert(m0.free()[j + 1] == m0.free()[0]);
                    }
                }
            }
            assert forall|u: u64| #[trigger] self.tables@.dom().contains(u) implies !self.free().contains(u) by {
                if self.free().contains(u) {
                    let j = choose|j: int| 0 <= j < self.free().len() && self.free()[j] == u;
                    assert(m0.free()[j + 1] == u);
                    assert(m0.free().contains(u));
                }
            }
        }
        r
    }

    /// Zero a data frame.
    pub fn zero_frame(&mut self, f: u64)
        requires
            old(self).wf(),
            old(self).mem.has_frame(f as int),
            !old(self).tables@.dom().contains(f),
            !old(self).free().contains(f),
        ensures
            final(self).wf(),
            final(self).same_regs(old(self)),
            final(self).tables == old(self).tables,
            final(self).parents == old(self).parents,
            final(self).frames == old(self).frames,
            final(self).mem.base == old(self).mem.base,
            final(self).mem.words.len() == old(self).mem.words.len(),
            forall|a: int| f <= a < f + FRAME_SIZE && a % 8 == 0 ==> #[trigger] final(self).mem.word(a) == 0,
            forall|t: u64, i: int| old(self).tables@.dom().contains(t) && 0 <= i < 512
                ==> #[trigger] entry(final(self).mem, t, i) == entry(old(self).mem, t, i),
    {
        let ghost m0 = *self;
        proof { self.frames.lemma_wf_facts(&self.mem); }
        self.mem.zero_frame(f);
        proof { Machine::lemma_zero_keeps_wf(m0, *self, f); }
    }

    /// Store byte `b` at `a`, inside the data frame `f` (one neither free nor
    /// a page table).
    pub fn write_frame_byte(&mut self, f: u64, a: u64, b: u8)
        requires
            old(self).wf(),
            old(self).mem.has_frame(f as int),
            !old(self).tables@.dom().contains(f),
            !old(self).free().contains(f),
            f <= a < f + FRAME_SIZE,
        ensures
            final(self).wf(),
            final(self).same_regs(old(self)),
            final(self).tables == old(self).tables,
            final(self).parents == old(self).parents,
            final(self).frames == old(self).frames,
            final(self).mem.byte(a as int) == b,
            forall|x: int| #![trigger final(self).mem.byte(x)]
                old(self).mem.has_byte(x) && x != a ==> final(self).mem.byte(x) == old(self).mem.byte(x),
            forall|g: u64| old(self).mem.has_frame(g as int) && g != f
                ==> #[trigger] final(self).mem.frame_kept(&old(self).mem, g),
            forall|t: u64, i: int| old(self).tables@.dom().contains(t) && 0 <= i < 512
                ==> #[trigger] entry(final(self).mem, t, i) == entry(old(self).mem, t, i),
    {
        let ghost m0 = *self;
        proof {
            self.frames.lemma_wf_facts(&self.mem);
            lemma_word_of_byte(self.mem.base as int, a as int);
            lemma_idx_in_frame(self.mem.base as int, f as int, a - a % 8);
        }
        self.mem.write_u8(a, b);
        proof {
            Machine::lemma_zero_keeps_wf(m0, *self, f);
            assert forall|g: u64| m0.mem.has_frame(g as int) && g != f
                implies #[trigger] self.mem.frame_kept(&m0.mem, g) by {
                if g <= a < g + FRAME_SIZE {
                    lemma_one_frame(g as int, f as int, a as int);
                }
            }
        }
    }

    /// Return a data frame to the pool.
    pub fn free_frame(&mut self, f: Frame)
        requires
            old(self).wf(),
            old(self).mem.has_frame(f@ as int),
            !old(self).tables@.dom().contains(f@),
            !old(self).free().contains(f@),
        ensures
            final(self).wf(),
            final(self).same_regs(old(self)),
            final(self).tables == old(self).tables,
            final(self).parents == old(self).parents,
            frame_returned(*old(self), *final(self), f),
            forall|t: u64, i: int| old(self).tables@.dom().contains(t) && 0 <= i < 512
                ==> #[trigger] entry(final(self).mem, t, i) == entry(old(self).mem, t, i),
            forall|g: u64, i: int| old(self).mem.has_frame(g as int) && g != f@ && 0 <= i < 512
                ==> #[trigger] entry(final(self).mem, g, i) == entry(old(self).mem, g, i),
    {
        let ghost m0 = *self;
        proof { self.frames.lemma_wf_facts(&self.mem); }
        free_frame(&mut self.frames, &mut self.mem, f);
        proof {
            assert forall|g: u64, i: int| m0.mem.has_frame(g as int) && g != f@ && 0 <= i < 512
                implies #[trigger] entry(self.mem, g, i) == entry(m0.mem, g, i) by {
                lemma_frames_disjoint(m0.mem.base as int, g as int, f@ as int, g + 8 * i, f@ as int);
            }
            assert forall|t: u64, i: int| m0.tables@.dom().contains(t) && 0 <= i < 512
                implies #[trigger] entry(self.mem, t, i) == entry(m0.mem, t, i) by {
                assert(m0.mem.has_frame(t as int));
                lemma_frames_disjoint(m0.mem.base as int, t as int, f@ as int, t + 8 * i, f@ as int);
            }
            assert forall|t: u64, i: int| self.tables@.dom().contains(t) && self.tables@[t] < 3 && 0 <= i < 512
                implies #[trigger] entry_ok(self.mem, self.tables@, t, i) by {
                assert(entry_ok(m0.mem, m0.tables@, t, i));
                let e = entry(self.mem, t, i);
                assert(e == entry(m0.mem, t, i));
                if is_table(e) {
                    assert(m0.tables@.dom().contains(e & ADDR_MASK));
                }
            }
            assert forall|u: u64| #[trigger] self.tables@.dom().contains(u) implies !self.free().contains(u) by {
                assert(!m0.free().contains(u));
                if self.free().contains(u) {
                    let j = choose|j: int| 0 <= j < self.free().len() && self.free()[j] == u;
                    if j > 0 { assert(m0.free()[j - 1] == u); }
                }
            }
            assert forall|t: u64, i: int| self.tables@.dom().contains(t) && self.tables@[t] < 3 && 0 <= i < 512
                implies #[trigger] parent_ok(self.mem, self.tables@, self.parents@, self.kernel_l1, t, i) by {
                assert(parent_ok(m0.mem, m0.tables@, m0.parents@, m0.kernel_l1, t, i));
                assert(entry(self.mem, t, i) == entry(m0.mem, t, i));
            }
            if self.kernel_l1 != 0 {
                assert(entry(self.mem, self.kernel_ttbr0, 0) == entry(m0.mem, m0.kernel_ttbr0, 0));
            }
        }
    }
}

/// The number of frames `get_or_create` takes from the pool at `table[index]`.
pub open spec fn tables_delta(m: &Machine, table: u64, index: u64) -> nat {
    if is_table(entry(m.mem, table, index as int)) { 0 } else { 1 }
}

/// The walk to `va` reads only descriptors of recorded tables: memory that
/// keeps all of them gives the same leaf descriptor.
pub proof fn lemma_leaf_unchanged(m: Machine, mem2: PhysMem, l0: u64, va: u64)
    requires
        m.wf(),
        m.is_root(l0),
        forall|t: u64, i: int| m.tables@.dom().contains(t) && 0 <= i < 512
            ==> #[trigger] entry(mem2, t, i) == entry(m.mem, t, i),
    ensures
        leaf_entry(mem2, l0, va) == leaf_entry(m.mem, l0, va),
        translation(mem2, l0, va) == translation(m.mem, l0, va),
        tables_needed(mem2, l0, va) == tables_needed(m.mem, l0, va),
        path_has_no_block(mem2, l0, va) == path_has_no_block(m.mem, l0, va),
{
    lemma_index_bound(va, 0);
    lemma_index_bound(va, 1);
    lemma_index_bound(va, 2);
    lemma_index_bound(va, 3);
    assert(entry(mem2, l0, va_index(va, 0) as int) == entry(m.mem, l0, va_index(va, 0) as int));
    assert(entry_ok(m.mem, m.tables@, l0, va_index(va, 0) as int));
    if let Some(t1) = next_table(m.mem, l0, va, 0) {
        assert(entry(mem2, t1, va_index(va, 1) as int) == entry(m.mem, t1, va_index(va, 1) as int));
        assert(entry_ok(m.mem, m.tables@, t1, va_index(va, 1) as int));
        if let Some(t2) = next_table(m.mem, t1, va, 1) {
            assert(entry(mem2, t2, va_index(va, 2) as int) == entry(m.mem, t2, va_index(va, 2) as int));
            assert(entry_ok(m.mem, m.tables@, t2, va_index(va, 2) as int));
            if let Some(t3) = next_table(m.mem, t2, va, 2) {
                assert(entry(mem2, t3, va_index(va, 3) as int) == entry(m.mem, t3, va_index(va, 3) as int));
            }
        }
    }
}

/// Every address space but the one rooted at `l0` translates every address
/// in `m1` as it did in `m0`.
pub open spec fn others_kept(m0: Machine, m1: Machine, l0: u64) -> bool {
    forall|r: u64, va: u64| m0.is_root(r) && r != l0
        ==> #[trigger] translation(m1.mem, r, va) == translation(m0.mem, r, va)
}

/// Keeping the other spaces is transitive when the tables only grow.
pub proof fn lemma_others_kept_trans(m0: Machine, m1: Machine, m2: Machine, l0: u64)
    requires
        others_kept(m0, m1, l0),
        others_kept(m1, m2, l0),
        m1.tables_grow(&m0),
    ensures
        others_kept(m0, m2, l0),
{
    assert forall|r: u64, va: u64| m0.is_root(r) && r != l0
        implies #[trigger] translation(m2.mem, r, va) == translation(m0.mem, r, va) by {
        assert(m1.is_root(r));
        assert(translation(m1.mem, r, va) == translation(m0.mem, r, va));
    }
}

/// A change of RAM that keeps every table's descriptors keeps every space.
pub proof fn lemma_others_kept_same_tables(m0: Machine, m1: Machine, l0: u64)
    requires
        m0.wf(),
        m1.tables == m0.tables,
        forall|t: u64, i: int| m0.tables@.dom().contains(t) && 0 <= i < 512
            ==> #[trigger] entry(m1.mem, t, i) == entry(m0.mem, t, i),
    ensures
        others_kept(m0, m1, l0),
{
    assert forall|r: u64, va: u64| m0.is_root(r) && r != l0
        implies #[trigger] translation(m1.mem, r, va) == translation(m0.mem, r, va) by {
        lemma_leaf_unchanged(m0, m1.mem, r, va);
    }
}

/// Writing the slots of one user-window walk in the space rooted at `l0`
/// (`l1`-`l3` being the tables on that walk, recorded or fresh) leaves every
/// walk from another root as it was: below L0 slot 0 the tables form a tree,
/// so another root's walk never passes through those slots.
pub proof fn lemma_other_root_unchanged(m: Machine, mem2: PhysMem, l0: u64, va: u64, l1: u64, l2: u64, l3: u64,
    r: u64, va2: u64)
    requires
        m.wf(),
        m.kernel_l1 != 0,
        m.is_root(l0),
        m.is_root(r),
        r != l0,
        va_index(va, 0) != 0,
        forall|t: u64, j: int| m.tables@.dom().contains(t) && 0 <= j < 512
            && !(t == l0 && j == va_index(va, 0)) && !(t == l1 && j == va_index(va, 1))
            && !(t == l2 && j == va_index(va, 2)) && !(t == l3 && j == va_index(va, 3))
            ==> #[trigger] entry(mem2, t, j) == entry(m.mem, t, j),
        m.tables@.dom().contains(l1) ==> is_table(entry(m.mem, l0, va_index(va, 0) as int))
            && entry(m.mem, l0, va_index(va, 0) as int) & ADDR_MASK == l1,
        m.tables@.dom().contains(l2) ==> m.tables@.dom().contains(l1)
            && is_table(entry(m.mem, l1, va_index(va, 1) as int)) && entry(m.mem, l1, va_index(va, 1) as int) & ADDR_MASK == l2,
        m.tables@.dom().contains(l3) ==> m.tables@.dom().contains(l2)
            && is_table(entry(m.mem, l2, va_index(va, 2) as int)) && entry(m.mem, l2, va_index(va, 2) as int) & ADDR_MASK == l3,
    ensures
        leaf_entry(mem2, r, va2) == leaf_entry(m.mem, r, va2),
        translation(mem2, r, va2) == translation(m.mem, r, va2),
{
    let mem = m.mem;
    let i0 = va_index(va, 0) as int;
    let i1 = va_index(va, 1) as int;
    let i2 = va_index(va, 2) as int;
    lemma_index_bound(va, 0);
    lemma_index_bound(va, 1);
    lemma_index_bound(va, 2);
    lemma_index_bound(va2, 0);
    lemma_index_bound(va2, 1);
    lemma_index_bound(va2, 2);
    lemma_index_bound(va2, 3);
    if m.tables@.dom().contains(l1) {
        assert(entry_ok(mem, m.tables@, l0, i0));
        assert(parent_ok(mem, m.tables@, m.parents@, m.kernel_l1, l0, i0));
        assert(m.tables@[l1] == 1 && m.parents@[l1] == (l0, i0 as u64));
    }
    if m.tables@.dom().contains(l2) {
        assert(entry_ok(mem, m.tables@, l1, i1));
        assert(parent_ok(mem, m.tables@, m.parents@, m.kernel_l1, l1, i1));
        assert(m.tables@[l2] == 2 && m.parents@[l2] == (l1, i1 as u64));
    }
    if m.tables@.dom().contains(l3) {
        assert(entry_ok(mem, m.tables@, l2, i2));
        assert(parent_ok(mem, m.tables@, m.parents@, m.kernel_l1, l2, i2));
        assert(m.tables@[l3] == 3 && m.parents@[l3] == (l2, i2 as u64));
    }
    let j0 = va_index(va2, 0) as int;
    assert(entry(mem2, r, j0) == entry(mem, r, j0));
    if let Some(t1) = next_table(mem, r, va2, 0) {
        assert(entry_ok(mem, m.tables@, r, j0));
        assert(parent_ok(mem, m.tables@, m.parents@, m.kernel_l1, r, j0));
        assert(m.tables@[t1] == 1);
        assert(t1 != l1);
        let j1 = va_index(va2, 1) as int;
        assert(entry(mem2, t1, j1) == entry(mem, t1, j1));
        if let Some(t2) = next_table(mem, t1, va2, 1) {
            assert(entry_ok(mem, m.tables@, t1, j1));
            assert(parent_ok(mem, m.tables@, m.parents@, m.kernel_l1, t1, j1));
            assert(m.tables@[t2] == 2 && m.parents@[t2] == (t1, j1 as u64));
            assert(t2 != l2);
            let j2 = va_index(va2, 2) as int;
            assert(entry(mem2, t2, j2) == entry(mem, t2, j2));
            if let Some(t3) = next_table(mem, t2, va2, 2) {
                assert(entry_ok(mem, m.tables@, t2, j2));
                assert(parent_ok(mem, m.tables@, m.parents@, m.kernel_l1, t2, j2));
                assert(m.tables@[t3] == 3 && m.parents@[t3] == (t2, j2 as u64));
                assert(t3 != l3);
                let j3 = va_index(va2, 3) as int;
                assert(entry(mem2, t3, j3) == entry(mem, t3, j3));
            }
        }
    }
}

/// In an address space whose L0 slots other than the kernel's are empty, a
/// user-window address meets no block and needs three new tables.
pub proof fn lemma_fresh_root(m: Machine, l0: u64, va: u64)
    requires
        m.wf(),
        m.is_root(l0),
        forall|i: int| 1 <= i < 512 ==> #[trigger] entry(m.mem, l0, i) == 0,
        va_index(va, 0) != 0,
    ensures
        path_has_no_block(m.mem, l0, va),
        tables_needed(m.mem, l0, va) == 3,
{
    lemma_zero_desc();
    lemma_index_bound(va, 0);
    assert(entry(m.mem, l0, va_index(va, 0) as int) == 0);
}

/// Addresses in the same page have the same leaf descriptor, and so are
/// mapped or unmapped together.
pub proof fn lemma_same_page_leaf(mem: PhysMem, l0: u64, va: u64, va2: u64)
    requires
        same_page(va, va2),
    ensures
        leaf_entry(mem, l0, va2) == leaf_entry(mem, l0, va),
        translation(mem, l0, va2) is None <==> translation(mem, l0, va) is None,
{
}

/// Addresses that share their L0-L2 indices share the walk down to the L3
/// table: the same tables to create and the same blocks on the way.
pub proof fn lemma_same_table_path(mem: PhysMem, l0: u64, va: u64, va2: u64)
    requires
        va_index(va, 0) == va_index(va2, 0),
        va_index(va, 1) == va_index(va2, 1),
        va_index(va, 2) == va_index(va2, 2),
    ensures
        tables_needed(mem, l0, va2) == tables_needed(mem, l0, va),
        path_has_no_block(mem, l0, va2) == path_has_no_block(mem, l0, va),
        walk3(mem, l0, va2) == walk3(mem, l0, va),
{
}

/// A page descriptor's flags and frame can be read back from it.
pub proof fn lemma_page_desc(f: u64, flags: u64)
    requires
        f % 4096 == 0,
        f < PA_LIMIT,
        flags & ADDR_MASK == 0,
    ensures
        (f | flags) & ADDR_MASK == f,
        (f | flags) & !ADDR_MASK == flags,
{
    assert((f | flags) & 0x0000_FFFF_FFFF_F000u64 == f && (f | flags) & !0x0000_FFFF_FFFF_F000u64 == flags)
        by (bit_vector)
        requires
            f % 4096 == 0,
            f < 0x1_0000_0000_0000u64,
            flags & 0x0000_FFFF_FFFF_F000u64 == 0,
    ;
}

/// A frame's address survives the descriptor address mask.
pub proof fn lemma_page_frame(f: u64)
    requires
        f % 4096 == 0,
        f < PA_LIMIT,
    ensures
        f & ADDR_MASK == f,
{
    lemma_table_desc(f);
}

/// The L3 table reached on the way to `va`, if every level above holds a
/// table descriptor.
pub open spec fn walk3(mem: PhysMem, l0: u64, va: u64) -> Option<u64> {
    match next_table(mem, l0, va, 0) {
        None => None,
        Some(t1) => match next_table(mem, t1, va, 1) {
            None => None,
            Some(t2) => next_table(mem, t2, va, 2),
        },
    }
}

/// `va` and `va2` lie in the same 4 KiB page of the 48-bit address space.
pub open spec fn same_page(va: u64, va2: u64) -> bool {
    &&& va_index(va, 0) == va_index(va2, 0)
    &&& va_index(va, 1) == va_index(va2, 1)
    &&& va_index(va, 2) == va_index(va2, 2)
    &&& va_index(va, 3) == va_index(va2, 3)
}

/// Page tables form a tree below L1: two walks in one address space that
/// reach the same L3 table went through the same slots.
pub proof fn lemma_same_l3(m: Machine, l0: u64, va: u64, va2: u64)
    requires
        m.wf(),
        m.is_root(l0),
        walk3(m.mem, l0, va) is Some,
        walk3(m.mem, l0, va2) == walk3(m.mem, l0, va),
    ensures
        va_index(va, 0) == va_index(va2, 0),
        va_index(va, 1) == va_index(va2, 1),
        va_index(va, 2) == va_index(va2, 2),
{
    m.frames.lemma_wf_facts(&m.mem);
    lemma_index_bound(va, 0);
    lemma_index_bound(va, 1);
    lemma_index_bound(va, 2);
    lemma_index_bound(va2, 0);
    lemma_index_bound(va2, 1);
    lemma_index_bound(va2, 2);
    let i0 = va_index(va, 0) as int;
    let i1 = va_index(va, 1) as int;
    let i2 = va_index(va, 2) as int;
    let j0 = va_index(va2, 0) as int;
    let j1 = va_index(va2, 1) as int;
    let j2 = va_index(va2, 2) as int;
    let t1 = next_table(m.mem, l0, va, 0).unwrap();
    let t2 = next_table(m.mem, t1, va, 1).unwrap();
    let t3 = next_table(m.mem, t2, va, 2).unwrap();
    let u1 = next_table(m.mem, l0, va2, 0).unwrap();
    let u2 = next_table(m.mem, u1, va2, 1).unwrap();
    assert(entry_ok(m.mem, m.tables@, l0, i0) && entry_ok(m.mem, m.tables@, l0, j0));
    assert(entry_ok(m.mem, m.tables@, t1, i1) && entry_ok(m.mem, m.tables@, u1, j1));
    assert(entry_ok(m.mem, m.tables@, t2, i2) && entry_ok(m.mem, m.tables@, u2, j2));
    assert(parent_ok(m.mem, m.tables@, m.parents@, m.kernel_l1, t2, i2));
    assert(parent_ok(m.mem, m.tables@, m.parents@, m.kernel_l1, u2, j2));
    assert(u2 == t2 && j2 == i2);
    assert(parent_ok(m.mem, m.tables@, m.parents@, m.kernel_l1, t1, i1));
    assert(parent_ok(m.mem, m.tables@, m.parents@, m.kernel_l1, u1, j1));
    assert(u1 == t1 && j1 == i1);
    assert(parent_ok(m.mem, m.tables@, m.parents@, m.kernel_l1, l0, i0));
    assert(parent_ok(m.mem, m.tables@, m.parents@, m.kernel_l1, l0, j0));
    assert(m.mem.has_frame(t1 as int));
}

/// Changing one descriptor of an L3 table changes the leaf descriptor of
/// no walk that does not read that very slot.
pub proof fn lemma_leaf_write_others(m0: Machine, mem1: PhysMem, t3: u64, i3: int, l0: u64, va2: u64)
    requires
        m0.wf(),
        m0.is_root(l0),
        m0.tables@.dom().contains(t3),
        m0.tables@[t3] == 3,
        forall|t: u64, i: int| m0.tables@.dom().contains(t) && 0 <= i < 512 && !(t == t3 && i == i3)
            ==> #[trigger] entry(mem1, t, i) == entry(m0.mem, t, i),
    ensures
        !(walk3(m0.mem, l0, va2) == Some(t3) && va_index(va2, 3) == i3)
            ==> leaf_entry(mem1, l0, va2) == leaf_entry(m0.mem, l0, va2),
        !(walk3(m0.mem, l0, va2) == Some(t3) && va_index(va2, 3) == i3)
            ==> translation(mem1, l0, va2) == translation(m0.mem, l0, va2),
        path_has_no_block(mem1, l0, va2) == path_has_no_block(m0.mem, l0, va2),
{
    lemma_index_bound(va2, 0);
    lemma_index_bound(va2, 1);
    lemma_index_bound(va2, 2);
    lemma_index_bound(va2, 3);
    let j0 = va_index(va2, 0) as int;
    assert(entry(mem1, l0, j0) == entry(m0.mem, l0, j0));
    assert(entry_ok(m0.mem, m0.tables@, l0, j0));
    if let Some(u1) = next_table(m0.mem, l0, va2, 0) {
        let j1 = va_index(va2, 1) as int;
        assert(entry(mem1, u1, j1) == entry(m0.mem, u1, j1));
        assert(entry_ok(m0.mem, m0.tables@, u1, j1));
        if let Some(u2) = next_table(m0.mem, u1, va2, 1) {
            let j2 = va_index(va2, 2) as int;
            assert(entry(mem1, u2, j2) == entry(m0.mem, u2, j2));
            assert(entry_ok(m0.mem, m0.tables@, u2, j2));
            if let Some(u3) = next_table(m0.mem, u2, va2, 2) {
                let j3 = va_index(va2, 3) as int;
                if !(u3 == t3 && j3 == i3) {
                    assert(entry(mem1, u3, j3) == entry(m0.mem, u3, j3));
                }
            }
        }
    }
}

/// Installing a fresh, zeroed table in an empty slot changes no translation
/// of any address space: walks through that slot found nothing before and
/// find only empty descriptors now.
pub proof fn lemma_fresh_table(m0: Machine, mem1: PhysMem, t: u64, i: int, n: u64, l0: u64, va2: u64)
    requires
        m0.wf(),
        m0.is_root(l0),
        m0.tables@.dom().contains(t),
        m0.tables@[t] < 3,
        0 <= i < 512,
        !is_table(entry(m0.mem, t, i)),
        !m0.tables@.dom().contains(n),
        forall|t2: u64, j: int| m0.tables@.dom().contains(t2) && 0 <= j < 512 && !(t2 == t && j == i)
            ==> #[trigger] entry(mem1, t2, j) == entry(m0.mem, t2, j),
        is_table(entry(mem1, t, i)),
        entry(mem1, t, i) & ADDR_MASK == n,
        forall|j: int| 0 <= j < 512 ==> #[trigger] entry(mem1, n, j) == 0,
    ensures
        translation(mem1, l0, va2) == translation(m0.mem, l0, va2),
        leaf_entry(m0.mem, l0, va2) is Some ==> leaf_entry(mem1, l0, va2) == leaf_entry(m0.mem, l0, va2),
        path_has_no_block(m0.mem, l0, va2) ==> path_has_no_block(mem1, l0, va2),
{
    lemma_zero_desc();
    lemma_index_bound(va2, 0);
    lemma_index_bound(va2, 1);
    lemma_index_bound(va2, 2);
    lemma_index_bound(va2, 3);
    let j0 = va_index(va2, 0) as int;
    let j1 = va_index(va2, 1) as int;
    let j2 = va_index(va2, 2) as int;
    let j3 = va_index(va2, 3) as int;
    assert(entry_ok(m0.mem, m0.tables@, l0, j0));
    if l0 == t && j0 == i {
        assert(entry(mem1, n, j1) == 0);
    } else {
        assert(entry(mem1, l0, j0) == entry(m0.mem, l0, j0));
        if let Some(u1) = next_table(m0.mem, l0, va2, 0) {
            assert(entry_ok(m0.mem, m0.tables@, u1, j1));
            if u1 == t && j1 == i {
                assert(entry(mem1, n, j2) == 0);
            } else {
                assert(entry(mem1, u1, j1) == entry(m0.mem, u1, j1));
                if let Some(u2) = next_table(m0.mem, u1, va2, 1) {
                    assert(entry_ok(m0.mem, m0.tables@, u2, j2));
                    if u2 == t && j2 == i {
                        assert(entry(mem1, n, j3) == 0);
                    } else {
                        assert(entry(mem1, u2, j2) == entry(m0.mem, u2, j2));
                        if let Some(u3) = next_table(m0.mem, u2, va2, 2) {
                            assert(entry(mem1, u3, j3) == entry(m0.mem, u3, j3));
                        }
                    }
                }
            }
        }
    }
}

proof fn lemma_table_desc(t: u64)
    requires
        t % 4096 == 0,
        t < PA_LIMIT,
    ensures
        is_table(t | 3),
        (t | 3) & ADDR_MASK == t,
        is_valid(t | 3),
        t & ADDR_MASK == t,
{
    assert((t | 3) & 3 == 3 && (t | 3) & 0x0000_FFFF_FFFF_F000u64 == t && (t | 3) & 1 != 0
        && t & 0x0000_FFFF_FFFF_F000u64 == t) by (bit_vector)
        requires
            t % 4096 == 0,
            t < 0x1_0000_0000_0000u64,
    ;
}

proof fn lemma_zero_desc()
    ensures
        !is_table(0),
        !is_valid(0),
{
    assert(0u64 & 3 != 3 && 0u64 & 1 == 0) by (bit_vector);
}

pub(crate) proof fn lemma_index_bound(va: u64, lvl: int)
    ensures
        va_index(va, lvl) < 512,
{
    assert((va >> 39u64) & 0x1FF < 512) by (bit_vector);
    assert((va >> 30u64) & 0x1FF < 512) by (bit_vector);
    assert((va >> 21u64) & 0x1FF < 512) by (bit_vector);
    assert((va >> 12u64) & 0x1FF < 512) by (bit_vector);
}

/// The index of `va` in a table at level `lvl` (0-3).
fn index_at(va: u64, lvl: u64) -> (i: u64)
    requires
        lvl <= 3,
    ensures
        i == va_index(va, lvl as int),
        i < 512,
{
    proof { lemma_index_bound(va, lvl as int); }
    if lvl == 0 {
        (va >> 39u64) & 0x1FF
    } else if lvl == 1 {
        (va >> 30u64) & 0x1FF
    } else if lvl == 2 {
        (va >> 21u64) & 0x1FF
    } else {
        (va >> 12u64) & 0x1FF
    }
}

/// The L0 table pointer for an address-space root (`TTBR0` value).
pub fn l0_ptr(ttbr0: u64) -> (l0: u64)
    ensures
        l0 == ttbr0 & ADDR_MASK,
{
    ttbr0 & ADDR_MASK
}

/// The boot/kernel address-space root.
pub fn kernel_ttbr0(m: &Machine) -> (r: u64)
    ensures
        r == m.kernel_ttbr0,
{
    m.kernel_ttbr0
}

} // verus!
