//! The first phase's EL0 routine: its code is mapped in place at
//! [`USER_CODE_VA`] and a stack page at [`USER_STACK_VA`].
use vstd::prelude::*;
use crate::kernel::phys::FRAME_SIZE;
use crate::kernel::mmu::{Machine, ADDR_MASK, PAGE_USER_RX, PAGE_USER_RW, PA_LIMIT, leaf_entry, path_has_no_block,
    tables_needed, same_page, va_index, lemma_same_table_path, lemma_page_desc, lemma_page_frame};

verus! {

/// Virtual base where the user code is mapped.
pub const USER_CODE_VA: u64 = 0x2_0000_0000;
/// Virtual base of the user stack.
pub const USER_STACK_VA: u64 = 0x2_0010_0000;
/// User stack size (one page).
pub const USER_STACK_SIZE: u64 = 4096;

/// Whether `[ptr, ptr + len)` lies in the mapped code (`code_size` bytes) or
/// in the user stack.
pub open spec fn early_user_range(ptr: u64, len: u64, code_size: u64) -> bool {
    let end = ptr + len;
    end <= u64::MAX && (
        (ptr >= USER_CODE_VA && end <= USER_CODE_VA + code_size)
        || (ptr >= USER_STACK_VA && end <= USER_STACK_VA + USER_STACK_SIZE))
}

/// Whether `[ptr, ptr + len)` lies entirely within the user-accessible region:
/// the user code (`code_size` bytes) or the user stack. Used to validate
/// syscall pointers.
pub fn is_user_range(ptr: u64, len: u64, code_size: u64) -> (r: bool)
    ensures
        r == early_user_range(ptr, len, code_size),
{
    let end = match ptr.checked_add(len) {
        Some(e) => e,
        None => return false,
    };
    let in_code = ptr >= USER_CODE_VA && end as u128 <= USER_CODE_VA as u128 + code_size as u128;
    let in_stack = ptr >= USER_STACK_VA && end <= USER_STACK_VA + USER_STACK_SIZE;
    in_code || in_stack
}

/// The `i`-th page of the user code window.
pub open spec fn code_page(i: int) -> u64 {
    (USER_CODE_VA + 4096 * i) as u64
}

/// The code window and the stack page share one L3 table, each page at its
/// own slot.
proof fn lemma_code_page_index(i: u64)
    requires
        i <= 256,
    ensures
        va_index(code_page(i as int), 0) == 0,
        va_index(code_page(i as int), 1) == 8,
        va_index(code_page(i as int), 2) == 0,
        va_index(code_page(i as int), 3) == i,
        code_page(i as int) == 0x2_0000_0000u64 + 4096 * i,
{
    let va: u64 = (0x2_0000_0000u64 + 4096 * i) as u64;
    assert(((va >> 39u64) & 0x1FF) == 0 && ((va >> 30u64) & 0x1FF) == 8 && ((va >> 21u64) & 0x1FF) == 0
        && ((va >> 12u64) & 0x1FF) == i) by (bit_vector)
        requires
            i <= 256,
            va == 0x2_0000_0000u64 + 4096 * i,
    ;
}

/// Map the user code (`code_size` bytes at physical `code_phys`, in place)
/// read/execute for EL0, and a fresh stack page read/write for EL0, in the
/// live address space. Returns where EL0 starts: the virtual address of the
/// entry point (at physical `entry_phys` inside the code) and the initial
/// stack pointer (the top of the stack page). The code must fit below the
/// stack window, and the pool must hold the stack page and the tables.
pub fn enter_user(m: &mut Machine, code_phys: u64, code_size: u64, entry_phys: u64) -> (r: (u64, u64))
    requires
        old(m).wf(),
        old(m).is_root(old(m).ttbr0 & ADDR_MASK),
        path_has_no_block(old(m).mem, old(m).ttbr0 & ADDR_MASK, USER_CODE_VA),
        old(m).free().len() >= 1 + tables_needed(old(m).mem, old(m).ttbr0 & ADDR_MASK, USER_CODE_VA),
        code_size <= USER_STACK_VA - USER_CODE_VA,
        code_phys + code_size <= u64::MAX,
        code_phys <= entry_phys < code_phys + code_size,
    ensures
        final(m).wf(),
        final(m).same_regs(old(m)),
        final(m).tables_grow(old(m)),
        r.0 == USER_CODE_VA + (entry_phys - code_phys),
        r.1 == USER_STACK_VA + USER_STACK_SIZE,
        forall|i: int| 0 <= i && 4096 * i < code_size ==> #[trigger] leaf_entry(final(m).mem,
            final(m).ttbr0 & ADDR_MASK, code_page(i)) == Some(((code_phys + 4096 * i) as u64 & ADDR_MASK) | PAGE_USER_RX),
        leaf_entry(final(m).mem, final(m).ttbr0 & ADDR_MASK, USER_STACK_VA) is Some,
        ({
            let f = leaf_entry(final(m).mem, final(m).ttbr0 & ADDR_MASK, USER_STACK_VA)->0 & ADDR_MASK;
            &&& leaf_entry(final(m).mem, final(m).ttbr0 & ADDR_MASK, USER_STACK_VA)->0 & !ADDR_MASK == PAGE_USER_RW
            &&& old(m).free().contains(f)
            &&& !final(m).free().contains(f)
            &&& !final(m).tables@.dom().contains(f)
        }),
{
    let ghost m0 = *m;
    let l0 = m.live_l0();
    let mut off: u64 = 0;
    let ghost mut i: int = 0;
    proof {
        lemma_code_page_index(0);
    }
    while off < code_size
        invariant
            m.wf(),
            m.is_root(l0),
            l0 == m.ttbr0 & ADDR_MASK,
            m.same_regs(&m0),
            m.tables_grow(&m0),
            off == 4096 * i,
            0 <= i <= 256,
            code_size <= USER_STACK_VA - USER_CODE_VA,
            code_phys + code_size <= u64::MAX,
            off < code_size ==> i < 256,
            path_has_no_block(m.mem, l0, USER_CODE_VA),
            i > 0 ==> tables_needed(m.mem, l0, USER_CODE_VA) == 0,
            m.free().len() >= 1 + tables_needed(m.mem, l0, USER_CODE_VA),
            forall|x: u64| m.free().contains(x) ==> m0.free().contains(x),
            forall|j: int| 0 <= j < i ==> #[trigger] leaf_entry(m.mem, l0, code_page(j))
                == Some(((code_phys + 4096 * j) as u64 & ADDR_MASK) | PAGE_USER_RX),
        decreases 256 - i,
    {
        let va = USER_CODE_VA + off;
        let pa = code_phys + off;
        let ghost mb = *m;
        proof {
            lemma_code_page_index(i as u64);
            lemma_code_page_index(0);
            assert(va == code_page(i));
            lemma_same_table_path(m.mem, l0, USER_CODE_VA, va);
        }
        m.map_page_in(l0, va, pa, PAGE_USER_RX);
        proof {
            lemma_same_table_path(m.mem, l0, USER_CODE_VA, va);
            assert(tables_needed(m.mem, l0, va) == 0);
            assert forall|x: u64| m.free().contains(x) implies m0.free().contains(x) by {
                let n = tables_needed(mb.mem, l0, va) as int;
                let k = choose|k: int| 0 <= k < m.free().len() && m.free()[k] == x;
                assert(mb.free()[n + k] == x);
                assert(mb.free().contains(x));
            }
            assert forall|j: int| 0 <= j < i + 1 implies #[trigger] leaf_entry(m.mem, l0, code_page(j))
                == Some(((code_phys + 4096 * j) as u64 & ADDR_MASK) | PAGE_USER_RX) by {
                if j < i {
                    lemma_code_page_index(j as u64);
                    assert(!same_page(va, code_page(j)));
                }
            }
        }
        off = off + FRAME_SIZE;
        proof { i = i + 1; }
    }
    let ghost mc = *m;
    proof {
        lemma_code_page_index(256);
        lemma_code_page_index(0);
        assert(USER_STACK_VA == code_page(256));
        lemma_same_table_path(m.mem, l0, USER_CODE_VA, USER_STACK_VA);
    }
    let frame = m.alloc_frame().unwrap();
    let ghost m1 = *m;
    proof {
        crate::kernel::mmu::lemma_leaf_unchanged(mc, m1.mem, l0, USER_STACK_VA);
        assert(PAGE_USER_RW & 0x0000_FFFF_FFFF_F000u64 == 0) by (bit_vector);
        m.frames.lemma_wf_facts(&m.mem);
        assert(frame@ % 4096 == 0 && frame@ < PA_LIMIT);
        lemma_page_desc(frame@, PAGE_USER_RW);
        lemma_page_frame(frame@);
    }
    m.map_page_in(l0, USER_STACK_VA, frame.addr(), PAGE_USER_RW);
    proof {
        let f = frame@;
        let n = tables_needed(m1.mem, l0, USER_STACK_VA) as int;
        assert(!m.free().contains(f)) by {
            if m.free().contains(f) {
                let j = choose|j: int| 0 <= j < m.free().len() && m.free()[j] == f;
                assert(m1.free()[n + j] == f);
                assert(m1.free().contains(f));
            }
        }
        assert(!m.tables@.dom().contains(f)) by {
            if m.tables@.dom().contains(f) {
                let sub = m1.free().subrange(0, n);
                let j = choose|j: int| 0 <= j < sub.len() && sub[j] == f;
                assert(m1.free()[j] == f);
                assert(m1.free().contains(f));
            }
        }
        assert(mc.free().contains(f));
        assert forall|j: int| 0 <= j && 4096 * j < code_size implies #[trigger] leaf_entry(m.mem, l0, code_page(j))
            == Some(((code_phys + 4096 * j) as u64 & ADDR_MASK) | PAGE_USER_RX) by {
            assert(j < i);
            lemma_code_page_index(j as u64);
            assert(!same_page(USER_STACK_VA, code_page(j)));
            crate::kernel::mmu::lemma_leaf_unchanged(mc, m1.mem, l0, code_page(j));
        }
    }
    (USER_CODE_VA + (entry_phys - code_phys), USER_STACK_VA + USER_STACK_SIZE)
}

} // verus!
