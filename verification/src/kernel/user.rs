//! User memory: validation of user-supplied pointers and the single gate for
//! kernel-to-user stores.
//!
//! Stores into user memory are performed by the hardware-facing layer with
//! AArch64's unprivileged store instruction, which re-checks every byte with
//! EL0 permissions. This module decides *whether* and *what* to store; the
//! stores themselves are queued as [`Effect`]s, in order.
use vstd::prelude::*;
use crate::abi::USER_BASE;
use crate::kernel::elf::{Loaded, Range, LoadError, load, image_ok, image_pages, page_va, seg_byte, seg_flags,
    range_list, ph_count, le64, E_ENTRY, pages_loaded, page_loaded, image_user_window};
use crate::kernel::frames::Frame;
use crate::kernel::phys::FRAME_SIZE;
use crate::kernel::mmu::{Machine, ADDR_MASK, PAGE_USER_RW, leaf_entry, translation, path_has_no_block,
    tables_needed, same_page, va_index, others_kept, lemma_others_kept_trans, lemma_others_kept_same_tables};
use crate::kernel::Kernel;
use crate::kernel::phys::PhysMem;
use crate::kernel::uart::{crlf, utf8_valid, is_utf8, write_str};

verus! {

/// Virtual base of the user stack: 1 MiB into the user window.
pub const USER_STACK_VA: u64 = 0x80_0010_0000;
/// User stack size (one page).
pub const USER_STACK_SIZE: u64 = 4096;

/// An action on user memory or the console that the hardware-facing layer
/// performs, in the order queued.
#[derive(Clone, Copy, PartialEq, Eq, Structural, Debug)]
pub enum Effect {
    /// Print the UTF-8 string at user address `ptr` of `len` bytes (nothing is
    /// printed when the bytes are not valid UTF-8).
    Print { ptr: u64, len: u64 },
    /// Store `byte` at user address `va` (an unprivileged store).
    Store { va: u64, byte: u8 },
}

/// The running program's kernel-side memory bookkeeping.
pub struct UserState {
    /// The loaded image's mapped ranges (`None` when no program is loaded).
    pub loaded: Option<Loaded>,
    /// Every `(va, frame)` the program owns, for teardown.
    pub frames: Vec<(u64, Frame)>,
}

/// Whether `[ptr, end)` fits in the first range of `rs` that contains it,
/// and that range permits the access.
pub open spec fn range_verdict(rs: Seq<Range>, ptr: int, end: int, need_write: bool) -> bool
    decreases rs.len(),
{
    if rs.len() == 0 {
        false
    } else if ptr >= rs[0].start && end <= rs[0].end {
        !need_write || rs[0].writable
    } else {
        range_verdict(rs.drop_first(), ptr, end, need_write)
    }
}

/// Whether a program is loaded and `[ptr, ptr + len)` lies within its user
/// stack or one of its loaded segments (writable, with `need_write`). With
/// no program loaded, every range fails.
pub open spec fn user_range_ok(loaded: Option<Loaded>, ptr: u64, len: u64, need_write: bool) -> bool {
    let end = ptr + len;
    match loaded {
        None => false,
        Some(l) => if end > u64::MAX {
            false
        } else if ptr >= USER_STACK_VA && end <= USER_STACK_VA + USER_STACK_SIZE {
            true
        } else {
            range_verdict(l.used(), ptr as int, end, need_write)
        },
    }
}

/// The stores that copy `bytes` to user address `dst`.
pub open spec fn stores(dst: u64, bytes: Seq<u8>) -> Seq<Effect> {
    Seq::new(bytes.len(), |i: int| Effect::Store { va: (dst + i) as u64, byte: bytes[i] })
}

impl UserState {
    /// No program loaded.
    pub fn new() -> (u: UserState)
        ensures
            u.loaded.is_none(),
            u.frames@.len() == 0,
    {
        UserState { loaded: None, frames: Vec::new() }
    }

    pub open spec fn wf(&self) -> bool {
        self.loaded matches Some(l) ==> l.wf()
    }
}

/// The shared range check: the stack is always read/write; otherwise the first
/// loaded segment containing the range decides.
pub fn check_user_range(us: &UserState, ptr: u64, len: u64, need_write: bool) -> (r: bool)
    requires
        us.wf(),
    ensures
        r == user_range_ok(us.loaded, ptr, len, need_write),
{
    if us.loaded.is_none() {
        return false;
    }
    let end = match ptr.checked_add(len) {
        Some(e) => e,
        None => return false,
    };
    if ptr >= USER_STACK_VA && end <= USER_STACK_VA + USER_STACK_SIZE {
        return true;
    }
    match &us.loaded {
        None => false,
        Some(loaded) => {
            let mut i: usize = 0;
            proof { assert(loaded.used().subrange(0, loaded.count as int) =~= loaded.used()); }
            while i < loaded.count
                invariant
                    loaded.wf(),
                    us.loaded == Some(*loaded),
                    end == ptr + len,
                    !(ptr >= USER_STACK_VA && end <= USER_STACK_VA + USER_STACK_SIZE),
                    i <= loaded.count,
                    range_verdict(loaded.used(), ptr as int, end as int, need_write)
                        == range_verdict(loaded.used().subrange(i as int, loaded.count as int), ptr as int, end as int, need_write),
                decreases loaded.count - i,
            {
                let r = loaded.ranges[i];
                proof {
                    let rest = loaded.used().subrange(i as int, loaded.count as int);
                    assert(rest.len() > 0);
                    assert(rest[0] == r);
                    assert(rest.drop_first() =~= loaded.used().subrange(i + 1, loaded.count as int));
                }
                if ptr >= r.start && end <= r.end {
                    return !need_write || r.writable;
                }
                i = i + 1;
            }
            false
        },
    }
}

/// Whether `[ptr, ptr + len)` lies entirely within a mapped user segment or
/// the user stack.
pub fn is_user_range(us: &UserState, ptr: u64, len: u64) -> (r: bool)
    requires
        us.wf(),
    ensures
        r == user_range_ok(us.loaded, ptr, len, false),
{
    check_user_range(us, ptr, len, false)
}

/// Like [`is_user_range`], but the range must also be writable: the stack, or
/// a segment mapped read/write.
pub fn is_user_range_writable(us: &UserState, ptr: u64, len: u64) -> (r: bool)
    requires
        us.wf(),
    ensures
        r == user_range_ok(us.loaded, ptr, len, true),
{
    check_user_range(us, ptr, len, true)
}

/// Copy kernel bytes into user memory, validating first. Returns false (and
/// queues nothing) if the destination is not writable user memory.
pub fn copy_to_user(us: &UserState, effects: &mut Vec<Effect>, dst: u64, src: &[u8]) -> (ok: bool)
    requires
        us.wf(),
    ensures
        ok == user_range_ok(us.loaded, dst, src@.len() as u64, true),
        ok ==> final(effects)@ == old(effects)@ + stores(dst, src@),
        !ok ==> final(effects)@ == old(effects)@,
{
    if !is_user_range_writable(us, dst, src.len() as u64) {
        return false;
    }
    let mut i: usize = 0;
    while i < src.len()
        invariant
            i <= src@.len(),
            dst + src@.len() <= u64::MAX,
            effects@ == old(effects)@ + stores(dst, src@.subrange(0, i as int)),
        decreases src@.len() - i,
    {
        effects.push(Effect::Store { va: dst + i as u64, byte: src[i] });
        i = i + 1;
        proof {
            assert(stores(dst, src@.subrange(0, i as int)) =~= stores(dst, src@.subrange(0, i - 1)).push(
                Effect::Store { va: (dst + (i - 1)) as u64, byte: src@[i - 1] }));
        }
    }
    proof { assert(src@.subrange(0, src@.len() as int) =~= src@); }
    true
}

/// The frames in `owned` are distinct data frames of `m`: in RAM, neither
/// page tables nor free.
pub open spec fn owned_ok(m: &Machine, owned: Seq<(u64, Frame)>) -> bool {
    &&& forall|i: int| 0 <= i < owned.len() ==> {
        &&& m.mem.has_frame(#[trigger] owned[i].1@ as int)
        &&& !m.tables@.dom().contains(owned[i].1@)
        &&& !m.free().contains(owned[i].1@)
    }
    &&& forall|i: int, j: int| 0 <= i < j < owned.len() ==> #[trigger] owned[i].1@ != #[trigger] owned[j].1@
}

/// Map a fresh user stack page at [`USER_STACK_VA`] (EL0 read/write) under
/// `l0`, appending it to `owned`. Fails, changing nothing, when the pool
/// cannot supply the frame and the page tables the mapping needs.
pub(crate) fn map_stack(m: &mut Machine, l0: u64, owned: &mut Vec<(u64, Frame)>) -> (r: Result<(), LoadError>)
    requires
        old(m).wf(),
        old(m).is_root(l0),
        path_has_no_block(old(m).mem, l0, USER_STACK_VA),
    ensures
        r is Err <==> old(m).free().len() < 1 + tables_needed(old(m).mem, l0, USER_STACK_VA),
        r is Err ==> *final(m) == *old(m) && final(owned)@ == old(owned)@,
        r is Ok ==> {
            let n = tables_needed(old(m).mem, l0, USER_STACK_VA) as int;
            let f = old(m).free()[0];
            &&& final(m).wf()
            &&& final(m).same_regs(old(m))
            &&& final(m).tables_grow(old(m))
            &&& final(owned)@.len() == old(owned)@.len() + 1
            &&& final(owned)@.subrange(0, old(owned)@.len() as int) == old(owned)@
            &&& final(owned)@.last().0 == USER_STACK_VA
            &&& final(owned)@.last().1@ == f
            &&& final(m).free() == old(m).free().subrange(1 + n, old(m).free().len() as int)
            &&& forall|t: u64| #[trigger] final(m).tables@.dom().contains(t) ==> old(m).tables@.dom().contains(t)
                || old(m).free().subrange(1, 1 + n).contains(t)
            &&& final(m).mem.has_frame(f as int)
            &&& !final(m).tables@.dom().contains(f)
            &&& !final(m).free().contains(f)
            &&& leaf_entry(final(m).mem, l0, USER_STACK_VA) == Some(f | PAGE_USER_RW)
            &&& forall|va2: u64| !same_page(USER_STACK_VA, va2) && leaf_entry(old(m).mem, l0, va2) is Some
                ==> #[trigger] leaf_entry(final(m).mem, l0, va2) == leaf_entry(old(m).mem, l0, va2)
            &&& forall|va2: u64| !same_page(USER_STACK_VA, va2)
                ==> #[trigger] translation(final(m).mem, l0, va2) == translation(old(m).mem, l0, va2)
            &&& forall|g: u64| old(m).mem.has_frame(g as int) && !final(m).tables@.dom().contains(g)
                ==> #[trigger] final(m).mem.frame_kept(&old(m).mem, g)
        },
        old(m).kernel_l1 != 0 ==> others_kept(*old(m), *final(m), l0),
{
    let need = m.tables_to_create(l0, USER_STACK_VA);
    if m.free_frames() < need + 1 {
        return Err(LoadError::OutOfFrames);
    }
    let ghost m0 = *m;
    let frame = match m.alloc_frame() {
        Some(fr) => fr,
        None => return Err(LoadError::OutOfFrames),
    };
    let ghost m1 = *m;
    proof {
        crate::kernel::mmu::lemma_page_frame(frame@);
        assert(PAGE_USER_RW & ADDR_MASK == 0) by (bit_vector);
    }
    m.map_page_in(l0, USER_STACK_VA, frame.addr(), PAGE_USER_RW);
    let ghost ow0 = owned@;
    owned.push((USER_STACK_VA, frame));
    proof {
        let n = tables_needed(m0.mem, l0, USER_STACK_VA) as int;
        let f = frame@;
        assert(owned@.subrange(0, ow0.len() as int) =~= ow0);
        assert(m.free() =~= m0.free().subrange(1 + n, m0.free().len() as int));
        assert forall|t: u64| #[trigger] m.tables@.dom().contains(t) implies m0.tables@.dom().contains(t)
            || m0.free().subrange(1, 1 + n).contains(t) by {
            if !m0.tables@.dom().contains(t) {
                let sub = m1.free().subrange(0, n);
                let j = choose|j: int| 0 <= j < sub.len() && sub[j] == t;
                assert(m0.free().subrange(1, 1 + n)[j] == t);
            }
        }
        assert(!m.tables@.dom().contains(f)) by {
            if m.tables@.dom().contains(f) {
                let sub = m1.free().subrange(0, n);
                let j = choose|j: int| 0 <= j < sub.len() && sub[j] == f;
                assert(m1.free()[j] == f);
                assert(m1.free().contains(f));
            }
        }
        assert(!m.free().contains(f)) by {
            if m.free().contains(f) {
                let j = choose|j: int| 0 <= j < m.free().len() && m.free()[j] == f;
                assert(m1.free()[n + j] == f);
                assert(m1.free().contains(f));
            }
        }
        if m0.kernel_l1 != 0 {
            assert((0x80_0010_0000u64 >> 39u64) & 0x1FF == 1) by (bit_vector);
            assert(va_index(USER_STACK_VA, 0) != 0);
            lemma_others_kept_same_tables(m0, m1, l0);
            lemma_others_kept_trans(m0, m1, *m, l0);
        }
    }
    Ok(())
}

/// `fs` records a program loaded from `img` under `l0`: its pages in order
/// (each frame holding the page's bytes, and mapped with its segment's flags
/// unless a later page or the stack shares its page), then the stack page.
pub open spec fn program_loaded(m: &Machine, l0: u64, img: Seq<u8>, fs: Seq<(u64, Frame)>) -> bool {
    let n = image_pages(img).len() as int;
    &&& fs.len() == n + 1
    &&& forall|i: int| 0 <= i < n ==> #[trigger] fs[i].0 == page_va(img, image_pages(img)[i])
    &&& forall|i: int, b: int| 0 <= i < n && 0 <= b < FRAME_SIZE ==> #[trigger] m.mem.byte(fs[i].1@ + b)
        == seg_byte(img, image_pages(img)[i].0, 4096 * image_pages(img)[i].1 + b)
    &&& forall|i: int| 0 <= i < n && !same_page(USER_STACK_VA, fs[i].0)
        && (forall|j: int| i < j < n ==> !same_page(fs[i].0, #[trigger] fs[j].0))
        ==> leaf_entry(m.mem, l0, #[trigger] fs[i].0) == Some(fs[i].1@ | seg_flags(img, image_pages(img)[i].0))
    &&& fs[n].0 == USER_STACK_VA
    &&& leaf_entry(m.mem, l0, USER_STACK_VA) == Some(fs[n].1@ | PAGE_USER_RW)
}

/// Load the program `image` into the address space `ttbr0` and map its stack,
/// recording every page it owns in `owned` (which starts empty). When the
/// frame pool runs dry, `owned` holds the frames taken so far.
pub(crate) fn load_program(m: &mut Machine, image: &[u8], ttbr0: u64, owned: &mut Vec<(u64, Frame)>)
    -> (r: Result<Loaded, LoadError>)
    requires
        old(m).wf(),
        old(m).is_root(ttbr0 & ADDR_MASK),
        old(owned)@.len() == 0,
        image_ok(image@),
        forall|i: int| 0 <= i < image_pages(image@).len() ==> path_has_no_block(old(m).mem,
            ttbr0 & ADDR_MASK, #[trigger] page_va(image@, image_pages(image@)[i]) as u64),
        path_has_no_block(old(m).mem, ttbr0 & ADDR_MASK, USER_STACK_VA),
    ensures
        final(m).wf(),
        final(m).same_regs(old(m)),
        final(m).tables_grow(old(m)),
        final(m).is_root(ttbr0 & ADDR_MASK),
        owned_ok(final(m), final(owned)@),
        forall|i: int| 0 <= i < final(owned)@.len() ==> old(m).free().contains(#[trigger] final(owned)@[i].1@),
        old(m).free().len() >= 4 * image_pages(image@).len() + 4 ==> r is Ok,
        r matches Ok(ld) ==> {
            &&& ld.wf()
            &&& ld.entry == le64(image@, E_ENTRY as int)
            &&& ld.used() == range_list(image@, ph_count(image@))
            &&& program_loaded(final(m), ttbr0 & ADDR_MASK, image@, final(owned)@)
        },
        old(m).kernel_l1 != 0 && image_user_window(image@) ==> others_kept(*old(m), *final(m), ttbr0 & ADDR_MASK),
{
    let ghost img = image@;
    let ghost m0 = *m;
    let ghost l0 = ttbr0 & ADDR_MASK;
    let res = load(m, image, ttbr0, owned);
    let ghost m1 = *m;
    let ghost pages = image_pages(img);
    let ghost d = owned@.len() as int;
    proof {
        assert(pages_loaded(m1, l0, img, pages.subrange(0, d), owned@, 0, m0.free()));
        assert forall|i: int| 0 <= i < owned@.len() implies {
            &&& m1.mem.has_frame(#[trigger] owned@[i].1@ as int)
            &&& !m1.tables@.dom().contains(owned@[i].1@)
            &&& !m1.free().contains(owned@[i].1@)
        } by {
            assert(page_loaded(m1, l0, img, pages.subrange(0, d), owned@, 0, i));
        }
        assert forall|i: int, j: int| 0 <= i < j < owned@.len() implies #[trigger] owned@[i].1@ != #[trigger] owned@[j].1@ by {
            let ow = owned@;
            assert(ow[0 + i].1@ != ow[0 + j].1@);
        }
        assert forall|i: int| 0 <= i < owned@.len() implies m0.free().contains(#[trigger] owned@[i].1@) by {
            let ow = owned@;
            assert(m0.free().contains(ow[0 + i].1@));
        }
        assert(owned_ok(&m1, owned@));
    }
    let loaded = match res {
        Ok(ld) => ld,
        Err(e) => return Err(e),
    };
    let ghost ow1 = owned@;
    match map_stack(m, ttbr0 & ADDR_MASK, owned) {
        Ok(()) => {},
        Err(e) => return Err(e),
    }
    proof {
        let m2 = *m;
        if m0.kernel_l1 != 0 && image_user_window(img) {
            lemma_others_kept_trans(m0, m1, m2, l0);
        }
        let n = pages.len() as int;
        assert(pages.subrange(0, n) =~= pages);
        let f = owned@[n].1@;
        assert(m1.free().contains(f));
        assert forall|i: int| 0 <= i < owned@.len() implies {
            &&& m2.mem.has_frame(#[trigger] owned@[i].1@ as int)
            &&& !m2.tables@.dom().contains(owned@[i].1@)
            &&& !m2.free().contains(owned@[i].1@)
        } by {
            if i < n {
                assert(owned@[i] == ow1[i]);
                let g = ow1[i].1@;
                assert(page_loaded(m1, l0, img, pages, ow1, 0, i));
                assert(!m2.tables@.dom().contains(g)) by {
                    if m2.tables@.dom().contains(g) && !m1.tables@.dom().contains(g) {
                        let sub = m1.free().subrange(1, 1 + tables_needed(m1.mem, l0, USER_STACK_VA) as int);
                        let j = choose|j: int| 0 <= j < sub.len() && sub[j] == g;
                        assert(m1.free()[1 + j] == g);
                        assert(m1.free().contains(g));
                    }
                }
                assert(!m2.free().contains(g)) by {
                    if m2.free().contains(g) {
                        let j = choose|j: int| 0 <= j < m2.free().len() && m2.free()[j] == g;
                        assert(m1.free()[1 + tables_needed(m1.mem, l0, USER_STACK_VA) + j] == g);
                        assert(m1.free().contains(g));
                    }
                }
            }
        }
        assert forall|i: int, j: int| 0 <= i < j < owned@.len() implies #[trigger] owned@[i].1@ != #[trigger] owned@[j].1@ by {
            assert(owned@[i] == ow1[i]);
            if j < n {
                assert(owned@[j] == ow1[j]);
            } else {
                assert(page_loaded(m1, l0, img, pages, ow1, 0, i));
            }
        }
        assert forall|i: int| 0 <= i < owned@.len() implies m0.free().contains(#[trigger] owned@[i].1@) by {
            if i < n {
                assert(owned@[i] == ow1[i]);
            }
        }
        assert forall|i: int, b: int| 0 <= i < n && 0 <= b < FRAME_SIZE implies #[trigger] m2.mem.byte(owned@[i].1@ + b)
            == seg_byte(img, pages[i].0, 4096 * pages[i].1 + b) by {
            assert(owned@[i] == ow1[i]);
            assert(page_loaded(m1, l0, img, pages, ow1, 0, i));
            let g = ow1[i].1@;
            assert(!m2.tables@.dom().contains(g));
            assert(m2.mem.frame_kept(&m1.mem, g));
            assert(m2.mem.byte(g + b) == m1.mem.byte(g + b));
        }
        assert forall|i: int| 0 <= i < n implies #[trigger] owned@[i].0 == page_va(img, pages[i]) by {
            assert(owned@[i] == ow1[i]);
            assert(page_loaded(m1, l0, img, pages, ow1, 0, i));
        }
        assert forall|i: int| 0 <= i < n && !same_page(USER_STACK_VA, owned@[i].0)
            && (forall|j: int| i < j < n ==> !same_page(owned@[i].0, #[trigger] owned@[j].0))
            implies leaf_entry(m2.mem, l0, #[trigger] owned@[i].0)
                == Some(owned@[i].1@ | seg_flags(img, pages[i].0)) by {
            assert(owned@[i] == ow1[i]);
            assert(page_loaded(m1, l0, img, pages, ow1, 0, i));
            assert forall|j: int| i < j < pages.len() implies !same_page(ow1[i].0, #[trigger] page_va(img, pages[j]) as u64) by {
                assert(owned@[j] == ow1[j]);
                assert(page_loaded(m1, l0, img, pages, ow1, 0, j));
            }
        }
    }
    Ok(loaded)
}

/// Load the user program `image` into the live address space and map its
/// stack: records the loaded ranges (for pointer validation) and every frame
/// the program owns (for teardown). Returns the entry point and the initial
/// stack pointer for the drop to EL0. When the frame pool runs dry nothing is
/// recorded as loaded, and the frames taken so far are recorded as owned.
pub fn enter_user(k: &mut Kernel, image: &[u8]) -> (r: Result<(u64, u64), LoadError>)
    requires
        old(k).machine.wf(),
        old(k).machine.is_root(old(k).machine.ttbr0 & ADDR_MASK),
        image_ok(image@),
        forall|i: int| 0 <= i < image_pages(image@).len() ==> path_has_no_block(old(k).machine.mem,
            old(k).machine.ttbr0 & ADDR_MASK, #[trigger] page_va(image@, image_pages(image@)[i]) as u64),
        path_has_no_block(old(k).machine.mem, old(k).machine.ttbr0 & ADDR_MASK, USER_STACK_VA),
    ensures
        final(k).machine.wf(),
        final(k).machine.same_regs(&old(k).machine),
        final(k).machine.tables_grow(&old(k).machine),
        final(k).ring == old(k).ring,
        final(k).input == old(k).input,
        final(k).sched == old(k).sched,
        final(k).effects == old(k).effects,
        final(k).user.wf(),
        owned_ok(&final(k).machine, final(k).user.frames@),
        old(k).machine.free().len() >= 4 * image_pages(image@).len() + 4 ==> r is Ok,
        r is Err ==> final(k).user.loaded is None,
        r matches Ok((entry, sp)) ==> {
            &&& entry == le64(image@, E_ENTRY as int)
            &&& sp == USER_STACK_VA + USER_STACK_SIZE
            &&& final(k).user.loaded matches Some(ld) && ld.used() == range_list(image@, ph_count(image@))
            &&& program_loaded(&final(k).machine, final(k).machine.ttbr0 & ADDR_MASK, image@, final(k).user.frames@)
        },
{
    let ttbr0 = k.machine.current_ttbr0();
    let mut owned: Vec<(u64, Frame)> = Vec::new();
    let res = load_program(&mut k.machine, image, ttbr0, &mut owned);
    k.user.frames = owned;
    match res {
        Ok(loaded) => {
            let entry = loaded.entry;
            k.user.loaded = Some(loaded);
            Ok((entry, USER_STACK_VA + USER_STACK_SIZE))
        },
        Err(e) => {
            k.user.loaded = None;
            Err(e)
        },
    }
}

/// Reclaim the user program's memory: drop the ring state that refers to it,
/// forget its ranges (pointer validation then fails closed), and unmap every
/// page it owned (segments and stack) in the live address space, returning
/// the frames to the pool. Returns how many frames were freed.
pub fn teardown(k: &mut Kernel) -> (count: usize)
    requires
        old(k).wf(),
        old(k).machine.wf(),
        old(k).machine.is_root(old(k).machine.ttbr0 & ADDR_MASK),
        owned_ok(&old(k).machine, old(k).user.frames@),
    ensures
        final(k).wf(),
        final(k).machine.wf(),
        count == old(k).user.frames@.len(),
        final(k).user.loaded is None,
        final(k).user.frames@.len() == 0,
        forall|i: int| 0 <= i < crate::kernel::process::MAX_PENDING ==> #[trigger] final(k).ring.pending@[i] is None,
        final(k).ring.waiter is None,
        final(k).machine.same_regs(&old(k).machine),
        final(k).machine.tables == old(k).machine.tables,
        final(k).machine.free() == Seq::new(count as nat, |i: int| old(k).user.frames@[count - 1 - i].1@)
            + old(k).machine.free(),
        forall|i: int| 0 <= i < count ==> translation(final(k).machine.mem, final(k).machine.ttbr0 & ADDR_MASK,
            #[trigger] old(k).user.frames@[i].0) is None,
        final(k).sched == old(k).sched,
        final(k).input == old(k).input,
        final(k).effects == old(k).effects,
{
    crate::kernel::ring::abort_user(k);
    k.user.loaded = None;
    let mut owned: Vec<(u64, Frame)> = Vec::new();
    std::mem::swap(&mut owned, &mut k.user.frames);
    let ghost k1 = *k;
    let ghost l0 = k.machine.ttbr0 & ADDR_MASK;
    let count = owned.len();
    let mut i: usize = 0;
    while i < count
        invariant
            k.wf(),
            k.machine.wf(),
            count == owned@.len(),
            i <= count,
            l0 == k.machine.ttbr0 & ADDR_MASK,
            k.machine.is_root(l0),
            k1.machine.wf(),
            owned_ok(&k1.machine, owned@),
            k.machine.same_regs(&k1.machine),
            k.machine.tables == k1.machine.tables,
            k.machine.free() == Seq::new(i as nat, |j: int| owned@[i - 1 - j].1@) + k1.machine.free(),
            forall|j: int| 0 <= j < i ==> translation(k.machine.mem, l0, #[trigger] owned@[j].0) is None,
            k.user.loaded is None,
            k.user.frames@.len() == 0,
            forall|j: int| 0 <= j < crate::kernel::process::MAX_PENDING ==> #[trigger] k.ring.pending@[j] is None,
            k.ring.waiter is None,
            k.sched == k1.sched,
            k.input == k1.input,
            k.effects == k1.effects,
        decreases count - i,
    {
        let (va, frame) = owned[i];
        let ghost m0 = k.machine;
        k.machine.unmap_page(va);
        proof {
            assert(owned@[i as int].1 == frame);
            assert(!k.machine.free().contains(frame@)) by {
                if k.machine.free().contains(frame@) {
                    let j = choose|j: int| 0 <= j < k.machine.free().len() && k.machine.free()[j] == frame@;
                    if j < i {
                        assert(owned@[i - 1 - j].1@ == frame@);
                    } else {
                        assert(k1.machine.free()[j - i] == frame@);
                        assert(k1.machine.free().contains(frame@));
                    }
                }
            }
        }
        let ghost m1 = k.machine;
        k.machine.free_frame(frame);
        proof {
            assert(k.machine.free() =~= Seq::new((i + 1) as nat, |j: int| owned@[i + 1 - 1 - j].1@) + k1.machine.free());
            assert forall|j: int| 0 <= j < i + 1 implies translation(k.machine.mem, l0, #[trigger] owned@[j].0) is None by {
                crate::kernel::mmu::lemma_leaf_unchanged(m1, k.machine.mem, l0, owned@[j].0);
                if j < i && !same_page(va, owned@[j].0) {
                    assert(translation(m0.mem, l0, owned@[j].0) is None);
                } else if j < i {
                    crate::kernel::mmu::lemma_same_page_leaf(m1.mem, l0, va, owned@[j].0);
                }
            }
        }
        i = i + 1;
    }
    count
}

/// Where the `i`-th byte of the user buffer at `ptr` lives, through the
/// tables under `l0`.
pub open spec fn user_pa(mem: PhysMem, l0: u64, ptr: u64, i: int) -> Option<u64> {
    translation(mem, l0, (ptr + i) as u64)
}

/// Every byte of `[ptr, ptr + len)` translates to RAM under `l0`.
pub open spec fn user_readable(mem: PhysMem, l0: u64, ptr: u64, len: u64) -> bool {
    &&& ptr + len <= u64::MAX
    &&& forall|i: int| 0 <= i < len ==> (#[trigger] user_pa(mem, l0, ptr, i) matches Some(pa)
        && mem.has_byte(pa as int))
}

/// The bytes of `[ptr, ptr + len)` as the tables under `l0` show them.
pub open spec fn user_bytes(mem: PhysMem, l0: u64, ptr: u64, len: u64) -> Seq<u8> {
    Seq::new(len as nat, |i: int| mem.byte(user_pa(mem, l0, ptr, i)->0 as int))
}

/// What a `PRINT` of `[ptr, ptr + len)` shows on the console: the bytes,
/// each `\n` as `\r\n`, when they can all be read and are UTF-8 text;
/// nothing otherwise.
pub open spec fn printed(mem: PhysMem, l0: u64, ptr: u64, len: u64) -> Seq<u8> {
    if user_readable(mem, l0, ptr, len) && utf8_valid(user_bytes(mem, l0, ptr, len)) {
        crlf(user_bytes(mem, l0, ptr, len))
    } else {
        Seq::empty()
    }
}

/// The console output of a queued `PRINT` effect of `[ptr, ptr + len)` in
/// the address space `ttbr0` (see [`printed`]).
pub fn print_output(m: &Machine, ttbr0: u64, ptr: u64, len: u64) -> (out: Vec<u8>)
    requires
        m.wf(),
        m.is_root(ttbr0 & ADDR_MASK),
    ensures
        out@ == printed(m.mem, ttbr0 & ADDR_MASK, ptr, len),
{
    let ghost l0 = ttbr0 & ADDR_MASK;
    if ptr.checked_add(len).is_none() {
        return Vec::new();
    }
    let base = m.mem.base;
    let nwords = m.mem.words.len() as u64;
    let mut bytes: Vec<u8> = Vec::new();
    let mut i: u64 = 0;
    proof { m.frames.lemma_wf_facts(&m.mem); }
    while i < len
        invariant
            m.wf(),
            m.mem.wf(),
            m.is_root(ttbr0 & ADDR_MASK),
            l0 == ttbr0 & ADDR_MASK,
            ptr + len <= u64::MAX,
            i <= len,
            base == m.mem.base,
            nwords == m.mem.words.len(),
            bytes@.len() == i,
            forall|j: int| 0 <= j < i ==> (#[trigger] user_pa(m.mem, l0, ptr, j) matches Some(pa)
                && m.mem.has_byte(pa as int)),
            forall|j: int| 0 <= j < i ==> bytes@[j] == user_bytes(m.mem, l0, ptr, len)[j],
        decreases len - i,
    {
        let r = m.translate(ttbr0, ptr + i);
        assert(r == user_pa(m.mem, l0, ptr, i as int));
        match r {
            Some(pa) => {
                if pa < base || (pa - base) / 8 >= nwords {
                    proof {
                        if pa >= base {
                            let d = (pa - base) as int;
                            assert(d >= 8 * nwords) by (nonlinear_arith)
                                requires
                                    d >= 0,
                                    d / 8 >= nwords,
                            {}
                        }
                        assert(!m.mem.has_byte(pa as int));
                        assert(!user_readable(m.mem, l0, ptr, len));
                    }
                    return Vec::new();
                }
                proof {
                    let d = (pa - base) as int;
                    assert(d < 8 * nwords) by (nonlinear_arith)
                        requires
                            d >= 0,
                            d / 8 < nwords,
                    {}
                    assert(m.mem.has_byte(pa as int));
                }
                let b = m.mem.read_u8(pa);
                bytes.push(b);
            },
            None => {
                proof { assert(!user_readable(m.mem, l0, ptr, len)); }
                return Vec::new();
            },
        }
        i = i + 1;
    }
    proof {
        assert(bytes@ =~= user_bytes(m.mem, l0, ptr, len));
        assert(user_readable(m.mem, l0, ptr, len));
    }
    if is_utf8(bytes.as_slice()) {
        write_str(bytes.as_slice())
    } else {
        Vec::new()
    }
}

} // verus!
