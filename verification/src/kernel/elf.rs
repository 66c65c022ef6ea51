//! Minimal ELF64 loader for the embedded EL0 userspace image: a little-endian
//! AArch64 `ET_EXEC` image with `PT_LOAD` segments at fixed virtual addresses.
//! No relocations, no dynamic linking, no demand paging.
use vstd::prelude::*;
use crate::kernel::phys::FRAME_SIZE;
use crate::kernel::frames::{Frame, frame_align_up};
use crate::kernel::mmu::{Machine, others_kept, lemma_others_kept_trans, lemma_others_kept_same_tables, va_index, leaf_entry, path_has_no_block, tables_needed, translation, same_page, entry,
    ADDR_MASK, PA_LIMIT, PAGE_USER_RW, PAGE_USER_RX};
use crate::abi::USER_BASE;

verus! {

/// ELF header: `e_type` (u16; 2 = `ET_EXEC`).
pub const E_TYPE: usize = 16;
/// ELF header: `e_machine` (u16; 0xB7 = `EM_AARCH64`).
pub const E_MACHINE: usize = 18;
/// ELF header: `e_entry` (u64).
pub const E_ENTRY: usize = 24;
/// ELF header: `e_phoff` (u64).
pub const E_PHOFF: usize = 32;
/// ELF header: `e_phentsize` (u16).
pub const E_PHENTSIZE: usize = 54;
/// ELF header: `e_phnum` (u16).
pub const E_PHNUM: usize = 56;

/// Program header: `p_type` (u32; 1 = `PT_LOAD`).
pub const P_TYPE: u64 = 0;
/// Program header: `p_flags` (u32; bit 0 = X, bit 1 = W, bit 2 = R).
pub const P_FLAGS: u64 = 4;
/// Program header: `p_offset` (u64).
pub const P_OFFSET: u64 = 8;
/// Program header: `p_vaddr` (u64).
pub const P_VADDR: u64 = 16;
/// Program header: `p_filesz` (u64).
pub const P_FILESZ: u64 = 32;
/// Program header: `p_memsz` (u64).
pub const P_MEMSZ: u64 = 40;

/// A loadable segment.
pub const PT_LOAD: u32 = 1;
/// Segment flag: executable.
pub const PF_X: u32 = 1;
/// Segment flag: writable.
pub const PF_W: u32 = 2;

/// Maximum number of `PT_LOAD` segments tracked.
pub const MAX_SEGMENTS: usize = 8;

/// A virtual-address range occupied by a loaded segment.
#[derive(Clone, Copy, PartialEq, Eq, Structural, Debug)]
pub struct Range {
    pub start: u64,
    pub end: u64,
    /// Whether the segment was mapped writable (everything the loader maps is
    /// either read+execute or read+write).
    pub writable: bool,
}

/// The result of loading an image: where execution begins and the mapped
/// ranges (the first `count` of `ranges`).
#[derive(Debug)]
pub struct Loaded {
    pub entry: u64,
    pub ranges: Vec<Range>,
    pub count: usize,
}

impl Loaded {
    pub open spec fn wf(&self) -> bool {
        &&& self.ranges.len() == MAX_SEGMENTS
        &&& self.count <= MAX_SEGMENTS
    }

    /// The ranges actually in use.
    pub open spec fn used(&self) -> Seq<Range> {
        self.ranges@.subrange(0, self.count as int)
    }
}

/// The little-endian 16-bit value at `off`.
pub open spec fn le16(b: Seq<u8>, off: int) -> int {
    b[off] + 256 * b[off + 1]
}

/// The little-endian 32-bit value at `off`.
pub open spec fn le32(b: Seq<u8>, off: int) -> int {
    le16(b, off) + 0x10000 * le16(b, off + 2)
}

/// The little-endian 64-bit value at `off`.
pub open spec fn le64(b: Seq<u8>, off: int) -> int {
    le32(b, off) + 0x1_0000_0000 * le32(b, off + 4)
}

/// A 64-bit little-endian AArch64 `ET_EXEC` ELF header.
pub open spec fn header_ok(img: Seq<u8>) -> bool {
    &&& img.len() >= 64
    &&& img[0] == 0x7f && img[1] == 0x45 && img[2] == 0x4c && img[3] == 0x46
    &&& img[4] == 2
    &&& img[5] == 1
    &&& le16(img, E_TYPE as int) == 2
    &&& le16(img, E_MACHINE as int) == 0xB7
}

/// Number of program headers.
pub open spec fn ph_count(img: Seq<u8>) -> int {
    le16(img, E_PHNUM as int)
}

/// Offset of program header `i`.
pub open spec fn ph_at(img: Seq<u8>, i: int) -> int {
    le64(img, E_PHOFF as int) + i * le16(img, E_PHENTSIZE as int)
}

/// `p_type` of program header `i`.
pub open spec fn p_type(img: Seq<u8>, i: int) -> int {
    le32(img, ph_at(img, i))
}

/// `p_flags` of program header `i`.
pub open spec fn p_flags(img: Seq<u8>, i: int) -> u32 {
    le32(img, ph_at(img, i) + P_FLAGS) as u32
}

/// `p_offset` of program header `i`.
pub open spec fn p_offset(img: Seq<u8>, i: int) -> int {
    le64(img, ph_at(img, i) + P_OFFSET)
}

/// `p_vaddr` of program header `i`.
pub open spec fn p_vaddr(img: Seq<u8>, i: int) -> int {
    le64(img, ph_at(img, i) + P_VADDR)
}

/// `p_filesz` of program header `i`.
pub open spec fn p_filesz(img: Seq<u8>, i: int) -> int {
    le64(img, ph_at(img, i) + P_FILESZ)
}

/// `p_memsz` of program header `i`.
pub open spec fn p_memsz(img: Seq<u8>, i: int) -> int {
    le64(img, ph_at(img, i) + P_MEMSZ)
}

/// Program header `i` is a non-empty `PT_LOAD` segment: the loader maps it.
pub open spec fn is_load(img: Seq<u8>, i: int) -> bool {
    p_type(img, i) == PT_LOAD && p_memsz(img, i) != 0
}

/// Segment `i` is executable (mapped read + execute, else read + write).
pub open spec fn executable(img: Seq<u8>, i: int) -> bool {
    p_flags(img, i) & PF_X != 0
}

/// Number of 4 KiB pages segment `i` occupies.
pub open spec fn seg_pages(img: Seq<u8>, i: int) -> int {
    (p_memsz(img, i) + 4095) / 4096
}

/// Bytes of segment `i` read from the file: the file size, but no more than
/// the pages hold.
pub open spec fn file_bytes(img: Seq<u8>, i: int) -> int {
    if p_filesz(img, i) < 4096 * seg_pages(img, i) { p_filesz(img, i) } else { 4096 * seg_pages(img, i) }
}

/// Program header `i` can be read, and loading it neither overflows nor
/// reads past the image: page-aligned, never both writable and executable.
pub open spec fn phdr_ok(img: Seq<u8>, i: int) -> bool {
    &&& ph_at(img, i) + 4 <= img.len()
    &&& p_type(img, i) == PT_LOAD ==> ph_at(img, i) + 48 <= img.len()
    &&& is_load(img, i) ==> {
        &&& p_vaddr(img, i) % 4096 == 0
        &&& executable(img, i) ==> p_flags(img, i) & PF_W == 0
        &&& p_memsz(img, i) + 4095 <= u64::MAX
        &&& p_vaddr(img, i) + p_memsz(img, i) <= u64::MAX
        &&& file_bytes(img, i) > 0 ==> p_offset(img, i) + file_bytes(img, i) <= img.len()
    }
}

/// How many of the first `n` program headers are loaded.
pub open spec fn loads_before(img: Seq<u8>, n: int) -> nat
    decreases n,
{
    if n <= 0 {
        0
    } else {
        loads_before(img, n - 1) + if is_load(img, n - 1) { 1nat } else { 0nat }
    }
}

/// An image the loader accepts.
pub open spec fn image_ok(img: Seq<u8>) -> bool {
    &&& header_ok(img)
    &&& img.len() <= u64::MAX
    &&& forall|i: int| 0 <= i < ph_count(img) ==> #[trigger] phdr_ok(img, i)
    &&& loads_before(img, ph_count(img)) <= MAX_SEGMENTS
}

/// The byte at offset `off` of segment `i`'s memory image: file contents,
/// then zeros (the BSS tail and the padding of its last page).
pub open spec fn seg_byte(img: Seq<u8>, i: int, off: int) -> u8 {
    if off < p_filesz(img, i) { img[p_offset(img, i) + off] } else { 0 }
}

/// The pages the loader maps for the first `n` program headers, in order, as
/// (segment, page number) pairs.
pub open spec fn page_list(img: Seq<u8>, n: int) -> Seq<(int, int)>
    decreases n,
{
    if n <= 0 {
        Seq::empty()
    } else {
        page_list(img, n - 1) + if is_load(img, n - 1) {
            seg_page_seq(img, n - 1)
        } else {
            Seq::empty()
        }
    }
}

/// Every page the loader maps for `img`, in order.
pub open spec fn image_pages(img: Seq<u8>) -> Seq<(int, int)> {
    page_list(img, ph_count(img))
}

/// The virtual address of page `sp.1` of segment `sp.0`.
pub open spec fn page_va(img: Seq<u8>, sp: (int, int)) -> int {
    p_vaddr(img, sp.0) + 4096 * sp.1
}

/// The descriptor flags segment `i` is mapped with.
pub open spec fn seg_flags(img: Seq<u8>, i: int) -> u64 {
    if executable(img, i) { PAGE_USER_RX } else { PAGE_USER_RW }
}

/// The pages of segment `i`, in order.
pub open spec fn seg_page_seq(img: Seq<u8>, i: int) -> Seq<(int, int)> {
    Seq::new(seg_pages(img, i) as nat, |p: int| (i, p))
}

/// The range recorded for segment `i`.
pub open spec fn seg_range(img: Seq<u8>, i: int) -> Range {
    Range {
        start: p_vaddr(img, i) as u64,
        end: (p_vaddr(img, i) + p_memsz(img, i)) as u64,
        writable: !executable(img, i),
    }
}

/// The ranges recorded for the first `n` program headers.
pub open spec fn range_list(img: Seq<u8>, n: int) -> Seq<Range>
    decreases n,
{
    if n <= 0 {
        Seq::empty()
    } else {
        range_list(img, n - 1) + if is_load(img, n - 1) { seq![seg_range(img, n - 1)] } else { Seq::empty() }
    }
}

/// Page `k` of `pages` is loaded: `owned[base + k]` holds its address and a
/// data frame (neither free nor a page table) holding its bytes; unless a later
/// page lies in the same page, the frame is mapped there with its segment's
/// flags.
pub open spec fn page_loaded(m: Machine, l0: u64, img: Seq<u8>, pages: Seq<(int, int)>,
    owned: Seq<(u64, Frame)>, base: int, k: int) -> bool {
    let va = owned[base + k].0;
    let f = owned[base + k].1@;
    &&& va == page_va(img, pages[k])
    &&& m.mem.has_frame(f as int)
    &&& !m.tables@.dom().contains(f)
    &&& !m.free().contains(f)
    &&& forall|b: int| 0 <= b < FRAME_SIZE ==> #[trigger] m.mem.byte(f + b)
        == seg_byte(img, pages[k].0, 4096 * pages[k].1 + b)
    &&& (forall|j: int| k < j < pages.len() ==> !same_page(va, #[trigger] page_va(img, pages[j]) as u64))
        ==> leaf_entry(m.mem, l0, va) == Some(f | seg_flags(img, pages[k].0))
}

/// `owned[base..]` records `pages`, each loaded; their frames are distinct and
/// came from `pool`.
pub open spec fn pages_loaded(m: Machine, l0: u64, img: Seq<u8>, pages: Seq<(int, int)>,
    owned: Seq<(u64, Frame)>, base: int, pool: Seq<u64>) -> bool {
    &&& 0 <= base
    &&& owned.len() == base + pages.len()
    &&& forall|k: int| 0 <= k < pages.len() ==> #[trigger] page_loaded(m, l0, img, pages, owned, base, k)
    &&& forall|k: int| 0 <= k < pages.len() ==> pool.contains(#[trigger] owned[base + k].1@)
    &&& forall|k1: int, k2: int| 0 <= k1 < k2 < pages.len()
        ==> #[trigger] owned[base + k1].1@ != #[trigger] owned[base + k2].1@
}

/// Every loadable segment lies in the user window: from `USER_BASE` up to
/// the top of the 48-bit address space.
pub open spec fn image_user_window(img: Seq<u8>) -> bool {
    forall|i: int| 0 <= i < ph_count(img) && #[trigger] is_load(img, i)
        ==> USER_BASE <= p_vaddr(img, i) && p_vaddr(img, i) + p_memsz(img, i) <= PA_LIMIT
}

/// Each page of `page_list(img, n)` is a page of a loadable header below `n`.
pub proof fn lemma_page_list_members(img: Seq<u8>, n: int)
    requires
        n >= 0,
    ensures
        forall|k: int| 0 <= k < page_list(img, n).len() ==> {
            let sp = #[trigger] page_list(img, n)[k];
            &&& 0 <= sp.0 < n
            &&& is_load(img, sp.0)
            &&& 0 <= sp.1 < seg_pages(img, sp.0)
        },
    decreases n,
{
    if n > 0 {
        lemma_page_list_members(img, n - 1);
        let prev = page_list(img, n - 1);
        assert forall|k: int| 0 <= k < page_list(img, n).len() implies {
            let sp = #[trigger] page_list(img, n)[k];
            &&& 0 <= sp.0 < n
            &&& is_load(img, sp.0)
            &&& 0 <= sp.1 < seg_pages(img, sp.0)
        } by {
            if k < prev.len() {
                assert(page_list(img, n)[k] == prev[k]);
            } else {
                assert(page_list(img, n)[k] == seg_page_seq(img, n - 1)[k - prev.len()]);
            }
        }
    }
}

/// In an image inside the user window, every page the loader maps lies in
/// the user half of the address space (L0 slot 1 or above).
pub proof fn lemma_pages_in_user_window(img: Seq<u8>)
    requires
        image_ok(img),
        image_user_window(img),
    ensures
        forall|k: int| 0 <= k < image_pages(img).len()
            ==> crate::kernel::mmu::va_index(#[trigger] page_va(img, image_pages(img)[k]) as u64, 0) != 0,
{
    lemma_page_list_members(img, ph_count(img));
    assert forall|k: int| 0 <= k < image_pages(img).len()
        implies crate::kernel::mmu::va_index(#[trigger] page_va(img, image_pages(img)[k]) as u64, 0) != 0 by {
        let sp = image_pages(img)[k];
        let i = sp.0;
        assert(phdr_ok(img, i));
        let m = p_memsz(img, i);
        assert(4096 * sp.1 < m) by (nonlinear_arith)
            requires
                0 <= sp.1 < seg_pages(img, i),
                seg_pages(img, i) == (m + 4095) / 4096,
                m > 0,
        ;
        let va = page_va(img, sp) as u64;
        assert(USER_BASE <= va < PA_LIMIT);
        assert((va >> 39u64) & 0x1FF != 0) by (bit_vector)
            requires
                0x80_0000_0000u64 <= va < 0x1_0000_0000_0000u64,
        ;
    }
}

/// A page of a loadable segment of an image in the user window lies outside
/// the kernel's L0 slot.
pub proof fn lemma_seg_page_user(img: Seq<u8>, i: int, p: int)
    requires
        image_ok(img),
        image_user_window(img),
        0 <= i < ph_count(img),
        is_load(img, i),
        0 <= p < seg_pages(img, i),
    ensures
        va_index(page_va(img, (i, p)) as u64, 0) != 0,
{
    assert(phdr_ok(img, i));
    let m = p_memsz(img, i);
    assert(4096 * p < m) by (nonlinear_arith)
        requires
            0 <= p < seg_pages(img, i),
            seg_pages(img, i) == (m + 4095) / 4096,
            m > 0,
    ;
    let va = page_va(img, (i, p)) as u64;
    assert(USER_BASE <= va < PA_LIMIT);
    assert((va >> 39u64) & 0x1FF != 0) by (bit_vector)
        requires
            0x80_0000_0000u64 <= va < 0x1_0000_0000_0000u64,
    ;
}

/// Why loading stopped.
#[derive(Clone, Copy, PartialEq, Eq, Structural, Debug)]
pub enum LoadError {
    /// The frame pool ran dry.
    OutOfFrames,
}

fn read_u16(b: &[u8], off: usize) -> (v: u16)
    requires
        off + 2 <= b.len(),
    ensures
        v == le16(b@, off as int),
{
    b[off] as u16 + 256 * (b[off + 1] as u16)
}

fn read_u32(b: &[u8], off: usize) -> (v: u32)
    requires
        off + 4 <= b.len(),
    ensures
        v == le32(b@, off as int),
{
    read_u16(b, off) as u32 + 0x10000 * (read_u16(b, off + 2) as u32)
}

fn read_u64(b: &[u8], off: usize) -> (v: u64)
    requires
        off + 8 <= b.len(),
    ensures
        v == le64(b@, off as int),
{
    read_u32(b, off) as u64 + 0x1_0000_0000 * (read_u32(b, off + 4) as u64)
}

/// Whether `image` starts with a 64-bit little-endian AArch64 `ET_EXEC`
/// header.
pub fn check_header(image: &[u8]) -> (ok: bool)
    ensures
        ok == header_ok(image@),
{
    image.len() >= 64 && image[0] == 0x7f && image[1] == 0x45 && image[2] == 0x4c
        && image[3] == 0x46 && image[4] == 2 && image[5] == 1 && read_u16(image, E_TYPE) == 2
        && read_u16(image, E_MACHINE) == 0xB7
}

/// The entry virtual address of a validated image.
pub fn validate(image: &[u8]) -> (entry: u64)
    requires
        header_ok(image@),
    ensures
        entry == le64(image@, E_ENTRY as int),
{
    read_u64(image, E_ENTRY)
}

/// Whether the loader accepts `image` (see [`image_ok`]): a valid header and
/// program headers that can all be read and loaded, with at most
/// [`MAX_SEGMENTS`] loadable segments.
#[verifier::rlimit(40)]
pub fn check_image(image: &[u8]) -> (ok: bool)
    ensures
        ok == image_ok(image@),
{
    let ghost img = image@;
    if !check_header(image) {
        return false;
    }
    let len = image.len() as u64;
    let phoff = read_u64(image, E_PHOFF);
    let phentsize = read_u16(image, E_PHENTSIZE) as u64;
    let phnum = read_u16(image, E_PHNUM) as u64;
    let mut loads: u64 = 0;
    let mut i: u64 = 0;
    while i < phnum
        invariant
            image@ == img,
            header_ok(img),
            len == img.len(),
            len == image.len(),
            phentsize < 0x10000,
            phnum < 0x10000,
            phoff == le64(img, E_PHOFF as int),
            phentsize == le16(img, E_PHENTSIZE as int),
            phnum == ph_count(img),
            i <= phnum,
            forall|j: int| 0 <= j < i ==> #[trigger] phdr_ok(img, j),
            loads == loads_before(img, i as int),
            loads <= MAX_SEGMENTS,
        decreases phnum - i,
    {
        assert(i * phentsize < 0x1_0000_0000) by (nonlinear_arith)
            requires
                i < 0x10000,
                phentsize < 0x10000,
        ;
        let prod = i * phentsize;
        if phoff > len || prod > len - phoff || len - phoff - prod < 4 {
            assert(!phdr_ok(img, i as int));
            return false;
        }
        let ph = phoff + prod;
        assert(ph == ph_at(img, i as int));
        let ptype = read_u32(image, ph as usize);
        assert(ptype == p_type(img, i as int));
        if ptype == PT_LOAD {
            if len - ph < 48 {
                assert(!phdr_ok(img, i as int));
                return false;
            }
            let memsz = read_u64(image, (ph + P_MEMSZ) as usize);
            if memsz != 0 {
                let filesz = read_u64(image, (ph + P_FILESZ) as usize);
                let vaddr = read_u64(image, (ph + P_VADDR) as usize);
                let offset = read_u64(image, (ph + P_OFFSET) as usize);
                let flags = read_u32(image, (ph + P_FLAGS) as usize);
                assert(is_load(img, i as int));
                assert(flags == p_flags(img, i as int));
                if vaddr % FRAME_SIZE != 0 || (flags & PF_X != 0 && flags & PF_W != 0)
                    || memsz > u64::MAX - 4095 || vaddr > u64::MAX - memsz {
                    assert(!phdr_ok(img, i as int));
                    return false;
                }
                let aligned = frame_align_up(memsz);
                proof {
                    assert(aligned == 4096 * seg_pages(img, i as int)) by (nonlinear_arith)
                        requires
                            aligned % 4096 == 0,
                            memsz <= aligned < memsz + 4096,
                            seg_pages(img, i as int) == (memsz + 4095) / 4096,
                    ;
                }
                let fb = if filesz < aligned { filesz } else { aligned };
                assert(fb == file_bytes(img, i as int));
                if fb > 0 && (offset > len || fb > len - offset) {
                    assert(!phdr_ok(img, i as int));
                    return false;
                }
                assert(phdr_ok(img, i as int));
                if loads == MAX_SEGMENTS as u64 {
                    proof {
                        lemma_range_count(img, i as int + 1, ph_count(img));
                    }
                    return false;
                }
                loads = loads + 1;
            } else {
                assert(phdr_ok(img, i as int));
            }
        } else {
            assert(phdr_ok(img, i as int));
        }
        i = i + 1;
    }
    true
}

/// Whether every loadable segment of the accepted `image` lies in the user
/// window (see [`image_user_window`]).
pub fn check_user_window(image: &[u8]) -> (ok: bool)
    requires
        image_ok(image@),
    ensures
        ok == image_user_window(image@),
{
    let ghost img = image@;
    let phoff = read_u64(image, E_PHOFF);
    let phentsize = read_u16(image, E_PHENTSIZE) as u64;
    let phnum = read_u16(image, E_PHNUM) as u64;
    let mut i: u64 = 0;
    while i < phnum
        invariant
            image@ == img,
            image_ok(img),
            phoff == le64(img, E_PHOFF as int),
            phentsize == le16(img, E_PHENTSIZE as int),
            phnum == ph_count(img),
            i <= phnum,
            forall|j: int| 0 <= j < i && #[trigger] is_load(img, j)
                ==> USER_BASE <= p_vaddr(img, j) && p_vaddr(img, j) + p_memsz(img, j) <= PA_LIMIT,
        decreases phnum - i,
    {
        proof { assert(phdr_ok(img, i as int)); }
        let ph = phoff + i * phentsize;
        assert(ph == ph_at(img, i as int));
        assert(ph + 4 <= image.len());
        let ptype = read_u32(image, ph as usize);
        assert(ptype == p_type(img, i as int));
        if ptype == PT_LOAD {
            let memsz = read_u64(image, (ph + P_MEMSZ) as usize);
            if memsz != 0 {
                let vaddr = read_u64(image, (ph + P_VADDR) as usize);
                assert(is_load(img, i as int));
                if vaddr < USER_BASE || vaddr + memsz > PA_LIMIT {
                    return false;
                }
            }
        }
        i = i + 1;
    }
    true
}

/// Fill the data frame `f` with one page of a segment: byte `b` is the byte
/// at offset `page + b` of the segment (file bytes from `offset`, then zeros).
fn fill_frame(m: &mut Machine, f: u64, image: &[u8], offset: u64, filesz: u64, page: u64)
    requires
        old(m).wf(),
        old(m).mem.has_frame(f as int),
        !old(m).tables@.dom().contains(f),
        !old(m).free().contains(f),
        page + FRAME_SIZE <= u64::MAX,
        page < filesz ==> offset + (if filesz < page + FRAME_SIZE { filesz as int } else { page + FRAME_SIZE })
            <= image.len(),
    ensures
        final(m).wf(),
        final(m).same_regs(old(m)),
        final(m).tables == old(m).tables,
        final(m).parents == old(m).parents,
        final(m).frames == old(m).frames,
        forall|b: int| 0 <= b < FRAME_SIZE ==> #[trigger] final(m).mem.byte(f + b)
            == if page + b < filesz { image@[offset + page + b] } else { 0u8 },
        forall|g: u64| old(m).mem.has_frame(g as int) && g != f
            ==> #[trigger] final(m).mem.frame_kept(&old(m).mem, g),
        forall|t: u64, i: int| old(m).tables@.dom().contains(t) && 0 <= i < 512
            ==> #[trigger] entry(final(m).mem, t, i) == entry(old(m).mem, t, i),
{
    let ghost m0 = *m;
    let mut b: u64 = 0;
    while b < FRAME_SIZE
        invariant
            m0.wf(),
            m.wf(),
            m.same_regs(&m0),
            m.tables == m0.tables,
            m.parents == m0.parents,
            m.frames == m0.frames,
            m0.mem.has_frame(f as int),
            !m0.tables@.dom().contains(f),
            !m0.free().contains(f),
            page + FRAME_SIZE <= u64::MAX,
            page < filesz ==> offset + (if filesz < page + FRAME_SIZE { filesz as int } else { page + FRAME_SIZE })
                <= image.len(),
            b <= FRAME_SIZE,
            forall|c: int| 0 <= c < b ==> #[trigger] m.mem.byte(f + c)
                == if page + c < filesz { image@[offset + page + c] } else { 0u8 },
            forall|g: u64| m0.mem.has_frame(g as int) && g != f
                ==> #[trigger] m.mem.frame_kept(&m0.mem, g),
            forall|t: u64, i: int| m0.tables@.dom().contains(t) && 0 <= i < 512
                ==> #[trigger] entry(m.mem, t, i) == entry(m0.mem, t, i),
        decreases FRAME_SIZE - b,
    {
        let seg_off = page + b;
        let byte = if seg_off < filesz {
            image[(offset + seg_off) as usize]
        } else {
            0
        };
        let ghost m1 = *m;
        m.write_frame_byte(f, f + b, byte);
        proof {
            assert forall|c: int| 0 <= c < b + 1 implies #[trigger] m.mem.byte(f + c)
                == if page + c < filesz { image@[offset + page + c] } else { 0u8 } by {
                if c < b {
                    assert(m1.mem.has_byte(f + c));
                }
            }
            assert forall|g: u64| m0.mem.has_frame(g as int) && g != f
                implies #[trigger] m.mem.frame_kept(&m0.mem, g) by {
                assert(m1.mem.frame_kept(&m0.mem, g));
                assert(m.mem.frame_kept(&m1.mem, g));
                assert forall|x: int| g <= x < g + FRAME_SIZE implies #[trigger] m.mem.byte(x) == m0.mem.byte(x) by {
                    assert(m.mem.byte(x) == m1.mem.byte(x));
                }
            }
        }
        b = b + 1;
    }
}

/// Map one page of a segment at `va` with descriptor `flags`: take a frame
/// from the pool, fill it (see [`fill_frame`]) and map it under `l0`. Fails,
/// changing nothing, when the pool cannot supply the frame and the page tables
/// the mapping needs.
fn load_page(m: &mut Machine, l0: u64, image: &[u8], va: u64, offset: u64, filesz: u64, page: u64,
    flags: u64) -> (r: Result<Frame, LoadError>)
    requires
        old(m).wf(),
        old(m).is_root(l0),
        path_has_no_block(old(m).mem, l0, va),
        flags & ADDR_MASK == 0,
        page + FRAME_SIZE <= u64::MAX,
        page < filesz ==> offset + (if filesz < page + FRAME_SIZE { filesz as int } else { page + FRAME_SIZE })
            <= image.len(),
    ensures
        r is Err <==> old(m).free().len() < 1 + tables_needed(old(m).mem, l0, va),
        r is Err ==> *final(m) == *old(m),
        r matches Ok(fr) ==> {
            let f = fr@;
            let n = tables_needed(old(m).mem, l0, va) as int;
            &&& final(m).wf()
            &&& final(m).same_regs(old(m))
            &&& final(m).tables_grow(old(m))
            &&& f == old(m).free()[0]
            &&& final(m).free() == old(m).free().subrange(1 + n, old(m).free().len() as int)
            &&& forall|t: u64| #[trigger] final(m).tables@.dom().contains(t) ==> old(m).tables@.dom().contains(t)
                || old(m).free().subrange(1, 1 + n).contains(t)
            &&& final(m).mem.has_frame(f as int)
            &&& !final(m).tables@.dom().contains(f)
            &&& !final(m).free().contains(f)
            &&& forall|b: int| 0 <= b < FRAME_SIZE ==> #[trigger] final(m).mem.byte(f + b)
                == if page + b < filesz { image@[offset + page + b] } else { 0u8 }
            &&& leaf_entry(final(m).mem, l0, va) == Some(f | flags)
            &&& forall|va2: u64| !same_page(va, va2) && leaf_entry(old(m).mem, l0, va2) is Some
                ==> #[trigger] leaf_entry(final(m).mem, l0, va2) == leaf_entry(old(m).mem, l0, va2)
            &&& forall|va2: u64| !same_page(va, va2)
                ==> #[trigger] translation(final(m).mem, l0, va2) == translation(old(m).mem, l0, va2)
            &&& forall|va2: u64| path_has_no_block(old(m).mem, l0, va2)
                ==> #[trigger] path_has_no_block(final(m).mem, l0, va2)
            &&& forall|g: u64| old(m).mem.has_frame(g as int) && g != f && !final(m).tables@.dom().contains(g)
                ==> #[trigger] final(m).mem.frame_kept(&old(m).mem, g)
        },
        old(m).kernel_l1 != 0 && va_index(va, 0) != 0 ==> others_kept(*old(m), *final(m), l0),
{
    let need = m.tables_to_create(l0, va);
    let avail = m.free_frames();
    if avail < need + 1 {
        return Err(LoadError::OutOfFrames);
    }
    let ghost m0 = *m;
    let frame = match m.alloc_frame() {
        Some(fr) => fr,
        None => return Err(LoadError::OutOfFrames),
    };
    let f = frame.addr();
    let ghost m1 = *m;
    fill_frame(m, f, image, offset, filesz, page);
    let ghost m2 = *m;
    proof {
        crate::kernel::mmu::lemma_leaf_unchanged(m1, m2.mem, l0, va);
        assert forall|va2: u64| #![trigger path_has_no_block(m2.mem, l0, va2)] #![trigger leaf_entry(m2.mem, l0, va2)]
            #![trigger translation(m2.mem, l0, va2)]
            true implies leaf_entry(m2.mem, l0, va2) == leaf_entry(m0.mem, l0, va2)
                && translation(m2.mem, l0, va2) == translation(m0.mem, l0, va2)
                && path_has_no_block(m2.mem, l0, va2) == path_has_no_block(m0.mem, l0, va2) by {
            crate::kernel::mmu::lemma_leaf_unchanged(m1, m2.mem, l0, va2);
        }
        crate::kernel::mmu::lemma_page_frame(f);
    }
    m.map_page_in(l0, va, f, flags);
    proof {
        let n = tables_needed(m0.mem, l0, va) as int;
        assert(m.free() =~= m0.free().subrange(1 + n, m0.free().len() as int));
        assert forall|t: u64| #[trigger] m.tables@.dom().contains(t) implies m0.tables@.dom().contains(t)
            || m0.free().subrange(1, 1 + n).contains(t) by {
            if !m0.tables@.dom().contains(t) {
                let j = choose|j: int| 0 <= j < n && m2.free().subrange(0, n)[j] == t;
                assert(m0.free().subrange(1, 1 + n)[j] == t);
            }
        }
        assert(!m.tables@.dom().contains(f)) by {
            if m.tables@.dom().contains(f) {
                let j = choose|j: int| 0 <= j < n && m2.free().subrange(0, n)[j] == f;
                assert(m2.free()[j] == f);
                assert(m2.free().contains(f));
            }
        }
        assert(!m.free().contains(f)) by {
            if m.free().contains(f) {
                let j = choose|j: int| 0 <= j < m.free().len() && m.free()[j] == f;
                assert(m2.free()[n + j] == f);
                assert(m2.free().contains(f));
            }
        }
        assert(m.mem.frame_kept(&m2.mem, f));
        assert forall|b: int| 0 <= b < FRAME_SIZE implies #[trigger] m.mem.byte(f + b)
            == if page + b < filesz { image@[offset + page + b] } else { 0u8 } by {
            assert(m.mem.byte(f + b) == m2.mem.byte(f + b));
        }
        assert forall|g: u64| m0.mem.has_frame(g as int) && g != f && !m.tables@.dom().contains(g)
            implies #[trigger] m.mem.frame_kept(&m0.mem, g) by {
            assert(m2.mem.frame_kept(&m1.mem, g));
            assert(m.mem.frame_kept(&m2.mem, g));
            assert forall|x: int| g <= x < g + FRAME_SIZE implies #[trigger] m.mem.byte(x) == m0.mem.byte(x) by {
                assert(m.mem.byte(x) == m2.mem.byte(x));
                assert(m2.mem.byte(x) == m1.mem.byte(x));
            }
        }
        if m0.kernel_l1 != 0 && va_index(va, 0) != 0 {
            lemma_others_kept_same_tables(m0, m1, l0);
            lemma_others_kept_same_tables(m1, m2, l0);
            lemma_others_kept_trans(m0, m1, m2, l0);
            lemma_others_kept_trans(m0, m2, *m, l0);
        }
    }
    Ok(frame)
}

proof fn lemma_user_flags()
    ensures
        PAGE_USER_RX & ADDR_MASK == 0,
        PAGE_USER_RW & ADDR_MASK == 0,
{
    assert(0x20_0000_0000_07C3u64 & 0x0000_FFFF_FFFF_F000u64 == 0) by (bit_vector);
    assert(0x60_0000_0000_0743u64 & 0x0000_FFFF_FFFF_F000u64 == 0) by (bit_vector);
}

/// Map every page of program header `i` (a loadable segment) under `l0`,
/// appending each `(va, frame)` to `owned`. Stops at the first page the frame
/// pool cannot supply.
#[verifier::rlimit(100)]
#[verifier::spinoff_prover]
fn load_segment(m: &mut Machine, l0: u64, image: &[u8], Ghost(i): Ghost<int>, vaddr: u64, memsz: u64,
    filesz: u64, offset: u64, flags: u64, owned: &mut Vec<(u64, Frame)>,
    Ghost(pages): Ghost<Seq<(int, int)>>, Ghost(base): Ghost<int>, Ghost(pool): Ghost<Seq<u64>>)
    -> (r: Result<(), LoadError>)
    requires
        old(m).wf(),
        old(m).is_root(l0),
        image_ok(image@),
        0 <= i < ph_count(image@),
        is_load(image@, i),
        vaddr == p_vaddr(image@, i),
        memsz == p_memsz(image@, i),
        filesz == p_filesz(image@, i),
        offset == p_offset(image@, i),
        flags == seg_flags(image@, i),
        pages_loaded(*old(m), l0, image@, pages, old(owned)@, base, pool),
        forall|x: u64| old(m).free().contains(x) ==> pool.contains(x),
        forall|p: int| 0 <= p < seg_pages(image@, i)
            ==> path_has_no_block(old(m).mem, l0, #[trigger] page_va(image@, (i, p)) as u64),
    ensures
        final(m).wf(),
        final(m).same_regs(old(m)),
        final(m).tables_grow(old(m)),
        forall|x: u64| final(m).free().contains(x) ==> old(m).free().contains(x),
        forall|t: u64| #[trigger] final(m).tables@.dom().contains(t)
            ==> old(m).tables@.dom().contains(t) || old(m).free().contains(t),
        old(owned)@.len() <= final(owned)@.len() <= old(owned)@.len() + seg_pages(image@, i),
        final(owned)@.subrange(0, old(owned)@.len() as int) == old(owned)@,
        pages_loaded(*final(m), l0, image@,
            pages + seg_page_seq(image@, i).subrange(0, final(owned)@.len() - old(owned)@.len()),
            final(owned)@, base, pool),
        old(m).free().len() <= final(m).free().len() + 4 * (final(owned)@.len() - old(owned)@.len()),
        r is Ok ==> final(owned)@.len() == old(owned)@.len() + seg_pages(image@, i),
        r is Err ==> final(owned)@.len() < old(owned)@.len() + seg_pages(image@, i)
            && final(m).free().len() < 1 + tables_needed(final(m).mem, l0,
                page_va(image@, (i, final(owned)@.len() - old(owned)@.len())) as u64),
        forall|va2: u64| path_has_no_block(old(m).mem, l0, va2)
            ==> #[trigger] path_has_no_block(final(m).mem, l0, va2),
        forall|va2: u64| (forall|p: int| 0 <= p < final(owned)@.len() - old(owned)@.len()
            ==> !same_page(#[trigger] page_va(image@, (i, p)) as u64, va2))
            ==> #[trigger] translation(final(m).mem, l0, va2) == translation(old(m).mem, l0, va2),
        forall|g: u64| old(m).mem.has_frame(g as int) && !old(m).free().contains(g)
            && !final(m).tables@.dom().contains(g) ==> #[trigger] final(m).mem.frame_kept(&old(m).mem, g),
        old(m).kernel_l1 != 0 && image_user_window(image@) ==> others_kept(*old(m), *final(m), l0),
{
    let ghost img = image@;
    let ghost m0 = *m;
    let ghost o0 = owned@;
    let ghost seq_i = seg_page_seq(img, i);
    proof {
        assert(phdr_ok(img, i));
        lemma_user_flags();
    }
    let aligned = frame_align_up(memsz);
    proof {
        assert(aligned == 4096 * seg_pages(img, i)) by (nonlinear_arith)
            requires
                aligned % 4096 == 0,
                memsz <= aligned < memsz + 4096,
                seg_pages(img, i) == (memsz + 4095) / 4096,
        ;
    }
    let mut page: u64 = 0;
    let ghost mut p: int = 0;
    while page < aligned
        invariant
            m0 == *old(m),
            o0 == old(owned)@,
            m0.wf(),
            m.wf(),
            m.is_root(l0),
            m.same_regs(&m0),
            m.tables_grow(&m0),
            image@ == img,
            image_ok(img),
            0 <= i < ph_count(img),
            is_load(img, i),
            phdr_ok(img, i),
            vaddr == p_vaddr(img, i),
            filesz == p_filesz(img, i),
            offset == p_offset(img, i),
            flags == seg_flags(img, i),
            flags & ADDR_MASK == 0,
            seq_i == seg_page_seq(img, i),
            aligned == 4096 * seg_pages(img, i),
            page == 4096 * p,
            0 <= p <= seg_pages(img, i),
            owned@.len() == o0.len() + p,
            owned@.subrange(0, o0.len() as int) == o0,
            forall|x: u64| m.free().contains(x) ==> m0.free().contains(x),
            forall|x: u64| m0.free().contains(x) ==> pool.contains(x),
            forall|t: u64| #[trigger] m.tables@.dom().contains(t) ==> m0.tables@.dom().contains(t) || m0.free().contains(t),
            pages_loaded(*m, l0, img, pages + seq_i.subrange(0, p), owned@, base, pool),
            m0.free().len() <= m.free().len() + 4 * p,
            forall|q: int| 0 <= q < seg_pages(img, i)
                ==> path_has_no_block(m0.mem, l0, #[trigger] page_va(img, (i, q)) as u64),
            forall|va2: u64| path_has_no_block(m0.mem, l0, va2) ==> #[trigger] path_has_no_block(m.mem, l0, va2),
            forall|va2: u64| (forall|q: int| 0 <= q < p ==> !same_page(#[trigger] page_va(img, (i, q)) as u64, va2))
                ==> #[trigger] translation(m.mem, l0, va2) == translation(m0.mem, l0, va2),
            forall|g: u64| m0.mem.has_frame(g as int) && !m0.free().contains(g)
                && !m.tables@.dom().contains(g) ==> #[trigger] m.mem.frame_kept(&m0.mem, g),
            m0.kernel_l1 != 0 && image_user_window(img) ==> others_kept(m0, *m, l0),
        decreases aligned - page,
    {
        let va = vaddr + page;
        proof {
            assert(page_va(img, (i, p)) == va);
            assert(path_has_no_block(m.mem, l0, va));
        }
        let ghost m1 = *m;
        let ghost ow1 = owned@;
        match load_page(m, l0, image, va, offset, filesz, page, flags) {
            Err(e) => {
                proof {
                    assert(seq_i.subrange(0, owned@.len() - o0.len()) == seq_i.subrange(0, p));
                }
                return Err(e);
            },
            Ok(frame) => {
                proof {
                    let n = tables_needed(m1.mem, l0, va) as int;
                    assert forall|x: u64| m1.free().contains(x) implies pool.contains(x) by {
                        assert(m0.free().contains(x));
                    }
                    lemma_extend(m1, *m, l0, img, pages + seq_i.subrange(0, p), ow1, base, pool, (i, p), frame, n);
                    assert(seq_i[p] == (i, p));
                    assert((pages + seq_i.subrange(0, p)).push((i, p)) =~= pages + seq_i.subrange(0, p + 1));
                }
                owned.push((va, frame));
                proof {
                    assert(owned@.subrange(0, o0.len() as int) =~= o0) by {
                        assert forall|j: int| 0 <= j < o0.len() implies owned@[j] == o0[j] by {
                            assert(ow1.subrange(0, o0.len() as int)[j] == o0[j]);
                        }
                    }
                    let n = tables_needed(m1.mem, l0, va) as int;
                    assert forall|x: u64| m.free().contains(x) implies m0.free().contains(x) by {
                        let j = choose|j: int| 0 <= j < m.free().len() && m.free()[j] == x;
                        assert(m1.free()[1 + n + j] == x);
                        assert(m1.free().contains(x));
                    }
                    assert forall|t: u64| #[trigger] m.tables@.dom().contains(t) implies
                        m0.tables@.dom().contains(t) || m0.free().contains(t) by {
                        if !m1.tables@.dom().contains(t) {
                            let sub = m1.free().subrange(1, 1 + n);
                            let j = choose|j: int| 0 <= j < sub.len() && sub[j] == t;
                            assert(m1.free()[1 + j] == t);
                            assert(m1.free().contains(t));
                        }
                    }
                    assert forall|va2: u64| (forall|q: int| 0 <= q < p + 1 ==> !same_page(#[trigger] page_va(img, (i, q)) as u64, va2))
                        implies #[trigger] translation(m.mem, l0, va2) == translation(m0.mem, l0, va2) by {
                        assert(!same_page(page_va(img, (i, p)) as u64, va2));
                        assert forall|q: int| 0 <= q < p implies !same_page(#[trigger] page_va(img, (i, q)) as u64, va2) by {}
                        assert(translation(m1.mem, l0, va2) == translation(m0.mem, l0, va2));
                    }
                    if m0.kernel_l1 != 0 && image_user_window(img) {
                        lemma_seg_page_user(img, i, p);
                        lemma_others_kept_trans(m0, m1, *m, l0);
                    }
                    assert forall|g: u64| m0.mem.has_frame(g as int) && !m0.free().contains(g)
                        && !m.tables@.dom().contains(g) implies #[trigger] m.mem.frame_kept(&m0.mem, g) by {
                        assert(m1.free().contains(frame@));
                        assert(g != frame@);
                        assert(!m1.tables@.dom().contains(g));
                        assert(m1.mem.frame_kept(&m0.mem, g));
                        assert(m.mem.frame_kept(&m1.mem, g));
                        assert forall|x: int| g <= x < g + FRAME_SIZE implies #[trigger] m.mem.byte(x) == m0.mem.byte(x) by {
                            assert(m.mem.byte(x) == m1.mem.byte(x));
                        }
                    }
                }
            },
        }
        page = page + FRAME_SIZE;
        proof { p = p + 1; }
    }
    Ok(())
}

/// The pages of the first `a` headers begin the pages of the first `b`.
proof fn lemma_page_list_prefix(img: Seq<u8>, a: int, b: int)
    requires
        0 <= a <= b,
    ensures
        page_list(img, a).len() <= page_list(img, b).len(),
        page_list(img, b).subrange(0, page_list(img, a).len() as int) == page_list(img, a),
    decreases b - a,
{
    if a < b {
        lemma_page_list_prefix(img, a, b - 1);
        assert(page_list(img, b - 1).len() <= page_list(img, b).len());
        assert(page_list(img, b).subrange(0, page_list(img, b - 1).len() as int) =~= page_list(img, b - 1));
        assert(page_list(img, b).subrange(0, page_list(img, a).len() as int)
            =~= page_list(img, b - 1).subrange(0, page_list(img, a).len() as int));
    } else {
        assert(page_list(img, b).subrange(0, page_list(img, a).len() as int) =~= page_list(img, a));
    }
}

/// One range is recorded per loaded header, and the count only grows.
proof fn lemma_range_count(img: Seq<u8>, a: int, b: int)
    requires
        0 <= a <= b,
    ensures
        range_list(img, a).len() == loads_before(img, a),
        loads_before(img, a) <= loads_before(img, b),
    decreases b,
{
    if b > 0 {
        if a < b {
            lemma_range_count(img, a, b - 1);
        } else {
            lemma_range_count(img, a - 1, b - 1);
        }
    }
}

/// Loading into the space under `l0` has gone from machine `m0` and owned
/// list `o0` to `m` and `owned`, mapping `pages`.
pub open spec fn load_progress(m0: Machine, m: Machine, l0: u64, img: Seq<u8>, o0: Seq<(u64, Frame)>,
    owned: Seq<(u64, Frame)>, pages: Seq<(int, int)>) -> bool {
    &&& m.wf()
    &&& m.is_root(l0)
    &&& m.same_regs(&m0)
    &&& m.tables_grow(&m0)
    &&& forall|x: u64| m.free().contains(x) ==> m0.free().contains(x)
    &&& forall|t: u64| #[trigger] m.tables@.dom().contains(t) ==> m0.tables@.dom().contains(t) || m0.free().contains(t)
    &&& owned.len() == o0.len() + pages.len()
    &&& owned.subrange(0, o0.len() as int) == o0
    &&& pages_loaded(m, l0, img, pages, owned, o0.len() as int, m0.free())
    &&& m0.free().len() <= m.free().len() + 4 * pages.len()
    &&& forall|va2: u64| path_has_no_block(m0.mem, l0, va2) ==> #[trigger] path_has_no_block(m.mem, l0, va2)
    &&& forall|va2: u64| (forall|q: int| 0 <= q < pages.len()
        ==> !same_page(#[trigger] page_va(img, pages[q]) as u64, va2))
        ==> #[trigger] translation(m.mem, l0, va2) == translation(m0.mem, l0, va2)
    &&& forall|g: u64| m0.mem.has_frame(g as int) && !m0.free().contains(g)
        && !m.tables@.dom().contains(g) ==> #[trigger] m.mem.frame_kept(&m0.mem, g)
    &&& m0.kernel_l1 != 0 && image_user_window(img) ==> others_kept(m0, m, l0)
}

/// Load program header `i`: map its pages if it is a loadable segment and
/// record its range at `ranges[count]`.
#[verifier::rlimit(100)]
#[verifier::spinoff_prover]
fn load_phdr(m: &mut Machine, l0: u64, image: &[u8], i: u64, phoff: u64, phentsize: u64,
    owned: &mut Vec<(u64, Frame)>, ranges: &mut Vec<Range>, count: &mut usize,
    Ghost(m0): Ghost<Machine>, Ghost(o0): Ghost<Seq<(u64, Frame)>>) -> (r: Result<(), LoadError>)
    requires
        image_ok(image@),
        m0.wf(),
        0 <= i < ph_count(image@),
        phoff == le64(image@, E_PHOFF as int),
        phentsize == le16(image@, E_PHENTSIZE as int),
        load_progress(m0, *old(m), l0, image@, o0, old(owned)@, page_list(image@, i as int)),
        forall|q: int| 0 <= q < image_pages(image@).len()
            ==> path_has_no_block(m0.mem, l0, #[trigger] page_va(image@, image_pages(image@)[q]) as u64),
        old(ranges).len() == MAX_SEGMENTS,
        *old(count) == range_list(image@, i as int).len(),
        old(ranges)@.subrange(0, *old(count) as int) == range_list(image@, i as int),
    ensures
        r is Ok ==> {
            &&& load_progress(m0, *final(m), l0, image@, o0, final(owned)@, page_list(image@, i + 1))
            &&& final(ranges).len() == MAX_SEGMENTS
            &&& *final(count) == range_list(image@, i + 1).len()
            &&& *final(count) <= MAX_SEGMENTS
            &&& final(ranges)@.subrange(0, *final(count) as int) == range_list(image@, i + 1)
        },
        r is Err ==> {
            let d = final(owned)@.len() - o0.len();
            &&& d < image_pages(image@).len()
            &&& load_progress(m0, *final(m), l0, image@, o0, final(owned)@, image_pages(image@).subrange(0, d))
            &&& final(m).free().len() < 1 + tables_needed(final(m).mem, l0,
                page_va(image@, image_pages(image@)[d]) as u64)
        },
{
    let ghost img = image@;
    let ghost all = image_pages(img);
    proof {
        assert(phdr_ok(img, i as int));
        lemma_range_count(img, i as int, ph_count(img));
    }
    let ph = phoff + i * phentsize;
    assert(ph == ph_at(img, i as int));
    assert(ph + 4 <= image.len());
    let ptype = read_u32(image, ph as usize);
    assert(ptype == p_type(img, i as int));
    if ptype != PT_LOAD {
        proof {
            assert(page_list(img, i + 1) =~= page_list(img, i as int));
            assert(range_list(img, i + 1) =~= range_list(img, i as int));
        }
        return Ok(());
    }
    let memsz = read_u64(image, (ph + P_MEMSZ) as usize);
    if memsz == 0 {
        proof {
            assert(page_list(img, i + 1) =~= page_list(img, i as int));
            assert(range_list(img, i + 1) =~= range_list(img, i as int));
        }
        return Ok(());
    }
    let filesz = read_u64(image, (ph + P_FILESZ) as usize);
    let vaddr = read_u64(image, (ph + P_VADDR) as usize);
    let offset = read_u64(image, (ph + P_OFFSET) as usize);
    let flags = read_u32(image, (ph + P_FLAGS) as usize);
    assert(is_load(img, i as int));
    assert(flags == p_flags(img, i as int));
    let executable = flags & PF_X != 0;
    let perms = if executable { PAGE_USER_RX } else { PAGE_USER_RW };
    let ghost before = page_list(img, i as int);
    let ghost seq_i = seg_page_seq(img, i as int);
    let ghost m1 = *m;
    let ghost ow1 = owned@;
    proof {
        lemma_page_list_prefix(img, i + 1, ph_count(img));
        assert(page_list(img, i + 1) == before + seq_i);
        assert forall|p: int| 0 <= p < seg_pages(img, i as int)
            implies path_has_no_block(m.mem, l0, #[trigger] page_va(img, (i as int, p)) as u64) by {
            let q = before.len() + p;
            assert(page_list(img, i + 1)[q] == (i as int, p));
            assert(all[q] == (i as int, p));
            assert(path_has_no_block(m0.mem, l0, page_va(img, all[q]) as u64));
        }
        assert forall|x: u64| m1.free().contains(x) implies m0.free().contains(x) by {}
    }
    let res = load_segment(m, l0, image, Ghost(i as int), vaddr, memsz, filesz, offset, perms, owned,
        Ghost(before), Ghost(o0.len() as int), Ghost(m0.free()));
    proof {
        let d = owned@.len() - ow1.len();
        assert(all.subrange(0, before.len() + d) =~= before + seq_i.subrange(0, d)) by {
            assert(all.subrange(0, page_list(img, i + 1).len() as int) == before + seq_i);
        }
        lemma_segment_progress(m0, m1, *m, l0, img, o0, ow1, owned@, before, i as int, d);
    }
    match res {
        Err(e) => {
            proof {
                let d = owned@.len() - ow1.len();
                assert(all[before.len() + d] == (i as int, d)) by {
                    assert(page_list(img, i + 1)[before.len() + d] == (i as int, d));
                }
            }
            return Err(e);
        },
        Ok(()) => {},
    }
    proof {
        lemma_range_count(img, i + 1, ph_count(img));
        lemma_range_count(img, i as int, ph_count(img));
        assert(before + seq_i.subrange(0, seq_i.len() as int) =~= page_list(img, i + 1));
    }
    ranges.set(*count, Range { start: vaddr, end: vaddr + memsz, writable: !executable });
    *count = *count + 1;
    proof {
        assert(ranges@.subrange(0, *count as int) =~= range_list(img, i + 1));
    }
    Ok(())
}

/// Loading a segment's first `d` pages, as [`load_segment`] does it, extends
/// [`load_progress`] by those pages.
proof fn lemma_segment_progress(m0: Machine, m1: Machine, m2: Machine, l0: u64, img: Seq<u8>,
    o0: Seq<(u64, Frame)>, ow1: Seq<(u64, Frame)>, ow2: Seq<(u64, Frame)>, before: Seq<(int, int)>, i: int, d: int)
    requires
        load_progress(m0, m1, l0, img, o0, ow1, before),
        0 <= d <= seg_pages(img, i),
        m2.wf(),
        m2.same_regs(&m1),
        m2.tables_grow(&m1),
        forall|x: u64| m2.free().contains(x) ==> m1.free().contains(x),
        forall|t: u64| #[trigger] m2.tables@.dom().contains(t) ==> m1.tables@.dom().contains(t) || m1.free().contains(t),
        ow2.len() == ow1.len() + d,
        ow2.subrange(0, ow1.len() as int) == ow1,
        pages_loaded(m2, l0, img, before + seg_page_seq(img, i).subrange(0, d), ow2, o0.len() as int, m0.free()),
        m1.free().len() <= m2.free().len() + 4 * d,
        forall|va2: u64| path_has_no_block(m1.mem, l0, va2) ==> #[trigger] path_has_no_block(m2.mem, l0, va2),
        forall|va2: u64| (forall|p: int| 0 <= p < d ==> !same_page(#[trigger] page_va(img, (i, p)) as u64, va2))
            ==> #[trigger] translation(m2.mem, l0, va2) == translation(m1.mem, l0, va2),
        forall|g: u64| m1.mem.has_frame(g as int) && !m1.free().contains(g)
            && !m2.tables@.dom().contains(g) ==> #[trigger] m2.mem.frame_kept(&m1.mem, g),
        m1.kernel_l1 != 0 && image_user_window(img) ==> others_kept(m1, m2, l0),
    ensures
        load_progress(m0, m2, l0, img, o0, ow2, before + seg_page_seq(img, i).subrange(0, d)),
{
    if m0.kernel_l1 != 0 && image_user_window(img) {
        lemma_others_kept_trans(m0, m1, m2, l0);
    }
    let pages2 = before + seg_page_seq(img, i).subrange(0, d);
    assert(ow2.subrange(0, o0.len() as int) =~= o0) by {
        assert forall|j: int| 0 <= j < o0.len() implies ow2[j] == o0[j] by {
            assert(ow2.subrange(0, ow1.len() as int)[j] == ow1[j]);
            assert(ow1.subrange(0, o0.len() as int)[j] == o0[j]);
        }
    }
    assert forall|va2: u64| (forall|q: int| 0 <= q < pages2.len()
        ==> !same_page(#[trigger] page_va(img, pages2[q]) as u64, va2))
        implies #[trigger] translation(m2.mem, l0, va2) == translation(m0.mem, l0, va2) by {
        assert forall|q: int| 0 <= q < before.len()
            implies !same_page(#[trigger] page_va(img, before[q]) as u64, va2) by {
            assert(pages2[q] == before[q]);
        }
        assert forall|p: int| 0 <= p < d
            implies !same_page(#[trigger] page_va(img, (i, p)) as u64, va2) by {
            assert(pages2[before.len() + p] == (i, p));
        }
    }
    assert forall|g: u64| m0.mem.has_frame(g as int) && !m0.free().contains(g)
        && !m2.tables@.dom().contains(g) implies #[trigger] m2.mem.frame_kept(&m0.mem, g) by {
        assert(!m1.free().contains(g));
        assert(!m1.tables@.dom().contains(g));
        assert(m1.mem.frame_kept(&m0.mem, g));
        assert(m2.mem.frame_kept(&m1.mem, g));
        assert forall|x: int| g <= x < g + FRAME_SIZE implies #[trigger] m2.mem.byte(x) == m0.mem.byte(x) by {
            assert(m2.mem.byte(x) == m1.mem.byte(x));
        }
    }
    assert forall|t: u64| #[trigger] m2.tables@.dom().contains(t) implies
        m0.tables@.dom().contains(t) || m0.free().contains(t) by {
        if !m1.tables@.dom().contains(t) {
            assert(m1.free().contains(t));
        }
    }
}

/// Map every `PT_LOAD` segment of `image` at its `p_vaddr` with EL0
/// permissions (read + execute for executable segments, else read + write) in
/// the address space `ttbr0`: each page in a fresh frame holding the file's
/// bytes, zero-filled past them. Every `(va, frame)` mapped is appended to
/// `owned` so teardown can unmap and free it. Returns the entry point and the
/// mapped ranges, or stops at the first page the frame pool cannot supply.
pub fn load(m: &mut Machine, image: &[u8], ttbr0: u64, owned: &mut Vec<(u64, Frame)>)
    -> (r: Result<Loaded, LoadError>)
    requires
        old(m).wf(),
        old(m).is_root(ttbr0 & ADDR_MASK),
        image_ok(image@),
        forall|k: int| 0 <= k < image_pages(image@).len() ==> path_has_no_block(old(m).mem,
            ttbr0 & ADDR_MASK, #[trigger] page_va(image@, image_pages(image@)[k]) as u64),
    ensures
        load_progress(*old(m), *final(m), ttbr0 & ADDR_MASK, image@, old(owned)@, final(owned)@,
            image_pages(image@).subrange(0, final(owned)@.len() - old(owned)@.len())),
        final(owned)@.len() <= old(owned)@.len() + image_pages(image@).len(),
        r matches Ok(ld) ==> {
            &&& final(owned)@.len() == old(owned)@.len() + image_pages(image@).len()
            &&& ld.wf()
            &&& ld.entry == le64(image@, E_ENTRY as int)
            &&& ld.used() == range_list(image@, ph_count(image@))
        },
        r is Err ==> final(owned)@.len() < old(owned)@.len() + image_pages(image@).len()
            && final(m).free().len() < 1 + tables_needed(final(m).mem, ttbr0 & ADDR_MASK,
                page_va(image@, image_pages(image@)[final(owned)@.len() - old(owned)@.len()]) as u64),
        old(m).free().len() >= 4 * image_pages(image@).len() ==> r is Ok,
{
    let ghost img = image@;
    let ghost m0 = *m;
    let ghost o0 = owned@;
    let entry = validate(image);
    let l0 = crate::kernel::mmu::l0_ptr(ttbr0);
    let phoff = read_u64(image, E_PHOFF);
    let phentsize = read_u16(image, E_PHENTSIZE) as u64;
    let phnum = read_u16(image, E_PHNUM) as u64;
    let mut ranges: Vec<Range> = Vec::new();
    let mut k: usize = 0;
    while k < MAX_SEGMENTS
        invariant
            k <= MAX_SEGMENTS,
            ranges.len() == k,
        decreases MAX_SEGMENTS - k,
    {
        ranges.push(Range { start: 0, end: 0, writable: false });
        k = k + 1;
    }
    let mut count: usize = 0;
    let mut i: u64 = 0;
    proof {
        m0.frames.lemma_wf_facts(&m0.mem);
        assert(owned@.subrange(0, o0.len() as int) =~= o0);
        assert(page_list(img, 0) =~= Seq::<(int, int)>::empty());
        assert(range_list(img, 0) =~= Seq::<Range>::empty());
        assert(ranges@.subrange(0, 0) =~= range_list(img, 0));
        assert(pages_loaded(*m, l0, img, page_list(img, 0), owned@, o0.len() as int, m0.free()));
    }
    while i < phnum
        invariant
            m0 == *old(m),
            o0 == old(owned)@,
            image@ == img,
            image_ok(img),
            l0 == ttbr0 & ADDR_MASK,
            phoff == le64(img, E_PHOFF as int),
            phentsize == le16(img, E_PHENTSIZE as int),
            phnum == ph_count(img),
            i <= phnum,
            m0.wf(),
            load_progress(m0, *m, l0, img, o0, owned@, page_list(img, i as int)),
            forall|q: int| 0 <= q < image_pages(img).len()
                ==> path_has_no_block(m0.mem, l0, #[trigger] page_va(img, image_pages(img)[q]) as u64),
            ranges.len() == MAX_SEGMENTS,
            count == range_list(img, i as int).len(),
            count <= MAX_SEGMENTS,
            ranges@.subrange(0, count as int) == range_list(img, i as int),
        decreases phnum - i,
    {
        let res = load_phdr(m, l0, image, i, phoff, phentsize, owned, &mut ranges, &mut count,
            Ghost(m0), Ghost(o0));
        match res {
            Err(e) => {
                proof {
                    lemma_page_list_prefix(img, i as int, ph_count(img));
                }
                return Err(e);
            },
            Ok(()) => {},
        }
        i = i + 1;
    }
    proof {
        assert(image_pages(img).subrange(0, image_pages(img).len() as int) =~= image_pages(img));
    }
    Ok(Loaded { entry, ranges, count })
}

/// Loading one more page, as [`load_page`] does it, keeps [`pages_loaded`].
proof fn lemma_extend(m0: Machine, m1: Machine, l0: u64, img: Seq<u8>, pages: Seq<(int, int)>,
    owned: Seq<(u64, Frame)>, base: int, pool: Seq<u64>, sp: (int, int), fr: Frame, n: int)
    requires
        m0.wf(),
        pages_loaded(m0, l0, img, pages, owned, base, pool),
        forall|x: u64| m0.free().contains(x) ==> pool.contains(x),
        0 <= page_va(img, sp) <= u64::MAX,
        0 <= n,
        1 + n <= m0.free().len(),
        fr@ == m0.free()[0],
        m1.mem.base == m0.mem.base,
        m1.mem.words.len() == m0.mem.words.len(),
        m1.free() == m0.free().subrange(1 + n, m0.free().len() as int),
        forall|t: u64| #[trigger] m1.tables@.dom().contains(t) ==> m0.tables@.dom().contains(t)
            || m0.free().subrange(1, 1 + n).contains(t),
        !m1.tables@.dom().contains(fr@),
        forall|b: int| 0 <= b < FRAME_SIZE ==> #[trigger] m1.mem.byte(fr@ + b)
            == seg_byte(img, sp.0, 4096 * sp.1 + b),
        leaf_entry(m1.mem, l0, page_va(img, sp) as u64) == Some(fr@ | seg_flags(img, sp.0)),
        forall|va2: u64| !same_page(page_va(img, sp) as u64, va2) && leaf_entry(m0.mem, l0, va2) is Some
            ==> #[trigger] leaf_entry(m1.mem, l0, va2) == leaf_entry(m0.mem, l0, va2),
        forall|g: u64| m0.mem.has_frame(g as int) && g != fr@ && !m1.tables@.dom().contains(g)
            ==> #[trigger] m1.mem.frame_kept(&m0.mem, g),
    ensures
        pages_loaded(m1, l0, img, pages.push(sp), owned.push((page_va(img, sp) as u64, fr)), base, pool),
{
    let f = fr@;
    let pages2 = pages.push(sp);
    let owned2 = owned.push((page_va(img, sp) as u64, fr));
    let va = page_va(img, sp) as u64;
    m0.frames.lemma_wf_facts(&m0.mem);
    assert(m0.free().contains(f));
    assert(!m1.free().contains(f)) by {
        if m1.free().contains(f) {
            let j = choose|j: int| 0 <= j < m1.free().len() && m1.free()[j] == f;
            assert(m0.free()[1 + n + j] == f);
        }
    }
    assert forall|k: int| 0 <= k < pages2.len() implies #[trigger] page_loaded(m1, l0, img, pages2, owned2, base, k) by {
        if k < pages.len() {
            assert(page_loaded(m0, l0, img, pages, owned, base, k));
            assert(owned2[base + k] == owned[base + k]);
            let g = owned[base + k].1@;
            let vk = owned[base + k].0;
            assert(g != f) by {
                if g == f { assert(m0.free().contains(g)); }
            }
            assert(!m1.tables@.dom().contains(g)) by {
                if m1.tables@.dom().contains(g) {
                    if !m0.tables@.dom().contains(g) {
                        let sub = m0.free().subrange(1, 1 + n);
                        let j = choose|j: int| 0 <= j < sub.len() && sub[j] == g;
                        assert(m0.free()[1 + j] == g);
                        assert(m0.free().contains(g));
                    }
                }
            }
            assert(!m1.free().contains(g)) by {
                if m1.free().contains(g) {
                    let j = choose|j: int| 0 <= j < m1.free().len() && m1.free()[j] == g;
                    assert(m0.free()[1 + n + j] == g);
                    assert(m0.free().contains(g));
                }
            }
            assert(m1.mem.frame_kept(&m0.mem, g));
            assert forall|b: int| 0 <= b < FRAME_SIZE implies #[trigger] m1.mem.byte(g + b)
                == seg_byte(img, pages2[k].0, 4096 * pages2[k].1 + b) by {
                assert(m1.mem.byte(g + b) == m0.mem.byte(g + b));
            }
            if forall|j: int| k < j < pages2.len() ==> !same_page(vk, #[trigger] page_va(img, pages2[j]) as u64) {
                assert forall|j: int| k < j < pages.len() implies !same_page(vk, #[trigger] page_va(img, pages[j]) as u64) by {
                    assert(pages2[j] == pages[j]);
                }
                assert(!same_page(vk, page_va(img, pages2[pages.len() as int]) as u64));
                assert(leaf_entry(m0.mem, l0, vk) is Some);
                assert(!same_page(va, vk)) by {
                    assert(pages2[pages.len() as int] == sp);
                }
                assert(leaf_entry(m1.mem, l0, vk) == leaf_entry(m0.mem, l0, vk));
            }
            assert(m1.mem.has_frame(g as int));
            assert(vk == page_va(img, pages2[k]));
        } else {
            assert(owned2[base + k] == (va, fr));
            assert(pages2[k] == sp);
            assert(m0.mem.has_frame(m0.free()[0] as int));
            assert(m1.mem.has_frame(f as int));
            assert(va == page_va(img, sp));
        }
    }
    assert forall|k: int| 0 <= k < pages2.len() implies pool.contains(#[trigger] owned2[base + k].1@) by {
        if k < pages.len() {
            assert(owned2[base + k] == owned[base + k]);
        }
    }
    assert forall|k1: int, k2: int| 0 <= k1 < k2 < pages2.len()
        implies #[trigger] owned2[base + k1].1@ != #[trigger] owned2[base + k2].1@ by {
        assert(owned2[base + k1] == owned[base + k1]);
        if k2 < pages.len() {
            assert(owned2[base + k2] == owned[base + k2]);
        } else {
            assert(page_loaded(m0, l0, img, pages, owned, base, k1));
        }
    }
}

} // verus!
