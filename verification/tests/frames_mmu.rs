use lib::kernel::uart::is_utf8;
use lib::kernel::user::print_output;
use lib::kernel::frames::{frame_align_up, Frame};
use lib::kernel::mmu::{Machine, PAGE_USER_RW, PAGE_USER_RX, DEVICE_BLOCK, NORMAL_BLOCK, ADDR_MASK};
use lib::kernel::phys::FRAME_SIZE;

const RAM: u64 = 0x4000_0000;
const RAM_SIZE: u64 = 4 * 1024 * 1024;

fn machine() -> Machine {
    Machine::new(RAM, RAM_SIZE)
}

#[test]
fn frame_self_check() {
    let mut m = machine();
    let initial = m.free_frames();
    assert_eq!(initial, RAM_SIZE / FRAME_SIZE);
    let f1 = m.alloc_frame().expect("pool empty");
    let f2 = m.alloc_frame().expect("pool empty");
    assert_ne!(f1.addr(), f2.addr());
    assert_eq!(f1.addr() % FRAME_SIZE, 0);
    assert_eq!(f2.addr() % FRAME_SIZE, 0);
    assert_eq!(m.free_frames(), initial - 2);
    m.free_frame(f1);
    m.free_frame(f2);
    assert_eq!(m.free_frames(), initial);
    // LIFO: the most recently freed frame is handed back first.
    let f3 = m.alloc_frame().expect("pool empty");
    assert_eq!(f3.addr(), f2.addr());
    m.free_frame(f3);
}

#[test]
fn frames_cover_ram_and_run_dry() {
    let mut m = machine();
    let mut seen = Vec::new();
    while let Some(f) = m.alloc_frame() {
        assert!(f.addr() >= RAM && f.addr() + FRAME_SIZE <= RAM + RAM_SIZE);
        seen.push(f.addr());
    }
    assert_eq!(seen.len() as u64, RAM_SIZE / FRAME_SIZE);
    seen.sort();
    seen.dedup();
    assert_eq!(seen.len() as u64, RAM_SIZE / FRAME_SIZE);
    assert_eq!(m.free_frames(), 0);
    assert!(m.alloc_frame().is_none());
}

#[test]
fn frame_align_up_rounds_to_frames() {
    assert_eq!(frame_align_up(0), 0);
    assert_eq!(frame_align_up(1), 4096);
    assert_eq!(frame_align_up(4096), 4096);
    assert_eq!(frame_align_up(4097), 8192);
    assert_eq!(Frame::at(0x4000_1000).addr(), 0x4000_1000);
}

#[test]
fn mmu_identity_map_translates() {
    let mut m = machine();
    let t = m.init_mmu();
    assert_eq!(m.current_ttbr0(), t);
    // The identity map is made of blocks, which a page walk does not follow:
    // only 4 KiB page mappings translate.
    assert_eq!(m.translate(t, 0x0900_0000), None);
    assert_eq!(m.translate(t, 0x4000_0000), None);
    assert_eq!(m.translate(t, 0x80_0000_0000), None);
    assert_eq!(DEVICE_BLOCK, 0x60_0000_0000_0405);
    assert_eq!(NORMAL_BLOCK, 0x40_0000_0000_0701);
    assert_eq!(m.free_frames(), RAM_SIZE / FRAME_SIZE - 3);
}

#[test]
fn map_then_translate_and_unmap() {
    let mut m = machine();
    let _boot = m.init_mmu();
    let space = m.new_address_space();
    let f = m.alloc_frame().unwrap();
    let va = 0x80_0000_0000u64;
    m.map_page_in(space & ADDR_MASK, va, f.addr(), PAGE_USER_RW);
    assert_eq!(m.translate(space, va), Some(f.addr()));
    assert_eq!(m.translate(space, va + 0x123), Some(f.addr() + 0x123));
    assert_eq!(m.translate(space, va + 0x1000), None);
    // Mapping in one space leaves another untouched.
    let other = m.new_address_space();
    assert_eq!(m.translate(other, va), None);
    m.unmap_page_in(space & ADDR_MASK, va);
    assert_eq!(m.translate(space, va), None);
    // Unmapping an unmapped page changes nothing.
    m.unmap_page_in(space & ADDR_MASK, va + 0x20_0000_0000);
    assert_eq!(m.translate(space, va + 0x20_0000_0000), None);
}

#[test]
fn map_keeps_other_pages() {
    let mut m = machine();
    m.init_mmu();
    let space = m.new_address_space();
    let a = m.alloc_frame().unwrap();
    let b = m.alloc_frame().unwrap();
    let va = 0x80_0000_0000u64;
    m.map_page_in(space, va, a.addr(), PAGE_USER_RX);
    let free_before = m.free_frames();
    m.map_page_in(space, va + 0x1000, b.addr(), PAGE_USER_RW);
    // Same L3 table: no new tables needed.
    assert_eq!(m.free_frames(), free_before);
    assert_eq!(m.translate(space, va), Some(a.addr()));
    assert_eq!(m.translate(space, va + 0x1000), Some(b.addr()));
}

#[test]
fn activate_is_idempotent() {
    let mut m = machine();
    let boot = m.init_mmu();
    let space = m.new_address_space();
    assert!(m.activate(space));
    assert_eq!(m.current_ttbr0(), space);
    assert!(!m.activate(space));
    assert_eq!(m.current_ttbr0(), space);
    assert!(m.activate(boot));
    assert_eq!(m.current_ttbr0(), boot);
    assert_eq!(lib::kernel::mmu::kernel_ttbr0(&m), boot);
    assert_eq!(lib::kernel::mmu::l0_ptr(space | 0xFFF), space);
}

#[test]
fn new_address_space_costs_one_frame() {
    let mut m = machine();
    m.init_mmu();
    let before = m.free_frames();
    let s1 = m.new_address_space();
    let s2 = m.new_address_space();
    assert_ne!(s1, s2);
    assert_eq!(m.free_frames(), before - 2);
}

#[test]
fn free_address_space_returns_its_tables() {
    let mut m = machine();
    m.init_mmu();
    let before = m.free_frames();
    let space = m.new_address_space();
    let data = m.alloc_frame().unwrap();
    m.map_page_in(space, 0x80_0000_0000, data.addr(), PAGE_USER_RW);
    // Root, L1, L2 and L3 tables, plus the data frame.
    assert_eq!(m.free_frames(), before - 5);
    m.free_address_space(space);
    // Every table comes back; the data frame is not a table and stays out.
    assert_eq!(m.free_frames(), before - 1);
    // The root went back last, so it is the next frame handed out.
    assert_eq!(m.alloc_frame().unwrap().addr(), space);
}

#[test]
fn new_then_free_address_space_restores_pool() {
    let mut m = machine();
    m.init_mmu();
    let before = m.free_frames();
    let space = m.new_address_space();
    m.free_address_space(space);
    assert_eq!(m.free_frames(), before);
    assert_eq!(m.new_address_space(), space);
}

#[test]
fn free_address_space_keeps_other_spaces() {
    let mut m = machine();
    let boot = m.init_mmu();
    let a = m.new_address_space();
    let b = m.new_address_space();
    let fa = m.alloc_frame().unwrap();
    let fb = m.alloc_frame().unwrap();
    let va = 0x80_0000_0000u64;
    m.map_page_in(a, va, fa.addr(), PAGE_USER_RW);
    m.map_page_in(b, va, fb.addr(), PAGE_USER_RW);
    m.free_address_space(a);
    assert_eq!(m.translate(b, va), Some(fb.addr()));
    assert_eq!(m.translate(b, va + 0x10), Some(fb.addr() + 0x10));
    assert_eq!(m.translate(boot, 0x4000_0000), None);
}

#[test]
fn map_and_unmap_in_one_space_keep_the_other() {
    let mut m = machine();
    m.init_mmu();
    let a = m.new_address_space();
    let b = m.new_address_space();
    let fa = m.alloc_frame().unwrap();
    let fb = m.alloc_frame().unwrap();
    let va = 0x80_0000_0000u64;
    m.map_page_in(b, va, fb.addr(), PAGE_USER_RW);
    m.map_page_in(a, va, fa.addr(), PAGE_USER_RX);
    assert_eq!(m.translate(b, va), Some(fb.addr()));
    m.unmap_page_in(a, va);
    assert_eq!(m.translate(a, va), None);
    assert_eq!(m.translate(b, va), Some(fb.addr()));
}

#[test]
fn utf8_check_matches_the_standard_library() {
    let cases: [&[u8]; 12] = [
        b"", b"plain ascii\n", "h\u{e9}llo".as_bytes(), "\u{20ac}".as_bytes(), "\u{1f600}".as_bytes(),
        &[0xC0, 0x80], &[0xED, 0xA0, 0x80], &[0xF4, 0x90, 0x80, 0x80], &[0xE2, 0x82],
        &[0x80], &[0xF0, 0x9F, 0x98], &[0xFF],
    ];
    for c in cases {
        assert_eq!(is_utf8(c), std::str::from_utf8(c).is_ok(), "{:?}", c);
    }
    assert!(is_utf8("\u{10ffff}".as_bytes()));
    assert!(!is_utf8(&[0xF4, 0x90, 0x80, 0x80]));
}

#[test]
fn print_output_reads_user_bytes_and_needs_utf8() {
    let mut m = machine();
    let boot = m.init_mmu();
    let f = m.alloc_frame().unwrap();
    let va = 0x80_0000_0000u64;
    m.map_page(va, f.addr(), PAGE_USER_RW);
    for (i, b) in b"hi\n".iter().enumerate() {
        m.mem.write_u8(f.addr() + i as u64, *b);
    }
    assert_eq!(print_output(&m, boot, va, 3), b"hi\r\n".to_vec());
    // Not UTF-8: nothing is shown.
    m.mem.write_u8(f.addr() + 3, 0xFF);
    assert_eq!(print_output(&m, boot, va, 4), Vec::<u8>::new());
    // Running off the mapped page: nothing is shown.
    assert_eq!(print_output(&m, boot, va + 4094, 4), Vec::<u8>::new());
}

#[test]
fn a_new_machine_has_every_frame_free_highest_first() {
    let mut m = machine();
    assert_eq!(m.free_frames(), RAM_SIZE / FRAME_SIZE);
    assert_eq!(m.alloc_frame().unwrap().addr(), RAM + RAM_SIZE - FRAME_SIZE);
    assert_eq!(m.alloc_frame().unwrap().addr(), RAM + RAM_SIZE - 2 * FRAME_SIZE);
}
