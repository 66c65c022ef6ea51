use lib::kernel::elf::{check_header, check_image, validate, load, LoadError, Range};
use lib::kernel::mmu::{Machine, ADDR_MASK};
use lib::kernel::process::{self, ProcessTable, Pending};
use lib::kernel::frames::Frame;
use lib::abi::{USER_BASE, USER_RING_VA};

const RAM: u64 = 0x4000_0000;

fn put16(b: &mut Vec<u8>, off: usize, v: u16) {
    b[off..off + 2].copy_from_slice(&v.to_le_bytes());
}
fn put32(b: &mut Vec<u8>, off: usize, v: u32) {
    b[off..off + 4].copy_from_slice(&v.to_le_bytes());
}
fn put64(b: &mut Vec<u8>, off: usize, v: u64) {
    b[off..off + 8].copy_from_slice(&v.to_le_bytes());
}

/// A two-segment image: code (R-X) at USER_BASE holding the whole file and a
/// zero-filled tail; data (RW) at USER_BASE + 64 KiB, all BSS.
fn image() -> Vec<u8> {
    let mut b = vec![0u8; 64 + 2 * 56 + 16];
    b[0..4].copy_from_slice(b"\x7fELF");
    b[4] = 2;
    b[5] = 1;
    put16(&mut b, 16, 2);
    put16(&mut b, 18, 0xB7);
    put64(&mut b, 24, USER_BASE + 0xB0);
    put64(&mut b, 32, 64);
    put16(&mut b, 54, 56);
    put16(&mut b, 56, 2);
    let n = b.len() as u64;
    // Program header 0: PT_LOAD, R+X, whole file at USER_BASE, 2 pages in memory.
    let p = 64;
    put32(&mut b, p, 1);
    put32(&mut b, p + 4, 5);
    put64(&mut b, p + 8, 0);
    put64(&mut b, p + 16, USER_BASE);
    put64(&mut b, p + 32, n);
    put64(&mut b, p + 40, 0x1800);
    // Program header 1: PT_LOAD, R+W, BSS only.
    let p = 64 + 56;
    put32(&mut b, p, 1);
    put32(&mut b, p + 4, 6);
    put64(&mut b, p + 16, USER_BASE + 0x1_0000);
    put64(&mut b, p + 32, 0);
    put64(&mut b, p + 40, 100);
    for (i, x) in b[176..].iter_mut().enumerate() {
        *x = 0xA0 + i as u8;
    }
    b
}

fn booted() -> Machine {
    let mut m = Machine::new(RAM, 4 * 1024 * 1024);
    m.init_mmu();
    m
}

#[test]
fn elf_self_check() {
    let img = image();
    assert!(check_header(&img));
    assert!(check_image(&img));
    let entry = validate(&img);
    assert_eq!(entry, USER_BASE + 0xB0);
    assert_eq!(entry >> 39, lib::abi::USER_L0_IDX);
}

#[test]
fn malformed_images_are_refused() {
    let mut bad = image();
    bad[0] = 0;
    assert!(!check_header(&bad));
    assert!(!check_image(&bad));
    let mut wx = image();
    put32(&mut wx, 64 + 4, 7); // code segment both W and X
    assert!(check_header(&wx));
    assert!(!check_image(&wx));
    let mut unaligned = image();
    put64(&mut unaligned, 64 + 16, USER_BASE + 8);
    assert!(!check_image(&unaligned));
    let mut short = image();
    short.truncate(100);
    assert!(!check_image(&short));
    assert!(!check_header(&[0x7f, b'E', b'L', b'F']));
    // Only little-endian images are accepted.
    let mut big = image();
    big[5] = 2;
    assert!(!check_header(&big));
    assert!(!check_image(&big));
}

#[test]
fn load_maps_segments_with_contents() {
    let mut m = booted();
    let space = m.new_address_space();
    let img = image();
    let mut owned: Vec<(u64, Frame)> = Vec::new();
    let loaded = load(&mut m, &img, space, &mut owned).expect("load failed");
    assert_eq!(loaded.entry, USER_BASE + 0xB0);
    assert_eq!(loaded.count, 2);
    assert_eq!(loaded.ranges[0], Range { start: USER_BASE, end: USER_BASE + 0x1800, writable: false });
    assert_eq!(loaded.ranges[1], Range { start: USER_BASE + 0x1_0000, end: USER_BASE + 0x1_0000 + 100, writable: true });
    // Two code pages and one data page.
    assert_eq!(owned.len(), 3);
    assert_eq!(owned[0].0, USER_BASE);
    assert_eq!(owned[1].0, USER_BASE + 0x1000);
    assert_eq!(owned[2].0, USER_BASE + 0x1_0000);
    let pa = m.translate(space, USER_BASE).expect("code unmapped");
    assert_eq!(pa, owned[0].1.addr());
    for (i, byte) in img.iter().enumerate() {
        assert_eq!(m.mem.read_u8(pa + i as u64), *byte);
    }
    // Past the file, the segment is zero-filled.
    assert_eq!(m.mem.read_u8(pa + img.len() as u64), 0);
    let pa2 = m.translate(space, USER_BASE + 0x1000).unwrap();
    assert_eq!(m.mem.read_u8(pa2 + 17), 0);
    let pd = m.translate(space, USER_BASE + 0x1_0000 + 99).unwrap();
    assert_eq!(pd & !0xFFF, owned[2].1.addr());
}

#[test]
fn load_reports_out_of_frames() {
    let mut m = Machine::new(RAM, 8 * 4096);
    m.init_mmu();
    let space = m.new_address_space();
    let img = image();
    let mut owned: Vec<(u64, Frame)> = Vec::new();
    // 4 frames left: 3 tables + 1 page, then the pool is dry.
    let r = load(&mut m, &img, space, &mut owned);
    assert_eq!(r.err(), Some(LoadError::OutOfFrames));
    assert_eq!(owned.len(), 1);
    assert_eq!(m.free_frames(), 0);
}

#[test]
fn process_isolation_self_check() {
    let mut m = booted();
    let mut t = ProcessTable::new();
    let img = image();
    let s0 = m.new_address_space();
    let p0 = process::create(&mut t, &mut m, &img, s0).expect("create p0");
    let s1 = m.new_address_space();
    let p1 = process::create(&mut t, &mut m, &img, s1).expect("create p1");
    assert_eq!((p0, p1), (0, 1));
    assert_eq!(process::count(&t), 2);
    let (t0, t1) = (process::ttbr0(&t, p0), process::ttbr0(&t, p1));
    assert_ne!(t0, t1);
    let pa0 = m.translate(t0, USER_BASE).expect("p0 USER_BASE unmapped");
    let pa1 = m.translate(t1, USER_BASE).expect("p1 USER_BASE unmapped");
    assert_ne!(pa0, pa1);
    assert_eq!(process::entry(&t, p0), USER_BASE + 0xB0);
    // Stack mapped read/write in each space.
    assert!(m.translate(t0, lib::kernel::user::USER_STACK_VA).is_some());
    assert!(process::is_user_range(&t, p0, lib::kernel::user::USER_STACK_VA, 16, true));
    assert!(process::is_user_range(&t, p0, USER_BASE, 16, false));
    assert!(!process::is_user_range(&t, p0, USER_BASE, 16, true));
    assert!(process::is_user_range(&t, p0, USER_BASE + 0x1_0000, 100, true));
    assert!(!process::is_user_range(&t, p0, USER_BASE + 0x1_0000, 101, true));
    assert!(!process::is_user_range(&t, p0, u64::MAX, 2, false));
}

#[test]
fn process_table_bookkeeping() {
    let mut m = booted();
    let mut t = ProcessTable::new();
    let img = image();
    let s0 = m.new_address_space();
    let p = process::create(&mut t, &mut m, &img, s0).unwrap();
    assert_eq!(process::ring_pa(&t, p), 0);
    assert_eq!(process::foreground_pid(&t), None);
    process::set_foreground(&mut t, p, true);
    assert_eq!(process::foreground_pid(&t), Some(p));
    let f = m.alloc_frame().unwrap();
    process::set_ring(&mut t, p, f);
    assert_eq!(process::ring_pa(&t, p), f.addr());
    let pend = Pending { buf: USER_BASE + 0x1_0000, len: 1, user_data: 9 };
    for _ in 0..8 {
        assert!(process::park_read(&mut t, p, pend));
    }
    assert!(!process::park_read(&mut t, p, pend));
    process::clear_pending(&mut t, p, 3);
    let snap = process::pending_snapshot(&t, p);
    assert_eq!(snap[3], None);
    assert_eq!(snap[0], Some(pend));
    process::set_waiter(&mut t, p, 4);
    assert_eq!(process::take_waiter(&mut t, p), Some(4));
    assert_eq!(process::take_waiter(&mut t, p), None);
    process::clear_ring(&mut t, p);
    assert!(process::pending_snapshot(&t, p).iter().all(|s| s.is_none()));
    let frames = process::take_frames(&mut t, p);
    assert_eq!(frames.last().unwrap().0, USER_RING_VA);
    assert!(process::take_frames(&mut t, p).is_empty());
    process::mark_exited(&mut t, p);
    assert_eq!(process::ring_pa(&t, p), 0);
    assert_eq!(process::foreground_pid(&t), None);
    let _ = ADDR_MASK;
}

#[test]
fn creating_a_process_keeps_the_others() {
    let mut m = booted();
    let mut t = ProcessTable::new();
    let img = image();
    let s0 = m.new_address_space();
    let p0 = process::create(&mut t, &mut m, &img, s0).unwrap();
    let before = m.translate(process::ttbr0(&t, p0), USER_BASE);
    let stack_before = m.translate(process::ttbr0(&t, p0), lib::kernel::user::USER_STACK_VA);
    let s1 = m.new_address_space();
    process::create(&mut t, &mut m, &img, s1).unwrap();
    assert_eq!(m.translate(process::ttbr0(&t, p0), USER_BASE), before);
    assert_eq!(m.translate(process::ttbr0(&t, p0), lib::kernel::user::USER_STACK_VA), stack_before);
}
