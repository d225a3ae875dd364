use os_x86::e820::{E820Entry, E820_USABLE};
use os_x86::paging::{Paging, GROW_BASE, GROW_TOP};
use os_x86::pmm::FrameAllocator;

fn setup() -> (FrameAllocator, Paging) {
    let es = [
        E820Entry { base: 0, length: 0x9FC00, kind: E820_USABLE, attr: 0 },
        E820Entry { base: 0x10_0000, length: 0x1F0_0000, kind: E820_USABLE, attr: 0 },
    ];
    let mut pmm = FrameAllocator::init(&es, 0x20_0000);
    let p = Paging::init(&mut pmm);
    (pmm, p)
}

#[test]
fn init_identity_maps_low_16mb() {
    let (pmm, p) = setup();
    let kd = p.kernel_dir();
    assert_eq!(kd, 0x20_1000);
    assert_eq!(p.lookup(kd, 0), Some(3));
    assert_eq!(p.lookup(kd, 0xB8123), Some(0xB8003));
    assert_eq!(p.lookup(kd, 0xFF_FFFF), Some(0xFF_F003));
    assert_eq!(p.lookup(kd, 0x100_0000), None);
    assert_eq!(pmm.free_frames(), 8192 - 0x201 - 5);
}

#[test]
fn map_page_adds_a_translation_and_keeps_others() {
    let (mut pmm, mut p) = setup();
    p.map_page(&mut pmm, 0x4000_0000, 0x30_0000, 2);
    let kd = p.kernel_dir();
    assert_eq!(p.lookup(kd, 0x4000_0123), Some(0x30_0003));
    assert_eq!(p.lookup(kd, 0x4000_1000), None);
    assert_eq!(p.lookup(kd, 0x1234), Some(0x1003));
}

#[test]
fn new_address_space_shares_kernel_low_memory_only() {
    let (mut pmm, mut p) = setup();
    let kd = p.kernel_dir();
    let d = p.new_address_space(&mut pmm);
    assert_ne!(d, kd);
    assert_eq!(p.lookup(d, 0x5000), p.lookup(kd, 0x5000));
    assert_eq!(p.lookup(d, 0x80_0000), Some(0x80_0003));
    p.map_user_page(&mut pmm, d, 0x5000_0000, 0x40_0000);
    assert_eq!(p.lookup(d, 0x5000_0000), Some(0x40_0007));
    assert_eq!(p.lookup(kd, 0x5000_0000), None);
}

#[test]
fn demand_paging_window() {
    let (mut pmm, mut p) = setup();
    let kd = p.kernel_dir();
    assert!(!p.handle_fault(&mut pmm, GROW_BASE - 1));
    assert!(!p.handle_fault(&mut pmm, GROW_TOP));
    assert!(p.handle_fault(&mut pmm, GROW_BASE + 0x10));
    assert!(p.lookup(kd, GROW_BASE).is_some());
    assert_eq!(p.lookup(kd, GROW_BASE).unwrap() & 3, 3);
}

#[test]
fn pde_present_reports_directory_entries() {
    let (mut pmm, mut p) = setup();
    let kd = p.kernel_dir();
    assert!(p.pde_present(kd, 0));
    assert!(p.pde_present(kd, 0xFF_FFFF));
    assert!(!p.pde_present(kd, 0x4000_0000));
    p.map_page(&mut pmm, 0x4000_0000, 0x30_0000, 2);
    assert!(p.pde_present(kd, 0x4000_0000));
    assert!(p.pde_present(kd, 0x403F_F000));
    assert!(!p.pde_present(kd, 0x4040_0000));
}
