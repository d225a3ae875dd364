use os_x86::e820::{E820Entry, E820_USABLE};
use os_x86::pmm::{frame_index, FrameAllocator};

fn qemu_map() -> [E820Entry; 3] {
    [
        E820Entry { base: 0, length: 0x9FC00, kind: E820_USABLE, attr: 0 },
        E820Entry { base: 0xF0000, length: 0x10000, kind: 2, attr: 0 },
        E820Entry { base: 0x10_0000, length: 0xF0_0000, kind: E820_USABLE, attr: 0 },
    ]
}

#[test]
fn frame_index_divides_by_page_size() {
    assert_eq!(frame_index(0), 0);
    assert_eq!(frame_index(0x1FFF), 1);
    assert_eq!(frame_index(0x10_0000), 256);
}

#[test]
fn init_counts_frames_and_reserves_low_memory_and_bitmap() {
    let pmm = FrameAllocator::init(&qemu_map(), 0x20_0000);
    assert_eq!(pmm.total_frames(), 4096);
    // Frames below 0x201000 (low 1MB, kernel, bitmap) are reserved.
    assert_eq!(pmm.free_frames(), 4096 - 0x201);
}

#[test]
fn alloc_hands_out_lowest_free_frame() {
    let mut pmm = FrameAllocator::init(&qemu_map(), 0x20_0000);
    assert_eq!(pmm.alloc_frame(), Some(0x20_1000));
    assert_eq!(pmm.alloc_frame(), Some(0x20_2000));
    assert_eq!(pmm.free_frames(), 4096 - 0x201 - 2);
}

#[test]
fn freed_frame_is_reused() {
    let mut pmm = FrameAllocator::init(&qemu_map(), 0x20_0000);
    let a = pmm.alloc_frame().unwrap();
    let _b = pmm.alloc_frame().unwrap();
    pmm.free_frame(a);
    assert_eq!(pmm.alloc_frame(), Some(a));
}

#[test]
fn alloc_then_free_restores_the_count() {
    let mut pmm = FrameAllocator::init(&qemu_map(), 0x20_0000);
    let before = pmm.free_frames();
    let a = pmm.alloc_frame().unwrap();
    pmm.free_frame(a);
    assert_eq!(pmm.free_frames(), before);
    pmm.free_frame(a);
    assert_eq!(pmm.free_frames(), before);
    pmm.free_frame(0xFFFF_FFFF_0000);
    assert_eq!(pmm.free_frames(), before);
}

#[test]
fn alloc_contiguous_finds_a_run() {
    let mut pmm = FrameAllocator::init(&qemu_map(), 0x20_0000);
    let a = pmm.alloc_frame().unwrap();
    let _b = pmm.alloc_frame().unwrap();
    pmm.free_frame(a);
    assert_eq!(pmm.alloc_contiguous(2), Some(0x20_3000));
    assert_eq!(pmm.alloc_contiguous(1), Some(0x20_1000));
    assert_eq!(pmm.alloc_contiguous(5000), None);
}

#[test]
fn exhausting_memory_returns_none() {
    let es = [E820Entry { base: 0x10_0000, length: 0x3000, kind: E820_USABLE, attr: 0 }];
    let mut pmm = FrameAllocator::init(&es, 0x8_0000);
    assert_eq!(pmm.total_frames(), 0x103);
    assert_eq!(pmm.free_frames(), 3);
    assert!(pmm.alloc_frame().is_some());
    assert!(pmm.alloc_frame().is_some());
    assert!(pmm.alloc_frame().is_some());
    assert_eq!(pmm.alloc_frame(), None);
}

#[test]
fn selftest_passes_and_leaves_table_unchanged() {
    let mut pmm = FrameAllocator::init(&qemu_map(), 0x20_0000);
    let before = pmm.free_frames();
    let r = pmm.selftest().unwrap();
    assert!(r.ok);
    assert_eq!(r.a, 0x20_1000);
    assert_eq!(r.b, 0x20_2000);
    assert_eq!(r.reused, Some(0x20_1000));
    assert_eq!(String::from_utf8(r.text).unwrap(), "PMM selftest: a=0x201000 b=0x202000 reused=0x201000 OK\n");
    assert_eq!(pmm.free_frames(), before);
    assert_eq!(pmm.alloc_frame(), Some(0x20_1000));
}

#[test]
fn stats_text_reports_counts() {
    let pmm = FrameAllocator::init(&qemu_map(), 0x20_0000);
    assert_eq!(String::from_utf8(pmm.stats_text()).unwrap(), "PMM: 3583 free / 4096 frames (4KB each)\n");
}

#[test]
fn has_run_tells_whether_a_contiguous_run_exists() {
    let mut pmm = FrameAllocator::init(&qemu_map(), 0x20_0000);
    assert!(pmm.has_run(1));
    assert!(pmm.has_run(4096 - 0x201));
    assert!(!pmm.has_run(4096 - 0x200));
    let before = pmm.free_frames();
    assert!(pmm.has_run(256));
    assert_eq!(pmm.free_frames(), before);
    assert_eq!(pmm.alloc_contiguous(4096 - 0x201), Some(0x20_1000));
    assert!(!pmm.has_run(1));
}
