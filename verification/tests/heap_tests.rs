use os_x86::e820::{E820Entry, E820_USABLE};
use os_x86::heap::{align_up, Heap, HEAP_BYTES, HEADER};
use os_x86::pmm::FrameAllocator;

const BASE: u64 = 0x40_0000;

fn fresh() -> Heap {
    let mut h = Heap::new();
    h.init_at(BASE);
    h
}

#[test]
fn align_up_rounds_to_sixteen() {
    assert_eq!(align_up(1, 16), 16);
    assert_eq!(align_up(16, 16), 16);
    assert_eq!(align_up(17, 16), 32);
}

#[test]
fn fresh_heap_is_one_free_block() {
    let h = fresh();
    assert_eq!(h.stats(), (HEAP_BYTES - HEADER, 0, 1));
}

#[test]
fn kmalloc_is_first_fit_and_aligned() {
    let mut h = fresh();
    let a = h.kmalloc(10).unwrap();
    let b = h.kmalloc(100).unwrap();
    let c = h.kmalloc(0).unwrap();
    assert_eq!(a, BASE + 16);
    assert_eq!(b, BASE + 16 + 16 + 16);
    assert_eq!(c, b + 112 + 16);
    assert_eq!(a % 16, 0);
    assert_eq!(b % 16, 0);
    let (free, used, blocks) = h.stats();
    assert_eq!(used, 16 + 112 + 16);
    assert_eq!(blocks, 4);
    assert_eq!(free + used + HEADER * blocks, HEAP_BYTES);
}

#[test]
fn alloc_then_free_gives_the_heap_back() {
    let mut h = fresh();
    let before = h.stats();
    let p = h.kmalloc(300).unwrap();
    h.kfree(p);
    assert_eq!(h.stats(), before);
}

#[test]
fn freeing_neighbours_coalesces() {
    let mut h = fresh();
    let a = h.kmalloc(32).unwrap();
    let b = h.kmalloc(32).unwrap();
    let c = h.kmalloc(32).unwrap();
    h.kfree(b);
    assert_eq!(h.stats().2, 4);
    h.kfree(a);
    assert_eq!(h.stats().2, 3);
    h.kfree(c);
    assert_eq!(h.stats(), (HEAP_BYTES - HEADER, 0, 1));
}

#[test]
fn freed_block_is_reused_first_fit() {
    let mut h = fresh();
    let a = h.kmalloc(64).unwrap();
    let _b = h.kmalloc(64).unwrap();
    h.kfree(a);
    assert_eq!(h.kmalloc(48).unwrap(), a);
}

#[test]
fn payloads_do_not_overlap() {
    let mut h = fresh();
    let mut got: Vec<(u64, u64)> = Vec::new();
    for size in [1usize, 20, 300, 4096, 7] {
        let p = h.kmalloc(size).unwrap();
        got.push((p, p + size as u64));
    }
    for i in 0..got.len() {
        for j in 0..got.len() {
            if i != j {
                assert!(got[i].1 <= got[j].0 || got[j].1 <= got[i].0);
            }
        }
    }
}

#[test]
fn exhausted_heap_returns_none() {
    let mut h = fresh();
    assert!(h.kmalloc(HEAP_BYTES).is_none());
    assert!(h.kmalloc(HEAP_BYTES - HEADER).is_some());
    assert!(h.kmalloc(1).is_none());
}

#[test]
fn unknown_pointer_free_is_ignored() {
    let mut h = fresh();
    let _ = h.kmalloc(10).unwrap();
    let before = h.stats();
    h.kfree(0);
    h.kfree(BASE + 5);
    assert_eq!(h.stats(), before);
}

#[test]
fn global_alloc_refuses_large_alignment() {
    let mut h = fresh();
    assert_eq!(h.global_alloc(10, 32), None);
    assert_eq!(h.global_alloc(10, 16), Some(BASE + 16));
    h.global_dealloc(BASE + 16);
    assert_eq!(h.stats(), (HEAP_BYTES - HEADER, 0, 1));
}

#[test]
fn stats_text_reports_free_used_blocks() {
    let mut h = fresh();
    let _ = h.kmalloc(16).unwrap();
    let t = h.stats_text();
    assert_eq!(String::from_utf8(t).unwrap(), "heap: 1048528 free / 16 used bytes, 2 blocks\n");
}

#[test]
fn init_takes_its_region_from_the_frame_allocator() {
    let es = [
        E820Entry { base: 0, length: 0x9FC00, kind: E820_USABLE, attr: 0 },
        E820Entry { base: 0x10_0000, length: 0xF0_0000, kind: E820_USABLE, attr: 0 },
    ];
    let mut pmm = FrameAllocator::init(&es, 0x20_0000);
    let free_before = pmm.free_frames();
    let mut h = Heap::new();
    h.init(&mut pmm);
    assert_eq!(pmm.free_frames(), free_before - 256);
    assert_eq!(h.base, 0x20_1000);
    assert_eq!(h.kmalloc(8), Some(0x20_1010));
}

#[test]
fn align_up_takes_any_power_of_two() {
    assert_eq!(align_up(5, 8), 8);
    assert_eq!(align_up(1, 1), 1);
    assert_eq!(align_up(4096, 4096), 4096);
    assert_eq!(align_up(4097, 4096), 8192);
    assert_eq!(align_up(0, 16), 0);
}

#[test]
fn heap_keeps_its_size_across_alloc_and_free() {
    let mut h = fresh();
    let a = h.kmalloc(100).unwrap();
    let b = h.kmalloc(3000).unwrap();
    h.kfree(a);
    let (f, u, n) = h.stats();
    assert!(n >= 1);
    assert_eq!(f + u + HEADER * n, HEAP_BYTES);
    h.kfree(b);
    let (f, u, n) = h.stats();
    assert_eq!(n, 1);
    assert_eq!(f + u + HEADER * n, HEAP_BYTES);
}

#[test]
fn freed_payload_lies_in_a_free_block() {
    let mut h = fresh();
    let a = h.kmalloc(64).unwrap();
    let b = h.kmalloc(64).unwrap();
    let _c = h.kmalloc(64).unwrap();
    h.kfree(a);
    h.kfree(b);
    // b merged into a's free block, which now spans both payloads.
    assert!(h.blocks[0].free);
    assert_eq!(h.blocks[0].size, 64 + 16 + 64);
    assert!(!h.blocks[1].free);
}
