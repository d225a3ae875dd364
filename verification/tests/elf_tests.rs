use os_x86::e820::{E820Entry, E820_USABLE};
use os_x86::elf::{exec, exec_fits, USER_STACK_ADDR, USER_STACK_TOP};
use os_x86::heap::Heap;
use os_x86::paging::Paging;
use os_x86::pmm::FrameAllocator;
use os_x86::task::Scheduler;

fn fat_set(fat: &mut [u8], c: usize, v: u16) {
    let fo = c + c / 2;
    if c % 2 == 0 {
        fat[fo] = (v & 0xFF) as u8;
        fat[fo + 1] = (fat[fo + 1] & 0xF0) | ((v >> 8) & 0x0F) as u8;
    } else {
        fat[fo] = (fat[fo] & 0x0F) | (((v & 0x0F) << 4) as u8);
        fat[fo + 1] = (v >> 4) as u8;
    }
}

fn make_disk(files: &[(&[u8; 11], &[u8])]) -> Vec<u8> {
    let mut clusters = 0;
    for (_, data) in files {
        clusters += (data.len() + 511) / 512;
    }
    let mut d = vec![0u8; (3 + clusters.max(1)) * 512];
    d[0x0C] = 0x02;
    d[0x0D] = 1;
    d[0x0E] = 1;
    d[0x10] = 1;
    d[0x11] = 16;
    d[0x16] = 1;
    let mut next = 2usize;
    for (k, (name, data)) in files.iter().enumerate() {
        let e = 2 * 512 + k * 32;
        d[e..e + 11].copy_from_slice(&name[..]);
        d[e + 11] = 0x20;
        let n = (data.len() + 511) / 512;
        let first = if n == 0 { 0 } else { next };
        d[e + 0x1A] = (first & 0xFF) as u8;
        d[e + 0x1B] = (first >> 8) as u8;
        d[e + 0x1C..e + 0x20].copy_from_slice(&(data.len() as u32).to_le_bytes());
        for i in 0..n {
            let c = next + i;
            let v = if i + 1 == n { 0xFFF } else { (c + 1) as u16 };
            let mut fat = [0u8; 512];
            fat.copy_from_slice(&d[512..1024]);
            fat_set(&mut fat, c, v);
            d[512..1024].copy_from_slice(&fat);
            let s = (3 + c - 2) * 512;
            let end = ((i + 1) * 512).min(data.len());
            d[s..s + (end - i * 512)].copy_from_slice(&data[i * 512..end]);
        }
        next += n;
    }
    d
}

fn put32(b: &mut [u8], o: usize, v: u32) {
    b[o..o + 4].copy_from_slice(&v.to_le_bytes());
}

/// An ELF32 executable: one PT_LOAD segment (0x20 bytes of code at file
/// offset 0x100, loaded at 0x08048000, 0x1800 bytes in memory) and one
/// PT_NOTE header.
fn program() -> Vec<u8> {
    let mut f = vec![0u8; 0x120];
    f[0..4].copy_from_slice(b"\x7fELF");
    put32(&mut f, 0x18, 0x0804_8010);
    put32(&mut f, 0x1C, 52);
    f[0x2A] = 32;
    f[0x2C] = 2;
    let ph = 52;
    put32(&mut f, ph, 1);
    put32(&mut f, ph + 4, 0x100);
    put32(&mut f, ph + 8, 0x0804_8000);
    put32(&mut f, ph + 0x10, 0x20);
    put32(&mut f, ph + 0x14, 0x1800);
    put32(&mut f, ph + 32, 4);
    for i in 0..0x20 {
        f[0x100 + i] = 0x90 + i as u8;
    }
    f
}

fn machine() -> (FrameAllocator, Paging, Scheduler) {
    let es = [
        E820Entry { base: 0, length: 0x9FC00, kind: E820_USABLE, attr: 0 },
        E820Entry { base: 0x10_0000, length: 0xF0_0000, kind: E820_USABLE, attr: 0 },
    ];
    let mut pmm = FrameAllocator::init(&es, 0x20_0000);
    let paging = Paging::init(&mut pmm);
    let mut heap = Heap::new();
    heap.init(&mut pmm);
    let mut sched = Scheduler::new();
    sched.init(&mut heap, 0x1000, 0x2000);
    (pmm, paging, sched)
}

#[test]
fn exec_loads_segments_into_a_new_address_space() {
    let (mut pmm, mut paging, mut sched) = machine();
    let disk = make_disk(&[(b"INIT    ELF", &program())]);
    let kd = paging.kernel_dir();
    let free_before = pmm.free_frames();
    let img = exec(&disk, b"INIT    ELF", &mut pmm, &mut paging, &mut sched).unwrap();
    assert_eq!(img.entry, 0x0804_8010);
    assert_eq!(img.stack_top, USER_STACK_TOP);
    assert_ne!(img.dir, kd);
    assert_eq!(img.pages.len(), 2);
    let (f0, ref b0) = img.pages[0];
    assert_eq!(b0.len(), 4096);
    assert_eq!(b0[0], 0x90);
    assert_eq!(b0[0x1F], 0xAF);
    assert_eq!(b0[0x20], 0);
    assert!(img.pages[1].1.iter().all(|&x| x == 0));
    assert_eq!(paging.lookup(img.dir, 0x0804_8010), Some(f0 | 7));
    assert_eq!(paging.lookup(img.dir, 0x0804_9000), Some(img.pages[1].0 | 7));
    assert_eq!(paging.lookup(img.dir, USER_STACK_ADDR), Some(img.stack_frame | 7));
    assert_eq!(paging.lookup(kd, 0x0804_8000), None);
    assert_eq!(paging.lookup(img.dir, 0x1000), paging.lookup(kd, 0x1000));
    assert_eq!(sched.tasks[0].page_dir, img.dir);
    // Directory, two pages, the stack, and two page tables.
    assert_eq!(pmm.free_frames(), free_before - 6);
    assert_ne!(f0, img.pages[1].0);
    assert_ne!(f0, img.stack_frame);
}

#[test]
fn exec_takes_the_lowest_free_frames() {
    let (mut pmm, mut paging, mut sched) = machine();
    let disk = make_disk(&[(b"INIT    ELF", &program())]);
    let (mut probe, _, _) = machine();
    let lowest: Vec<u64> = (0..6).map(|_| probe.alloc_frame().unwrap()).collect();
    let img = exec(&disk, b"INIT    ELF", &mut pmm, &mut paging, &mut sched).unwrap();
    assert_eq!(img.dir as u64, lowest[0]);
    let mut used: Vec<u64> = vec![img.dir as u64, img.stack_frame as u64];
    used.extend(img.pages.iter().map(|p| p.0 as u64));
    for f in &used {
        assert!(lowest.contains(f));
    }
}

#[test]
fn exec_refuses_missing_or_foreign_files() {
    let (mut pmm, mut paging, mut sched) = machine();
    let disk = make_disk(&[(b"NOTES   TXT", &[b'x'; 100])]);
    let free_before = pmm.free_frames();
    assert!(exec(&disk, b"INIT    ELF", &mut pmm, &mut paging, &mut sched).is_none());
    assert!(exec(&disk, b"NOTES   TXT", &mut pmm, &mut paging, &mut sched).is_none());
    assert_eq!(pmm.free_frames(), free_before);
    assert_eq!(sched.tasks[0].page_dir, 0);
}

#[test]
fn exec_fits_checks_headers_and_free_frames() {
    let (mut pmm, paging, _sched) = machine();
    let disk = make_disk(&[(b"INIT    ELF", &program())]);
    assert!(exec_fits(&disk, b"INIT    ELF", &pmm, &paging));
    // A missing file loads nothing, so nothing can fault.
    assert!(exec_fits(&disk, b"OTHER   ELF", &pmm, &paging));
    // A segment that runs past the top of the address space.
    let mut bad = program();
    put32(&mut bad, 52 + 8, 0xFFFF_F800);
    let bad_disk = make_disk(&[(b"BAD     ELF", &bad)]);
    assert!(!exec_fits(&bad_disk, b"BAD     ELF", &pmm, &paging));
    // The program needs six frames: directory, two pages, stack, two tables.
    while pmm.free_frames() > 6 {
        pmm.alloc_frame().unwrap();
    }
    assert!(exec_fits(&disk, b"INIT    ELF", &pmm, &paging));
    pmm.alloc_frame().unwrap();
    assert!(!exec_fits(&disk, b"INIT    ELF", &pmm, &paging));
}
