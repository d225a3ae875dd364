//! ELF32 loader: reads a program off the FAT12 disk and prepares it to run
//! in ring 3 inside an address space of its own.
//!
//! Each program gets a fresh page directory that shares the kernel's
//! supervisor identity map; every page of its `PT_LOAD` segments and a
//! one-page user stack are backed by freshly allocated frames mapped
//! user-accessible. The caller fills the frames with the bytes the loader
//! returns, switches to the directory and enters user mode.
use vstd::prelude::*;
use crate::fat12::{le16, le32, read_file, read_file_spec, u16le, u32le, lemma_find_size};
use crate::paging::{Paging, pde_index, entry_frame, is_present};
use crate::pmm::{FrameAllocator, count_free, alloc_frame_spec, alloc_n, first_free, lemma_first_free, lemma_free_exists, lemma_count_update};
use crate::task::{Scheduler, Task};

verus! {

/// Bottom of the user stack page.
pub const USER_STACK_ADDR: u32 = 0x5000_0000;
/// Initial user stack pointer (one page above its bottom).
pub const USER_STACK_TOP: u32 = 0x5000_1000;
pub const PT_LOAD: u32 = 1;
pub const FRAME: u32 = 4096;
/// Bytes of a program the loader reads.
pub const ELF_BUF: usize = 65536;

/// The file as the loader holds it: what was read, zero-filled to 64 KiB.
pub open spec fn file_buf(data: Seq<u8>) -> Seq<u8> {
    data + Seq::new((ELF_BUF - data.len()) as nat, |i: int| 0u8)
}

/// The buffer starts with the ELF magic `7F 'E' 'L' 'F'`.
pub open spec fn elf_magic(b: Seq<u8>) -> bool {
    b[0] == 0x7F && b[1] == 69 && b[2] == 76 && b[3] == 70
}

pub open spec fn elf_entry(b: Seq<u8>) -> int {
    le32(b, 0x18)
}

pub open spec fn ph_count(b: Seq<u8>) -> int {
    le16(b, 0x2C)
}

/// Offset of program header `i`.
pub open spec fn ph_off(b: Seq<u8>, i: int) -> int {
    le32(b, 0x1C) + i * le16(b, 0x2A)
}

pub open spec fn is_load(b: Seq<u8>, i: int) -> bool {
    le32(b, ph_off(b, i)) == PT_LOAD
}

pub open spec fn seg_off(b: Seq<u8>, i: int) -> int {
    le32(b, ph_off(b, i) + 0x04)
}

pub open spec fn seg_vaddr(b: Seq<u8>, i: int) -> int {
    le32(b, ph_off(b, i) + 0x08)
}

pub open spec fn seg_filesz(b: Seq<u8>, i: int) -> int {
    le32(b, ph_off(b, i) + 0x10)
}

pub open spec fn seg_memsz(b: Seq<u8>, i: int) -> int {
    le32(b, ph_off(b, i) + 0x14)
}

/// Start of the page holding `v`.
pub open spec fn page_of(v: int) -> int {
    v - v % 4096
}

/// Number of pages from `first` while below `end`.
pub open spec fn npages(first: int, end: int) -> nat {
    if first < end { ((end - first + 4095) / 4096) as nat } else { 0 }
}

/// Pages segment `i` covers: from the page of its start up to its end.
pub open spec fn seg_pages(b: Seq<u8>, i: int) -> nat {
    npages(page_of(seg_vaddr(b, i)), seg_vaddr(b, i) + seg_memsz(b, i))
}

/// Contents of the page at `p` of a segment with file offset `off`, load
/// address `vaddr` and file size `filesz`: file bytes where the segment has
/// them, zeros elsewhere.
pub open spec fn page_bytes(b: Seq<u8>, off: int, vaddr: int, filesz: int, p: int) -> Seq<u8> {
    Seq::new(4096, |k: int| {
        let va = p + k;
        if va >= vaddr && va - vaddr < filesz { b[off + va - vaddr] } else { 0u8 }
    })
}

/// The pages of segment `i`, in order: address and contents.
pub open spec fn seg_plan(b: Seq<u8>, i: int) -> Seq<(u32, Seq<u8>)> {
    let first = page_of(seg_vaddr(b, i));
    Seq::new(seg_pages(b, i), |k: int| (
        (first + 4096 * k) as u32,
        page_bytes(b, seg_off(b, i), seg_vaddr(b, i), seg_filesz(b, i), first + 4096 * k),
    ))
}

/// The pages of the loadable segments among the first `i` program headers.
pub open spec fn plan_upto(b: Seq<u8>, i: int) -> Seq<(u32, Seq<u8>)>
    decreases i,
{
    if i <= 0 {
        Seq::empty()
    } else if is_load(b, i - 1) {
        plan_upto(b, i - 1) + seg_plan(b, i - 1)
    } else {
        plan_upto(b, i - 1)
    }
}

/// Every page the program loads, in loading order.
pub open spec fn load_plan(b: Seq<u8>) -> Seq<(u32, Seq<u8>)> {
    plan_upto(b, ph_count(b))
}

/// Program header `i` can be read, and when it is loadable its pages stay
/// below 0xFFFFF000 and the file bytes it copies lie inside the buffer.
pub open spec fn seg_ok(b: Seq<u8>, i: int) -> bool {
    let ph = ph_off(b, i);
    &&& ph + 4 <= ELF_BUF
    &&& is_load(b, i) ==> ({
        let vaddr = seg_vaddr(b, i);
        &&& ph + 0x18 <= ELF_BUF
        &&& vaddr + seg_memsz(b, i) <= 0xFFFF_F000
        &&& reads_ok(seg_off(b, i), vaddr, seg_filesz(b, i), page_of(vaddr) + 4096 * seg_pages(b, i))
    })
}

/// The loader can walk every program header without faulting.
pub open spec fn elf_ok(b: Seq<u8>) -> bool {
    forall|i: int| 0 <= i < ph_count(b) ==> #[trigger] seg_ok(b, i)
}

/// Page tables needed to map `pages` in order when the directory entries
/// in `present` already exist: one per directory entry first touched.
pub open spec fn tables_needed(pages: Seq<u32>, present: Set<int>) -> nat
    decreases pages.len(),
{
    if pages.len() == 0 {
        0
    } else {
        let d = pde_index(pages[0]);
        if present.contains(d) {
            tables_needed(pages.drop_first(), present)
        } else {
            1 + tables_needed(pages.drop_first(), present.insert(d))
        }
    }
}

/// The page addresses of a plan.
pub open spec fn plan_pages(pl: Seq<(u32, Seq<u8>)>) -> Seq<u32> {
    Seq::new(pl.len(), |k: int| pl[k].0)
}

/// Frames loading `b` takes: the directory, one per page, the stack, and
/// the page tables the new directory lacks (it starts with the kernel's
/// present entries among the first four).
pub open spec fn frames_needed(b: Seq<u8>, kernel_present: Set<int>) -> nat {
    2 + load_plan(b).len() + tables_needed(plan_pages(load_plan(b)).push(USER_STACK_ADDR), kernel_present)
}

/// Directory entries among the first four that the kernel directory has.
pub open spec fn kernel_low_present(p: Paging) -> Set<int> {
    Set::new(|j: int| 0 <= j < 4 && is_present(p.entry(p.kernel_dir, j)))
}

/// Directory entries of `dir` that are present.
pub open spec fn present_set(p: Paging, dir: u32) -> Set<int> {
    Set::new(|j: int| 0 <= j < 1024 && is_present(p.entry(dir, j)))
}

/// The file bytes a segment copies below address `last` lie inside the
/// buffer.
pub open spec fn reads_ok(off: int, vaddr: int, filesz: int, last: int) -> bool {
    let copied = if filesz < last - vaddr { filesz } else { last - vaddr };
    copied <= 0 || off + copied <= ELF_BUF
}

/// The contents of page `page` of a segment, as a vector.
fn fill_page(buf: &Vec<u8>, off: usize, vaddr: u32, filesz: usize, page: u32) -> (r: Vec<u8>)
    requires
        buf@.len() == ELF_BUF,
        page as int + 4096 <= u32::MAX,
        reads_ok(off as int, vaddr as int, filesz as int, page as int + 4096),
    ensures
        r@ == page_bytes(buf@, off as int, vaddr as int, filesz as int, page as int),
{
    let mut out: Vec<u8> = Vec::new();
    let mut k: u32 = 0;
    while k < FRAME
        invariant
            k <= 4096,
            buf@.len() == ELF_BUF,
            page as int + 4096 <= u32::MAX,
            reads_ok(off as int, vaddr as int, filesz as int, page as int + 4096),
            out@ == page_bytes(buf@, off as int, vaddr as int, filesz as int, page as int).subrange(0, k as int),
        decreases 4096 - k,
    {
        let va = page + k;
        let v = if va >= vaddr && ((va - vaddr) as usize) < filesz {
            buf[off + (va - vaddr) as usize]
        } else {
            0
        };
        out.push(v);
        k += 1;
        proof {
            assert(out@ =~= page_bytes(buf@, off as int, vaddr as int, filesz as int, page as int).subrange(0, k as int));
        }
    }
    proof {
        assert(out@ =~= page_bytes(buf@, off as int, vaddr as int, filesz as int, page as int));
    }
    out
}

proof fn lemma_npages(first: int, end: int, j: int)
    requires
        0 <= j,
    ensures
        (first + 4096 * j < end) == (j < npages(first, end)),
{
    if first < end {
        let d = end - first;
        assert((4096 * j < d) == (j < (d + 4095) / 4096)) by (nonlinear_arith)
            requires
                0 <= j,
                0 < d,
        ;
    } else {
        assert(first + 4096 * j >= first) by (nonlinear_arith)
            requires
                0 <= j,
        ;
    }
}

proof fn lemma_plan_prefix(b: Seq<u8>, i: int, m: int)
    requires
        0 <= i <= m,
    ensures
        plan_upto(b, i).len() <= plan_upto(b, m).len(),
        plan_upto(b, m).subrange(0, plan_upto(b, i).len() as int) == plan_upto(b, i),
    decreases m - i,
{
    if i < m {
        lemma_plan_prefix(b, i, m - 1);
        let a = plan_upto(b, i);
        let c = plan_upto(b, m - 1);
        let d = plan_upto(b, m);
        assert(d.subrange(0, c.len() as int) =~= c);
        assert(d.subrange(0, a.len() as int) =~= c.subrange(0, a.len() as int));
    } else {
        assert(plan_upto(b, m).subrange(0, plan_upto(b, i).len() as int) =~= plan_upto(b, i));
    }
}

proof fn lemma_aligned_pages_differ(a: u32, c: u32)
    requires
        a & 0xFFFu32 == 0,
        c & 0xFFFu32 == 0,
        a != c,
    ensures
        a >> 12u32 != c >> 12u32,
{
    assert(a >> 12u32 != c >> 12u32) by (bit_vector)
        requires
            a & 0xFFFu32 == 0,
            c & 0xFFFu32 == 0,
            a != c,
    ;
}

proof fn lemma_pde_range(v: u32)
    ensures
        0 <= pde_index(v) < 1024,
{
    crate::paging::lemma_indices(v);
}

/// The page `pl[j]` names is not named again before position `k`.
pub open spec fn last_before(pl: Seq<(u32, Seq<u8>)>, j: int, k: int) -> bool {
    forall|m: int| j < m < k ==> #[trigger] pl[m].0 != pl[j].0
}

/// A program ready to run.
pub struct ExecImage {
    /// Physical address of its page directory.
    pub dir: u32,
    pub entry: u32,
    pub stack_top: u32,
    /// Frame of the user stack page (to be zeroed).
    pub stack_frame: u32,
    /// For each loaded page, in loading order: the frame that backs it and
    /// the 4096 bytes to fill it with.
    pub pages: Vec<(u32, Vec<u8>)>,
}

/// Takes a frame from `pmm` for the program; the paging structures stay
/// backed.
fn take_frame(pmm: &mut FrameAllocator, paging: &Paging) -> (f: u32)
    requires
        paging.wf(old(pmm)),
        count_free(old(pmm).view()) > 0,
    ensures
        paging.wf(final(pmm)),
        f % 4096 == 0,
        Some(f as u64) == alloc_frame_spec(old(pmm).view()).1,
        final(pmm).view() == alloc_frame_spec(old(pmm).view()).0,
        count_free(final(pmm).view()) == count_free(old(pmm).view()) - 1,
        final(pmm).total == old(pmm).total,
{
    let ghost v = pmm.view();
    proof {
        lemma_free_exists(v);
        lemma_first_free(v);
    }
    let a = pmm.alloc_frame().unwrap();
    proof {
        let i = first_free(v).unwrap();
        assert(a < 0x1_0000_0000) by (nonlinear_arith)
            requires
                a == i * 4096,
                0 <= i < pmm.total,
                pmm.total * 4096 <= 0x1_0000_0000,
        ;
        assert forall|k: int| 0 <= k < paging.addrs@.len() implies #[trigger] paging.addrs@[k] / 4096 < pmm.total
            && pmm.view()[(paging.addrs@[k] / 4096) as int] by {
            assert(v[(paging.addrs@[k] / 4096) as int]);
        }
    }
    a as u32
}

/// What holds after the first `pages.len()` pages of `full` are loaded into
/// directory `dir`: contents recorded, each page mapped to its frame unless
/// mapped again later, and enough free frames for the rest.
pub open spec fn load_inv(
    full: Seq<(u32, Seq<u8>)>,
    pages: Seq<(u32, Vec<u8>)>,
    p: Paging,
    m: FrameAllocator,
    dir: u32,
    kd: u32,
) -> bool {
    let k = pages.len() as int;
    &&& p.wf(&m)
    &&& p.dir_ok(dir)
    &&& p.kernel_dir == kd
    &&& p.dir_ok(kd)
    &&& dir != kd
    &&& forall|j: int| 0 <= j < 1024 && is_present(#[trigger] p.entry(dir, j)) ==> entry_frame(p.entry(dir, j)) != kd
    &&& forall|j: int| 0 <= j < 4 && is_present(p.entry(kd, j)) ==> #[trigger] p.entry(dir, j) == p.entry(kd, j)
    &&& k <= full.len()
    &&& forall|j: int| 0 <= j < k ==> (#[trigger] pages[j]).1@ == full[j].1 && pages[j].0 % 4096 == 0
    &&& forall|j: int| 0 <= j < k ==> #[trigger] full[j].0 & 0xFFFu32 == 0
    &&& forall|j: int| 0 <= j < k && last_before(full, j, k) ==> #[trigger] p.translate(dir, full[j].0) == Some(
        entry_frame(pages[j].0) | 7u32,
    )
    &&& count_free(m.view()) >= (full.len() - k) + 1 + tables_needed(
        plan_pages(full).subrange(k, full.len() as int).push(USER_STACK_ADDR),
        present_set(p, dir),
    )
}

/// Frame number of a frame address.
pub open spec fn fidx(f: u32) -> int {
    f as int / 4096
}

/// Frames handed to the program so far were free when loading began, are
/// used now, and are all different; nothing used at the start was freed.
pub open spec fn fresh_frames(v0: Seq<bool>, pages: Seq<(u32, Vec<u8>)>, v: Seq<bool>) -> bool {
    &&& v.len() == v0.len()
    &&& forall|i: int| 0 <= i < v0.len() && v0[i] ==> #[trigger] v[i]
    &&& forall|j: int| 0 <= j < pages.len() ==> fidx((#[trigger] pages[j]).0) < v0.len()
        && !v0[fidx(pages[j].0)] && v[fidx(pages[j].0)]
    &&& forall|j1: int, j2: int| 0 <= j1 < j2 < pages.len() ==> (#[trigger] pages[j1]).0 != (#[trigger] pages[j2]).0
}

/// Free frames left over once the rest of the plan from `k` on, the stack
/// and their page tables are loaded.
pub open spec fn load_slack(full: Seq<(u32, Seq<u8>)>, k: int, p: Paging, m: FrameAllocator, dir: u32) -> int {
    count_free(m.view()) - ((full.len() - k) + 1 + tables_needed(
        plan_pages(full).subrange(k, full.len() as int).push(USER_STACK_ADDR),
        present_set(p, dir),
    ))
}

/// `v` is the frame table after successive allocations from `v0`.
pub open spec fn allocs_from(v0: Seq<bool>, v: Seq<bool>) -> bool {
    &&& count_free(v) <= count_free(v0)
    &&& v == alloc_n(v0, (count_free(v0) - count_free(v)) as nat)
}

/// One more allocation keeps `allocs_from`.
proof fn lemma_allocs_step(v0: Seq<bool>, w: Seq<bool>, u: Seq<bool>)
    requires
        allocs_from(v0, w),
        u == alloc_frame_spec(w).0,
        count_free(u) == count_free(w) - 1,
    ensures
        allocs_from(v0, u),
{
    let n = (count_free(v0) - count_free(w)) as nat;
    assert((count_free(v0) - count_free(u)) as nat == n + 1);
    assert(alloc_n(v0, n + 1) == alloc_frame_spec(alloc_n(v0, n)).0);
}

/// Allocation only marks frames used, and the frame it hands out was free.
proof fn lemma_alloc_mono(v: Seq<bool>)
    requires
        v.len() * 4096 <= u64::MAX,
    ensures
        alloc_frame_spec(v).0.len() == v.len(),
        forall|i: int| 0 <= i < v.len() && v[i] ==> #[trigger] alloc_frame_spec(v).0[i],
        alloc_frame_spec(v).1 matches Some(a) ==> a % 4096 == 0 && a as int / 4096 < v.len() && !v[a as int / 4096]
            && alloc_frame_spec(v).0[a as int / 4096],
{
    lemma_first_free(v);
    if let Some(i) = first_free(v) {
        assert((i * 4096) as u64 == i * 4096) by (nonlinear_arith)
            requires
                0 <= i < v.len(),
                v.len() * 4096 <= u64::MAX,
        ;
        assert((i * 4096) / 4096 == i) by (nonlinear_arith);
        assert((i * 4096) % 4096 == 0) by (nonlinear_arith);
    }
}

proof fn lemma_fresh_step(
    v0: Seq<bool>,
    pages0: Seq<(u32, Vec<u8>)>,
    pages1: Seq<(u32, Vec<u8>)>,
    va: Seq<bool>,
    vb: Seq<bool>,
    vc: Seq<bool>,
    frame: u32,
)
    requires
        fresh_frames(v0, pages0, va),
        va.len() * 4096 <= u64::MAX,
        vb == alloc_frame_spec(va).0,
        Some(frame as u64) == alloc_frame_spec(va).1,
        vc == vb || (vb.len() * 4096 <= u64::MAX && vc == alloc_frame_spec(vb).0),
        pages1.len() == pages0.len() + 1,
        forall|j: int| 0 <= j < pages0.len() ==> #[trigger] pages1[j] == pages0[j],
        pages1[pages0.len() as int].0 == frame,
    ensures
        fresh_frames(v0, pages1, vc),
{
    lemma_alloc_mono(va);
    if vc != vb {
        lemma_alloc_mono(vb);
    }
    assert forall|j: int| 0 <= j < pages1.len() implies fidx((#[trigger] pages1[j]).0) < v0.len()
        && !v0[fidx(pages1[j].0)] && vc[fidx(pages1[j].0)] by {
        if j < pages0.len() {
            assert(pages1[j] == pages0[j]);
        }
    }
    assert forall|j1: int, j2: int| 0 <= j1 < j2 < pages1.len() implies (#[trigger] pages1[j1]).0 != (#[trigger] pages1[j2]).0 by {
        assert(pages1[j1] == pages0[j1]);
        if j2 < pages0.len() {
            assert(pages1[j2] == pages0[j2]);
        } else {
            assert(va[fidx(pages0[j1].0)]);
        }
    }
}

/// Loads the next page of the plan: a fresh frame, its contents, and the
/// user mapping `page` -> frame in `dir`.
fn add_page(
    buf: &Vec<u8>,
    off: usize,
    vaddr: u32,
    filesz: usize,
    page: u32,
    dir: u32,
    pmm: &mut FrameAllocator,
    paging: &mut Paging,
    pages: &mut Vec<(u32, Vec<u8>)>,
    Ghost(full): Ghost<Seq<(u32, Seq<u8>)>>,
    Ghost(kd): Ghost<u32>,
    Ghost(v0): Ghost<Seq<bool>>,
)
    requires
        load_inv(full, old(pages)@, *old(paging), *old(pmm), dir, kd),
        fresh_frames(v0, old(pages)@, old(pmm).view()),
        old(pages)@.len() < full.len(),
        full[old(pages)@.len() as int] == (page, page_bytes(buf@, off as int, vaddr as int, filesz as int, page as int)),
        page & 0xFFFu32 == 0,
        page as int + 4096 <= u32::MAX,
        buf@.len() == ELF_BUF,
        reads_ok(off as int, vaddr as int, filesz as int, page as int + 4096),
    ensures
        load_inv(full, final(pages)@, *final(paging), *final(pmm), dir, kd),
        fresh_frames(v0, final(pages)@, final(pmm).view()),
        final(pages)@.len() == old(pages)@.len() + 1,
        final(pmm).total == old(pmm).total,
        forall|j: int| 0 <= j < 1024 ==> #[trigger] final(paging).entry(kd, j) == old(paging).entry(kd, j),
        allocs_from(v0, old(pmm).view()) ==> allocs_from(v0, final(pmm).view()),
        load_slack(full, final(pages)@.len() as int, *final(paging), *final(pmm), dir)
            == load_slack(full, old(pages)@.len() as int, *old(paging), *old(pmm), dir),
{
    let ghost p0 = *paging;
    proof {
        let k = pages@.len() as int;
        let r = plan_pages(full).subrange(k, full.len() as int).push(USER_STACK_ADDR);
        lemma_pde_range(page);
        assert(r[0] == page);
        assert(present_set(p0, dir).contains(pde_index(page)) == is_present(p0.entry(dir, pde_index(page))));
    }
    let frame = take_frame(pmm, paging);
    let ghost m1 = *pmm;
    proof {
        if allocs_from(v0, old(pmm).view()) {
            lemma_allocs_step(v0, old(pmm).view(), m1.view());
        }
    }
    let bytes = fill_page(buf, off, vaddr, filesz, page);
    paging.map_user_page(pmm, dir, page, frame);
    proof {
        if allocs_from(v0, m1.view()) && !is_present(p0.entry(dir, pde_index(page))) {
            lemma_allocs_step(v0, m1.view(), pmm.view());
        }
    }
    let ghost pages0 = pages@;
    pages.push((frame, bytes));
    proof {
        lemma_add_page(full, pages0, pages@, p0, *paging, *old(pmm), *pmm, dir, kd, page, frame);
        lemma_fresh_step(v0, pages0, pages@, old(pmm).view(), m1.view(), pmm.view(), frame);
    }
}

proof fn lemma_add_page(
    full: Seq<(u32, Seq<u8>)>,
    pages0: Seq<(u32, Vec<u8>)>,
    pages1: Seq<(u32, Vec<u8>)>,
    p0: Paging,
    p1: Paging,
    m0: FrameAllocator,
    m1: FrameAllocator,
    dir: u32,
    kd: u32,
    page: u32,
    frame: u32,
)
    requires
        load_inv(full, pages0, p0, m0, dir, kd),
        pages0.len() < full.len(),
        full[pages0.len() as int].0 == page,
        pages1.len() == pages0.len() + 1,
        forall|j: int| 0 <= j < pages0.len() ==> #[trigger] pages1[j] == pages0[j],
        pages1[pages0.len() as int].0 == frame,
        pages1[pages0.len() as int].1@ == full[pages0.len() as int].1,
        frame % 4096 == 0,
        page & 0xFFFu32 == 0,
        p1.wf(&m1),
        p1.dir_ok(dir),
        p1.kernel_dir == kd,
        p1.translate(dir, page) == Some(entry_frame(frame) | 7u32),
        forall|w: u32| w >> 12u32 != page >> 12u32 ==> #[trigger] p1.translate(dir, w) == p0.translate(dir, w),
        is_present(p1.entry(dir, pde_index(page))),
        forall|j: int| 0 <= j < 1024 && j != pde_index(page) ==> #[trigger] p1.entry(dir, j) == p0.entry(dir, j),
        !is_present(p0.entry(dir, pde_index(page))) ==> !p0.has(entry_frame(p1.entry(dir, pde_index(page)))),
        is_present(p0.entry(dir, pde_index(page))) ==> p1.entry(dir, pde_index(page)) == p0.entry(dir, pde_index(page)),
        forall|b: u32| p0.has(b) ==> #[trigger] p1.has(b),
        forall|b: u32, j: int| p0.has(b) && b != dir && 0 <= j < 1024
            && !(is_present(p0.entry(dir, pde_index(page))) && b == entry_frame(p0.entry(dir, pde_index(page))))
            ==> #[trigger] p1.entry(b, j) == p0.entry(b, j),
        count_free(m1.view()) == count_free(m0.view()) - 1 - (if is_present(p0.entry(dir, pde_index(page))) { 0int } else { 1int }),
    ensures
        load_inv(full, pages1, p1, m1, dir, kd),
        forall|j: int| 0 <= j < 1024 ==> #[trigger] p1.entry(kd, j) == p0.entry(kd, j),
        load_slack(full, pages1.len() as int, p1, m1, dir) == load_slack(full, pages0.len() as int, p0, m0, dir),
{
    let k = pages0.len() as int;
    let n = full.len() as int;
    let r = plan_pages(full).subrange(k, n).push(USER_STACK_ADDR);
    let pr = present_set(p0, dir);
    let d = pde_index(page);
    lemma_pde_range(page);
    assert(r[0] == page);
    assert(r.drop_first() =~= plan_pages(full).subrange(k + 1, n).push(USER_STACK_ADDR));
    assert(pr.contains(d) == is_present(p0.entry(dir, d)));
    assert(present_set(p1, dir) =~= pr.insert(d)) by {
        assert forall|j: int| #[trigger] present_set(p1, dir).contains(j) == pr.insert(d).contains(j) by {
            if 0 <= j < 1024 && j != d {
                assert(p1.entry(dir, j) == p0.entry(dir, j));
            }
        }
    }
    if pr.contains(d) {
        assert(pr.insert(d) =~= pr);
    }
    assert forall|j: int| 0 <= j < k + 1 && last_before(full, j, k + 1) implies #[trigger] p1.translate(dir, full[j].0) == Some(
        entry_frame(pages1[j].0) | 7u32,
    ) by {
        if j < k {
            assert(full[k].0 != full[j].0);
            lemma_aligned_pages_differ(full[j].0, page);
            assert(last_before(full, j, k));
            assert(pages1[j] == pages0[j]);
        }
    }
    assert forall|j: int| 0 <= j < k + 1 implies (#[trigger] pages1[j]).1@ == full[j].1 && pages1[j].0 % 4096 == 0 by {
        if j < k {
            assert(pages1[j] == pages0[j]);
        }
    }
    assert forall|j: int| 0 <= j < 1024 implies #[trigger] p1.entry(kd, j) == p0.entry(kd, j) by {
        if is_present(p0.entry(dir, d)) {
            assert(entry_frame(p0.entry(dir, d)) != kd);
        }
    }
    assert forall|j: int| 0 <= j < 1024 && is_present(#[trigger] p1.entry(dir, j)) implies entry_frame(p1.entry(dir, j)) != kd by {
        if j != d {
            assert(p1.entry(dir, j) == p0.entry(dir, j));
        }
    }
    assert forall|j: int| 0 <= j < 4 && is_present(p1.entry(kd, j)) implies #[trigger] p1.entry(dir, j) == p1.entry(kd, j) by {
        assert(p1.entry(kd, j) == p0.entry(kd, j));
        assert(p0.entry(dir, j) == p0.entry(kd, j));
    }
    assert(p1.dir_ok(kd)) by {
        assert forall|i: int| 0 <= i < 1024 && is_present(#[trigger] p1.entry(kd, i)) implies p1.has(entry_frame(p1.entry(kd, i)))
            && entry_frame(p1.entry(kd, i)) != kd by {
            assert(p1.entry(kd, i) == p0.entry(kd, i));
        }
        assert forall|i: int, j: int| 0 <= i < j < 1024 && is_present(#[trigger] p1.entry(kd, i)) && is_present(#[trigger] p1.entry(kd, j))
            implies entry_frame(p1.entry(kd, i)) != entry_frame(p1.entry(kd, j)) by {
            assert(p1.entry(kd, i) == p0.entry(kd, i));
            assert(p1.entry(kd, j) == p0.entry(kd, j));
        }
    }
}

proof fn lemma_page_align(v: u32)
    by (bit_vector)
    ensures
        v & !4095u32 == v - v % 4096,
        (v & !4095u32) & 0xFFFu32 == 0,
        0x5000_0000u32 & 0xFFFu32 == 0,
        0x5000_0000u32 >> 22u32 == 320u32,
{
}

proof fn lemma_next_page(p: u32)
    by (bit_vector)
    requires
        p & 0xFFFu32 == 0,
        p as int + 4096 <= u32::MAX,
    ensures
        (p + 4096) as u32 & 0xFFFu32 == 0,
        p % 4096 == 0,
{
}

/// Loads every page of the loadable segment described by program header
/// `i` (at offset `ph`).
fn load_segment(
    buf: &Vec<u8>,
    ph: usize,
    dir: u32,
    pmm: &mut FrameAllocator,
    paging: &mut Paging,
    pages: &mut Vec<(u32, Vec<u8>)>,
    Ghost(full): Ghost<Seq<(u32, Seq<u8>)>>,
    Ghost(kd): Ghost<u32>,
    Ghost(i): Ghost<int>,
    Ghost(v0): Ghost<Seq<bool>>,
)
    requires
        fresh_frames(v0, old(pages)@, old(pmm).view()),
        buf@.len() == ELF_BUF,
        0 <= i,
        seg_ok(buf@, i),
        is_load(buf@, i),
        ph == ph_off(buf@, i),
        load_inv(full, old(pages)@, *old(paging), *old(pmm), dir, kd),
        old(pages)@.len() == plan_upto(buf@, i).len(),
        plan_upto(buf@, i + 1).len() <= full.len(),
        full.subrange(0, plan_upto(buf@, i + 1).len() as int) == plan_upto(buf@, i + 1),
    ensures
        load_inv(full, final(pages)@, *final(paging), *final(pmm), dir, kd),
        fresh_frames(v0, final(pages)@, final(pmm).view()),
        final(pages)@.len() == plan_upto(buf@, i + 1).len(),
        final(pmm).total == old(pmm).total,
        forall|j: int| 0 <= j < 1024 ==> #[trigger] final(paging).entry(kd, j) == old(paging).entry(kd, j),
        allocs_from(v0, old(pmm).view()) ==> allocs_from(v0, final(pmm).view()),
        load_slack(full, final(pages)@.len() as int, *final(paging), *final(pmm), dir)
            == load_slack(full, old(pages)@.len() as int, *old(paging), *old(pmm), dir),
{
    let ghost b = buf@;
    let ghost base = pages@.len() as int;
    let off = u32le(buf.as_slice(), ph + 4) as usize;
    let vaddr = u32le(buf.as_slice(), ph + 8);
    let filesz = u32le(buf.as_slice(), ph + 0x10) as usize;
    let memsz = u32le(buf.as_slice(), ph + 0x14);
    proof {
        lemma_page_align(vaddr);
        assert(plan_upto(b, i + 1) == plan_upto(b, i) + seg_plan(b, i));
    }
    let mut page = vaddr & !(FRAME - 1);
    let end = vaddr + memsz;
    let ghost first = page as int;
    let ghost np = seg_pages(b, i);
    let ghost mut j: int = 0;
    while page < end
        invariant
            buf@ == b,
            b.len() == ELF_BUF,
            seg_ok(b, i),
            is_load(b, i),
            first == page_of(vaddr as int),
            np == seg_pages(b, i),
            off == seg_off(b, i),
            vaddr == seg_vaddr(b, i),
            filesz == seg_filesz(b, i),
            end == seg_vaddr(b, i) + seg_memsz(b, i),
            end <= 0xFFFF_F000,
            0 <= j <= np,
            page == first + 4096 * j,
            page & 0xFFFu32 == 0,
            load_inv(full, pages@, *paging, *pmm, dir, kd),
            fresh_frames(v0, pages@, pmm.view()),
            pages@.len() == base + j,
            base == plan_upto(b, i).len(),
            plan_upto(b, i + 1) == plan_upto(b, i) + seg_plan(b, i),
            plan_upto(b, i + 1).len() <= full.len(),
            full.subrange(0, plan_upto(b, i + 1).len() as int) == plan_upto(b, i + 1),
            pmm.total == old(pmm).total,
            forall|k: int| 0 <= k < 1024 ==> #[trigger] paging.entry(kd, k) == old(paging).entry(kd, k),
            allocs_from(v0, old(pmm).view()) ==> allocs_from(v0, pmm.view()),
            load_slack(full, pages@.len() as int, *paging, *pmm, dir)
                == load_slack(full, base, *old(paging), *old(pmm), dir),
            base == old(pages)@.len(),
        decreases np - j,
    {
        proof {
            lemma_npages(first, end as int, j);
            lemma_next_page(page);
            let pu = plan_upto(b, i + 1);
            assert(full[base + j] == pu[base + j]);
            assert(pu[base + j] == seg_plan(b, i)[j]);
        }
        add_page(buf, off, vaddr, filesz, page, dir, pmm, paging, pages, Ghost(full), Ghost(kd), Ghost(v0));
        proof {
            lemma_next_page(page);
            j = j + 1;
        }
        page = page + FRAME;
    }
    proof {
        lemma_npages(first, end as int, j);
    }
}

/// The file `name` on `disk` is read and starts like an ELF executable.
pub open spec fn elf_loads(d: Seq<u8>, name: Seq<u8>) -> bool {
    let (code, size, data) = read_file_spec(d, name, ELF_BUF as int);
    code == 0 && size >= 52 && elf_magic(file_buf(data))
}

/// The file buffer of `name` read off `disk`.
pub open spec fn elf_file(d: Seq<u8>, name: Seq<u8>) -> Seq<u8> {
    file_buf(read_file_spec(d, name, ELF_BUF as int).2)
}

/// Reads file `name` into a zeroed 64 KiB buffer; `None` unless it was
/// found and starts like an ELF executable.
fn read_elf(disk: &[u8], name: &[u8; 11]) -> (r: Option<Vec<u8>>)
    requires
        read_file_spec(disk@, name@, ELF_BUF as int).0 != 2,
    ensures
        r is Some <==> elf_loads(disk@, name@),
        r matches Some(v) ==> v@ == elf_file(disk@, name@) && v@.len() == ELF_BUF,
{
    let mut buf: Vec<u8> = Vec::new();
    let mut z: usize = 0;
    while z < ELF_BUF
        invariant
            z <= ELF_BUF,
            buf@ == Seq::new(z as nat, |k: int| 0u8),
        decreases ELF_BUF - z,
    {
        buf.push(0);
        z += 1;
        proof {
            assert(buf@ =~= Seq::new(z as nat, |k: int| 0u8));
        }
    }
    let ghost zeros = buf@;
    let n = match read_file(disk, name, buf.as_mut_slice(), ELF_BUF) {
        Some(n) => n,
        None => return None,
    };
    proof {
        let (code, size, data) = read_file_spec(disk@, name@, ELF_BUF as int);
        lemma_find_size(disk@, name@, 0);
        assert(n as int == size);
        assert(zeros.subrange(data.len() as int, ELF_BUF as int) =~= Seq::new((ELF_BUF - data.len()) as nat, |k: int| 0u8));
        assert(buf@ =~= elf_file(disk@, name@));
    }
    if n < 52 || buf[0] != 0x7F || buf[1] != 69 || buf[2] != 76 || buf[3] != 70 {
        return None;
    }
    Some(buf)
}

/// Builds the new address space and loads every page of the plan into it.
#[verifier::spinoff_prover]
#[verifier::rlimit(40)]
fn load_segments(buf: &Vec<u8>, pmm: &mut FrameAllocator, paging: &mut Paging) -> (r: (u32, Vec<(u32, Vec<u8>)>))
    requires
        buf@.len() == ELF_BUF,
        elf_ok(buf@),
        old(paging).wf(old(pmm)),
        old(paging).dir_ok(old(paging).kernel_dir),
        count_free(old(pmm).view()) >= frames_needed(buf@, kernel_low_present(*old(paging))),
    ensures
        load_inv(load_plan(buf@), r.1@, *final(paging), *final(pmm), r.0, old(paging).kernel_dir),
        fresh_frames(old(pmm).view(), r.1@, final(pmm).view()),
        r.1@.len() == load_plan(buf@).len(),
        !old(paging).has(r.0),
        final(paging).dir_ok(old(paging).kernel_dir),
        final(pmm).total == old(pmm).total,
        forall|j: int| 0 <= j < 1024 ==> #[trigger] final(paging).entry(old(paging).kernel_dir, j) == old(paging).entry(old(paging).kernel_dir, j),
        allocs_from(old(pmm).view(), final(pmm).view()),
        load_slack(load_plan(buf@), load_plan(buf@).len() as int, *final(paging), *final(pmm), r.0)
            == count_free(old(pmm).view()) - frames_needed(buf@, kernel_low_present(*old(paging))),
{
    let ghost b = buf@;
    let phoff = u32le(buf.as_slice(), 0x1C) as usize;
    let phentsize = u16le(buf.as_slice(), 0x2A) as usize;
    let phnum = u16le(buf.as_slice(), 0x2C) as usize;
    let ghost kd = paging.kernel_dir;
    let ghost p_old = *paging;
    let ghost full = load_plan(b);
    let ghost v0 = pmm.view();
    let dir = paging.new_address_space(pmm);
    proof {
        lemma_alloc_mono(v0);
        crate::paging::lemma_flag_values();
        assert(present_set(*paging, dir) =~= kernel_low_present(p_old));
        assert(plan_pages(full).subrange(0, full.len() as int) =~= plan_pages(full));
        assert forall|j: int| 0 <= j < 1024 && is_present(#[trigger] paging.entry(dir, j)) implies entry_frame(paging.entry(dir, j)) != kd by {
            if j < 4 {
                assert(paging.entry(dir, j) == p_old.entry(kd, j));
            }
        }
        assert forall|j: int| 0 <= j < 1024 implies #[trigger] paging.entry(kd, j) == p_old.entry(kd, j) by {}
        assert(alloc_n(v0, 0) == v0);
        assert(alloc_n(v0, 1) == alloc_frame_spec(v0).0);
        assert(allocs_from(v0, pmm.view()));
        assert forall|j: int| 0 <= j < 4 && is_present(paging.entry(kd, j)) implies #[trigger] paging.entry(dir, j) == paging.entry(kd, j) by {}
        assert(paging.dir_ok(kd)) by {
            assert forall|i: int| 0 <= i < 1024 && is_present(#[trigger] paging.entry(kd, i)) implies paging.has(entry_frame(paging.entry(kd, i)))
                && entry_frame(paging.entry(kd, i)) != kd by {
                assert(paging.entry(kd, i) == p_old.entry(kd, i));
            }
            assert forall|i: int, j: int| 0 <= i < j < 1024 && is_present(#[trigger] paging.entry(kd, i)) && is_present(#[trigger] paging.entry(kd, j))
                implies entry_frame(paging.entry(kd, i)) != entry_frame(paging.entry(kd, j)) by {
                assert(paging.entry(kd, i) == p_old.entry(kd, i));
                assert(paging.entry(kd, j) == p_old.entry(kd, j));
            }
        }
    }
    let mut pages: Vec<(u32, Vec<u8>)> = Vec::new();
    proof {
        assert(fresh_frames(v0, pages@, pmm.view()));
    }
    let mut i: usize = 0;
    while i < phnum
        invariant
            buf@ == b,
            b.len() == ELF_BUF,
            elf_ok(b),
            full == load_plan(b),
            phoff == le32(b, 0x1C),
            phentsize == le16(b, 0x2A),
            phnum == ph_count(b),
            i <= phnum,
            load_inv(full, pages@, *paging, *pmm, dir, kd),
            fresh_frames(v0, pages@, pmm.view()),
            v0 == old(pmm).view(),
            pages@.len() == plan_upto(b, i as int).len(),
            pmm.total == old(pmm).total,
            kd == old(paging).kernel_dir,
            forall|k: int| 0 <= k < 1024 ==> #[trigger] paging.entry(kd, k) == old(paging).entry(kd, k),
            allocs_from(v0, pmm.view()),
            load_slack(full, pages@.len() as int, *paging, *pmm, dir)
                == count_free(v0) - frames_needed(b, kernel_low_present(p_old)),
        decreases phnum - i,
    {
        proof {
            assert(seg_ok(b, i as int));
            lemma_plan_prefix(b, i + 1, phnum as int);
            assert(0 <= i * phentsize) by (nonlinear_arith)
                requires
                    0 <= i,
                    0 <= phentsize,
            ;
        }
        let ph = phoff + i * phentsize;
        if u32le(buf.as_slice(), ph) != PT_LOAD {
            i += 1;
            continue;
        }
        load_segment(buf, ph, dir, pmm, paging, &mut pages, Ghost(full), Ghost(kd), Ghost(i as int), Ghost(v0));
        i += 1;
    }
    (dir, pages)
}

/// Program header `i` passes the loader's checks (`seg_ok`).
fn header_ok(buf: &Vec<u8>, i: usize) -> (r: bool)
    requires
        buf@.len() == ELF_BUF,
        i < 0x10000,
    ensures
        r == seg_ok(buf@, i as int),
{
    let ghost b = buf@;
    let phoff = u32le(buf.as_slice(), 0x1C) as u64;
    let phentsize = u16le(buf.as_slice(), 0x2A) as u64;
    proof {
        assert(i as u64 * phentsize <= 0x10000 * 0x10000) by (nonlinear_arith)
            requires
                i < 0x10000,
                phentsize < 0x10000,
        ;
    }
    let ph = phoff + i as u64 * phentsize;
    if ph + 4 > ELF_BUF as u64 {
        return false;
    }
    let kind = u32le(buf.as_slice(), ph as usize);
    if kind != PT_LOAD {
        return true;
    }
    if ph + 0x18 > ELF_BUF as u64 {
        return false;
    }
    let phu = ph as usize;
    let off = u32le(buf.as_slice(), phu + 4) as u64;
    let vaddr = u32le(buf.as_slice(), phu + 8) as u64;
    let filesz = u32le(buf.as_slice(), phu + 0x10) as u64;
    let memsz = u32le(buf.as_slice(), phu + 0x14) as u64;
    let end = vaddr + memsz;
    if end > 0xFFFF_F000 {
        return false;
    }
    let first = vaddr - vaddr % 4096;
    let np = if first < end { (end - first + 4095) / 4096 } else { 0 };
    let last = first + 4096 * np;
    proof {
        assert(np == seg_pages(b, i as int));
        assert(last == page_of(vaddr as int) + 4096 * seg_pages(b, i as int));
    }
    let copied: u64 = if last <= vaddr { 0 } else if filesz < last - vaddr { filesz } else { last - vaddr };
    copied == 0 || off + copied <= ELF_BUF as u64
}

/// Every program header passes the loader's checks.
fn headers_ok(buf: &Vec<u8>) -> (r: bool)
    requires
        buf@.len() == ELF_BUF,
    ensures
        r == elf_ok(buf@),
{
    let phnum = u16le(buf.as_slice(), 0x2C) as usize;
    let mut i: usize = 0;
    while i < phnum
        invariant
            buf@.len() == ELF_BUF,
            phnum == ph_count(buf@),
            phnum < 0x10000,
            i <= phnum,
            forall|j: int| 0 <= j < i ==> #[trigger] seg_ok(buf@, j),
        decreases phnum - i,
    {
        if !header_ok(buf, i) {
            return false;
        }
        i += 1;
    }
    true
}

/// Directory entries marked in `present`.
pub open spec fn flag_set(present: Seq<bool>) -> Set<int> {
    Set::new(|j: int| 0 <= j < present.len() && present[j])
}

proof fn lemma_tables_step(all: Seq<u32>, k: int, m: int, p: Set<int>)
    requires
        0 <= k < m <= all.len(),
    ensures
        tables_needed(all.subrange(k, m), p) == (if p.contains(pde_index(all[k])) { 0int } else { 1int })
            + tables_needed(all.subrange(k + 1, m), p.insert(pde_index(all[k]))),
{
    let s = all.subrange(k, m);
    assert(s[0] == all[k]);
    assert(s.drop_first() =~= all.subrange(k + 1, m));
    if p.contains(pde_index(all[k])) {
        assert(p.insert(pde_index(all[k])) =~= p);
    }
}

/// Counts one page of the plan (at index `k` of `all`) and the page table
/// it may need; returns the new count.
fn count_page(page: u32, present: &mut Vec<bool>, count: u64, Ghost(all): Ghost<Seq<u32>>, Ghost(k): Ghost<int>, Ghost(goal): Ghost<int>) -> (r: u64)
    requires
        old(present)@.len() == 1024,
        0 <= k < all.len(),
        all[k] == page,
        count <= 0x1_0000_0000,
        count + tables_needed(all.subrange(k, all.len() as int), flag_set(old(present)@)) == goal,
    ensures
        final(present)@.len() == 1024,
        r <= count + 1,
        r >= count,
        r + tables_needed(all.subrange(k + 1, all.len() as int), flag_set(final(present)@)) == goal,
{
    proof {
        crate::paging::lemma_indices(page);
        lemma_tables_step(all, k, all.len() as int, flag_set(present@));
    }
    let d = (page >> 22) as usize;
    let ghost p0 = flag_set(present@);
    if present[d] {
        proof {
            assert(flag_set(present@).contains(d as int));
            assert(p0.insert(d as int) =~= p0);
        }
        count
    } else {
        present.set(d, true);
        proof {
            assert(flag_set(present@) =~= p0.insert(d as int));
        }
        count + 1
    }
}

/// Loading the program in `buf` (whose headers pass the checks) into a
/// directory that starts with the kernel's low entries takes at most `free`
/// frames.
fn frames_fit(buf: &Vec<u8>, paging: &Paging, free: usize) -> (r: bool)
    requires
        buf@.len() == ELF_BUF,
        elf_ok(buf@),
        paging.store_wf(),
        paging.has(paging.kernel_dir),
        free <= 0x10_0000,
    ensures
        r == (free >= frames_needed(buf@, kernel_low_present(*paging))),
{
    let ghost b = buf@;
    let ghost full = load_plan(b);
    let ghost all = plan_pages(full).push(USER_STACK_ADDR);
    let ghost n = full.len() as int;
    let ghost goal = frames_needed(b, kernel_low_present(*paging)) as int;
    let kd = paging.kernel_dir();
    let mut present: Vec<bool> = Vec::new();
    let mut j: usize = 0;
    while j < 1024
        invariant
            j <= 1024,
            present@.len() == j,
            paging.store_wf(),
            paging.has(kd),
            kd == paging.kernel_dir,
            forall|m: int| 0 <= m < j ==> #[trigger] present@[m] == (m < 4 && is_present(paging.entry(kd, m))),
        decreases 1024 - j,
    {
        if j < 4 {
            let v = (j as u32) << 22;
            proof {
                assert(v >> 22u32 == j) by (bit_vector)
                    requires
                        v == (j as u32) << 22,
                        j < 4,
                ;
            }
            present.push(paging.pde_present(kd, v));
        } else {
            present.push(false);
        }
        j += 1;
    }
    proof {
        assert(flag_set(present@) =~= kernel_low_present(*paging));
        assert(all.subrange(0, all.len() as int) =~= all);
        assert(all.len() == n + 1);
    }
    let phoff = u32le(buf.as_slice(), 0x1C) as usize;
    let phentsize = u16le(buf.as_slice(), 0x2A) as usize;
    let phnum = u16le(buf.as_slice(), 0x2C) as usize;
    let mut count: u64 = 2;
    let mut i: usize = 0;
    while i < phnum
        invariant
            buf@ == b,
            b.len() == ELF_BUF,
            elf_ok(b),
            full == load_plan(b),
            all == plan_pages(full).push(USER_STACK_ADDR),
            n == full.len(),
            phoff == le32(b, 0x1C),
            phentsize == le16(b, 0x2A),
            phnum == ph_count(b),
            i <= phnum,
            goal == frames_needed(b, kernel_low_present(*paging)),
            plan_upto(b, i as int).len() <= n,
            free <= 0x10_0000,
            present@.len() == 1024,
            count <= free + 2,
            count + (n - plan_upto(b, i as int).len()) + tables_needed(
                all.subrange(plan_upto(b, i as int).len() as int, all.len() as int), flag_set(present@)) == goal,
        decreases phnum - i,
    {
        proof {
            assert(seg_ok(b, i as int));
            lemma_plan_prefix(b, i + 1, phnum as int);
            lemma_plan_prefix(b, i as int, i + 1);
            assert(0 <= i * phentsize) by (nonlinear_arith)
                requires
                    0 <= i,
                    0 <= phentsize,
            ;
        }
        let ph = phoff + i * phentsize;
        if u32le(buf.as_slice(), ph) != PT_LOAD {
            i += 1;
            continue;
        }
        let vaddr = u32le(buf.as_slice(), ph + 8);
        let memsz = u32le(buf.as_slice(), ph + 0x14);
        proof {
            lemma_page_align(vaddr);
            assert(plan_upto(b, i + 1) == plan_upto(b, i as int) + seg_plan(b, i as int));
        }
        let mut page = vaddr & !(FRAME - 1);
        let end = vaddr + memsz;
        let ghost first = page as int;
        let ghost base = plan_upto(b, i as int).len() as int;
        let ghost np = seg_pages(b, i as int);
        let ghost mut jj: int = 0;
        while page < end
            invariant
                buf@ == b,
                b.len() == ELF_BUF,
                seg_ok(b, i as int),
                is_load(b, i as int),
                first == page_of(vaddr as int),
                np == seg_pages(b, i as int),
                vaddr == seg_vaddr(b, i as int),
                end == seg_vaddr(b, i as int) + seg_memsz(b, i as int),
                end <= 0xFFFF_F000,
                0 <= jj <= np,
                page == first + 4096 * jj,
                page & 0xFFFu32 == 0,
                base == plan_upto(b, i as int).len(),
                plan_upto(b, i + 1) == plan_upto(b, i as int) + seg_plan(b, i as int),
                plan_upto(b, i + 1).len() <= n,
                full.subrange(0, plan_upto(b, i + 1).len() as int) == plan_upto(b, i + 1),
                full == load_plan(b),
                all == plan_pages(full).push(USER_STACK_ADDR),
                n == full.len(),
                present@.len() == 1024,
                goal == frames_needed(b, kernel_low_present(*paging)),
                free <= 0x10_0000,
                count <= free + 2,
                count + (n - (base + jj)) + tables_needed(all.subrange(base + jj, all.len() as int), flag_set(present@)) == goal,
            decreases np - jj,
        {
            proof {
                lemma_npages(first, end as int, jj);
                lemma_next_page(page);
                let pu = plan_upto(b, i + 1);
                assert(full[base + jj] == pu[base + jj]);
                assert(pu[base + jj] == seg_plan(b, i as int)[jj]);
                assert(all[base + jj] == page);
            }
            let c1 = count_page(page, &mut present, count + 1, Ghost(all), Ghost(base + jj), Ghost(goal - (n - (base + jj)) + 1));
            if c1 > free as u64 {
                proof {
                    assert(seg_plan(b, i as int).len() == np);
                    assert(plan_upto(b, i + 1).len() == base + np);
                    assert(jj < np);
                    assert(base + jj < n);
                    let t = tables_needed(all.subrange(base + jj + 1, all.len() as int), flag_set(present@));
                    assert(c1 + t == goal - (n - (base + jj)) + 1);
                    assert(goal >= c1);
                }
                return false;
            }
            count = c1;
            proof {
                lemma_next_page(page);
                jj = jj + 1;
            }
            page = page + FRAME;
        }
        proof {
            lemma_npages(first, end as int, jj);
            assert(seg_plan(b, i as int).len() == np);
        }
        i += 1;
    }
    proof {
        assert(plan_upto(b, phnum as int) == full);
        assert(all[n] == USER_STACK_ADDR);
    }
    let c = count_page(USER_STACK_ADDR, &mut present, count, Ghost(all), Ghost(n), Ghost(goal));
    proof {
        assert(all.subrange(n + 1, all.len() as int) =~= Seq::<u32>::empty());
    }
    c <= free as u64
}

/// `exec` can load `name` from `disk` without faulting: when the file is an
/// ELF executable, its program headers pass the loader's checks and the
/// free frames suffice.
pub fn exec_fits(disk: &[u8], name: &[u8; 11], pmm: &FrameAllocator, paging: &Paging) -> (r: bool)
    requires
        paging.wf(pmm),
        paging.dir_ok(paging.kernel_dir),
        read_file_spec(disk@, name@, ELF_BUF as int).0 != 2,
    ensures
        r == (elf_loads(disk@, name@) ==> elf_ok(elf_file(disk@, name@))
            && count_free(pmm.view()) >= frames_needed(elf_file(disk@, name@), kernel_low_present(*paging))),
{
    let buf = match read_elf(disk, name) {
        Some(v) => v,
        None => return true,
    };
    if !headers_ok(&buf) {
        return false;
    }
    let free = pmm.free_frames();
    proof {
        crate::pmm::lemma_count_le(pmm.view());
    }
    frames_fit(&buf, paging, free)
}

/// Loads the program `name` (an 11-byte 8.3 name) from `disk` into a new
/// address space and makes that space the current task's. Returns `None`
/// when the file is missing or is not an ELF executable (nothing changes
/// then).
pub fn exec(
    disk: &[u8],
    name: &[u8; 11],
    pmm: &mut FrameAllocator,
    paging: &mut Paging,
    sched: &mut Scheduler,
) -> (r: Option<ExecImage>)
    requires
        old(paging).wf(old(pmm)),
        old(paging).dir_ok(old(paging).kernel_dir),
        old(sched).wf(),
        read_file_spec(disk@, name@, ELF_BUF as int).0 != 2,
        elf_loads(disk@, name@) ==> elf_ok(elf_file(disk@, name@))
            && count_free(old(pmm).view()) >= frames_needed(elf_file(disk@, name@), kernel_low_present(*old(paging))),
    ensures
        r is Some <==> elf_loads(disk@, name@),
        r is None ==> *final(pmm) == *old(pmm) && *final(paging) == *old(paging) && *final(sched) == *old(sched),
        final(paging).wf(final(pmm)),
        final(paging).kernel_dir == old(paging).kernel_dir,
        final(paging).dir_ok(final(paging).kernel_dir),
        final(sched).wf(),
        r matches Some(img) ==> ({
            let b = elf_file(disk@, name@);
            let full = load_plan(b);
            &&& img.entry == elf_entry(b)
            &&& img.stack_top == USER_STACK_TOP
            &&& !old(paging).has(img.dir)
            &&& final(paging).dir_ok(img.dir)
            &&& img.pages@.len() == full.len()
            &&& forall|j: int| 0 <= j < full.len() ==> (#[trigger] img.pages@[j]).1@ == full[j].1
            &&& forall|j: int| 0 <= j < full.len() && last_before(full, j, full.len() as int) && full[j].0 != USER_STACK_ADDR
                ==> #[trigger] final(paging).translate(img.dir, full[j].0) == Some(entry_frame(img.pages@[j].0) | 7u32)
            &&& final(paging).translate(img.dir, USER_STACK_ADDR) == Some(entry_frame(img.stack_frame) | 7u32)
            &&& forall|j: int| 0 <= j < full.len() ==> fidx((#[trigger] img.pages@[j]).0) < old(pmm).view().len()
                && !old(pmm).view()[fidx(img.pages@[j].0)] && img.pages@[j].0 != img.stack_frame
            &&& forall|j1: int, j2: int| 0 <= j1 < j2 < full.len() ==> (#[trigger] img.pages@[j1]).0 != (#[trigger] img.pages@[j2]).0
            &&& fidx(img.stack_frame) < old(pmm).view().len() && !old(pmm).view()[fidx(img.stack_frame)]
            &&& final(sched).tasks@ == old(sched).tasks@.update(
                old(sched).current as int,
                Task { page_dir: img.dir, ..old(sched).tasks@[old(sched).current as int] },
            )
            &&& final(sched).current == old(sched).current
            &&& forall|j: int| 0 <= j < 1024 ==> #[trigger] final(paging).entry(final(paging).kernel_dir, j)
                == old(paging).entry(old(paging).kernel_dir, j)
            &&& forall|v: u32| pde_index(v) < 4 && is_present(old(paging).entry(old(paging).kernel_dir, pde_index(v)))
                ==> #[trigger] final(paging).translate(img.dir, v) == final(paging).translate(final(paging).kernel_dir, v)
            &&& final(pmm).view() == alloc_n(old(pmm).view(), frames_needed(b, kernel_low_present(*old(paging))))
        }),
{
    let buf = match read_elf(disk, name) {
        Some(v) => v,
        None => return None,
    };
    let ghost b = buf@;
    let entry = u32le(buf.as_slice(), 0x18);
    let (dir, pages) = load_segments(&buf, pmm, paging);
    let ghost full = load_plan(b);
    let ghost n_pl = full.len() as int;
    proof {
        assert(plan_pages(full).subrange(n_pl, n_pl).push(USER_STACK_ADDR) =~= seq![USER_STACK_ADDR]);
        lemma_pde_range(USER_STACK_ADDR);
        assert(present_set(*paging, dir).contains(pde_index(USER_STACK_ADDR)) == is_present(paging.entry(dir, pde_index(USER_STACK_ADDR))));
    }
    let ghost p_mid = *paging;
    let ghost vm = pmm.view();
    proof {
        lemma_alloc_mono(vm);
    }
    let stack_frame = take_frame(pmm, paging);
    let ghost m_stack = pmm.view();
    proof {
        lemma_allocs_step(old(pmm).view(), vm, m_stack);
        assert forall|j: int| 0 <= j < full.len() implies #[trigger] pages@[j].0 != stack_frame by {
            assert(vm[fidx(pages@[j].0)]);
        }
    }
    paging.map_user_page(pmm, dir, USER_STACK_ADDR, stack_frame);
    proof {
        lemma_page_align(0);
        let kd = p_mid.kernel_dir;
        let sd = pde_index(USER_STACK_ADDR);
        assert(sd == 320);
        let pr = present_set(p_mid, dir);
        let st = seq![USER_STACK_ADDR];
        assert(st.drop_first() =~= Seq::<u32>::empty());
        assert(pr.contains(sd) == is_present(p_mid.entry(dir, sd)));
        assert(tables_needed(st, pr) == if pr.contains(sd) { 0nat } else { 1nat }) by {
            assert(tables_needed(Seq::<u32>::empty(), pr.insert(sd)) == 0);
            assert(tables_needed(Seq::<u32>::empty(), pr) == 0);
        }
        if !is_present(p_mid.entry(dir, sd)) {
            lemma_allocs_step(old(pmm).view(), m_stack, pmm.view());
        }
        assert forall|j: int| 0 <= j < 1024 implies #[trigger] paging.entry(kd, j) == p_mid.entry(kd, j) by {
            if is_present(p_mid.entry(dir, sd)) {
                assert(entry_frame(p_mid.entry(dir, sd)) != kd);
            }
        }
        assert forall|v: u32| pde_index(v) < 4 && is_present(old(paging).entry(kd, pde_index(v)))
            implies #[trigger] paging.translate(dir, v) == paging.translate(kd, v) by {
            let d = pde_index(v);
            assert(paging.entry(kd, d) == p_mid.entry(kd, d));
            assert(p_mid.entry(kd, d) == old(paging).entry(kd, d));
            assert(p_mid.entry(dir, d) == p_mid.entry(kd, d));
            assert(paging.entry(dir, d) == p_mid.entry(dir, d));
        }
        assert forall|j: int| 0 <= j < full.len() && last_before(full, j, full.len() as int) && full[j].0 != USER_STACK_ADDR
            implies #[trigger] paging.translate(dir, full[j].0) == Some(entry_frame(pages@[j].0) | 7u32) by {
            assert(full[j].0 & 0xFFFu32 == 0);
            lemma_aligned_pages_differ(full[j].0, USER_STACK_ADDR);
            assert(p_mid.translate(dir, full[j].0) == Some(entry_frame(pages@[j].0) | 7u32));
        }
    }
    sched.set_current_page_dir(dir);
    Some(ExecImage { dir, entry, stack_top: USER_STACK_TOP, stack_frame, pages })
}

} // verus!
