//! Physical Memory Manager — a bitmap over 4KB physical frames.
//!
//! One bit per frame: 1 = used, 0 = free. After setup every frame outside the
//! usable E820 regions is used, and so is everything below 1MB (BIOS area,
//! kernel, the bitmap itself, the bump heap): frames are only handed out from
//! extended RAM.
use vstd::prelude::*;
use crate::e820::{E820Entry, E820_USABLE};
use crate::string::{dec_str, hex_str};
use crate::text::{ascii, push_str, push_dec, push_hex};

verus! {

/// Bytes in one frame.
pub const FRAME_SIZE: usize = 4096;

/// Everything below this address stays reserved.
pub const LOW_MEMORY_TOP: usize = 0x100000;

/// The frame bitmap and its counters.
pub struct FrameAllocator {
    pub bitmap: Vec<u8>,
    pub total: usize,
    pub free: usize,
}

/// Bit `k` of byte `b` is set.
pub open spec fn bit_set(b: u8, k: int) -> bool {
    ((b >> (k as u8)) & 1u8) == 1u8
}

/// Bytes needed for a bitmap of `total` frames.
pub open spec fn bitmap_len(total: int) -> int {
    (total + 7) / 8
}

/// Number of free (false) entries.
pub open spec fn count_free(v: Seq<bool>) -> nat
    decreases v.len(),
{
    if v.len() == 0 {
        0
    } else {
        count_free(v.drop_last()) + if v.last() { 0nat } else { 1nat }
    }
}

/// Lowest free frame, if any.
pub open spec fn first_free(v: Seq<bool>) -> Option<int> {
    if exists|i: int| 0 <= i < v.len() && !v[i] {
        Some(choose|i: int| 0 <= i < v.len() && !v[i] && forall|j: int| 0 <= j < i ==> v[j])
    } else {
        None
    }
}

/// Frame holding physical address `addr`.
pub open spec fn frame_of(addr: u64) -> int {
    addr as int / FRAME_SIZE as int
}

/// Physical base address of frame `i`.
pub open spec fn frame_addr(i: int) -> int {
    i * FRAME_SIZE
}

/// Frames after `alloc_frame`, and its result.
pub open spec fn alloc_frame_spec(v: Seq<bool>) -> (Seq<bool>, Option<u64>) {
    match first_free(v) {
        None => (v, None),
        Some(i) => (v.update(i, true), Some(frame_addr(i) as u64)),
    }
}

/// Frames after `n` successive `alloc_frame` calls: each takes the lowest
/// free frame.
pub open spec fn alloc_n(v: Seq<bool>, n: nat) -> Seq<bool>
    decreases n,
{
    if n == 0 {
        v
    } else {
        alloc_frame_spec(alloc_n(v, (n - 1) as nat)).0
    }
}

/// `a` allocations then `b` more are `a + b` allocations.
pub proof fn lemma_alloc_n_add(v: Seq<bool>, a: nat, b: nat)
    ensures
        alloc_n(alloc_n(v, a), b) == alloc_n(v, a + b),
    decreases b,
{
    if b > 0 {
        lemma_alloc_n_add(v, a, (b - 1) as nat);
        assert(a + b - 1 == a + (b - 1) as nat);
    }
}

/// Frames after `free_frame(addr)`: a used frame inside the table becomes free.
pub open spec fn free_frame_spec(v: Seq<bool>, addr: u64) -> Seq<bool> {
    let i = frame_of(addr);
    if i < v.len() && v[i] {
        v.update(i, false)
    } else {
        v
    }
}

proof fn lemma_bit_or(b: u8, k: u8, j: u8)
    requires
        k < 8,
        j < 8,
    ensures
        (((b | (1u8 << k)) >> j) & 1u8 == 1u8) == (j == k || ((b >> j) & 1u8 == 1u8)),
{
    assert((((b | (1u8 << k)) >> j) & 1u8 == 1u8) == (j == k || ((b >> j) & 1u8 == 1u8))) by (bit_vector)
        requires
            k < 8,
            j < 8,
    ;
}

proof fn lemma_bit_clear(b: u8, k: u8, j: u8)
    requires
        k < 8,
        j < 8,
    ensures
        (((b & !(1u8 << k)) >> j) & 1u8 == 1u8) == (j != k && ((b >> j) & 1u8 == 1u8)),
{
    assert((((b & !(1u8 << k)) >> j) & 1u8 == 1u8) == (j != k && ((b >> j) & 1u8 == 1u8))) by (bit_vector)
        requires
            k < 8,
            j < 8,
    ;
}

proof fn lemma_bit_test(b: u8, k: u8)
    requires
        k < 8,
    ensures
        ((b & (1u8 << k)) != 0) == ((b >> k) & 1u8 == 1u8),
{
    assert(((b & (1u8 << k)) != 0) == ((b >> k) & 1u8 == 1u8)) by (bit_vector)
        requires
            k < 8,
    ;
}

proof fn lemma_bits_all(j: u8)
    requires
        j < 8,
    ensures
        (0xFFu8 >> j) & 1u8 == 1u8,
{
    assert((0xFFu8 >> j) & 1u8 == 1u8) by (bit_vector)
        requires
            j < 8,
    ;
}

pub proof fn lemma_count_update(v: Seq<bool>, i: int, b: bool)
    requires
        0 <= i < v.len(),
    ensures
        count_free(v.update(i, b)) + (if v[i] { 0int } else { 1int })
            == count_free(v) + (if b { 0int } else { 1int }),
    decreases v.len(),
{
    if i == v.len() - 1 {
        assert(v.update(i, b).drop_last() =~= v.drop_last());
    } else {
        lemma_count_update(v.drop_last(), i, b);
        assert(v.update(i, b).drop_last() =~= v.drop_last().update(i, b));
    }
}

pub proof fn lemma_count_le(v: Seq<bool>)
    ensures
        count_free(v) <= v.len(),
    decreases v.len(),
{
    if v.len() > 0 {
        lemma_count_le(v.drop_last());
    }
}

proof fn lemma_count_zero(v: Seq<bool>)
    requires
        forall|i: int| 0 <= i < v.len() ==> v[i],
    ensures
        count_free(v) == 0,
    decreases v.len(),
{
    if v.len() > 0 {
        lemma_count_zero(v.drop_last());
    }
}

/// A table with a free frame has a lowest free frame.
pub proof fn lemma_free_exists(v: Seq<bool>)
    requires
        count_free(v) > 0,
    ensures
        first_free(v) is Some,
{
    lemma_first_free(v);
    if first_free(v) is None {
        lemma_count_zero(v);
    }
}

pub proof fn lemma_first_free(v: Seq<bool>)
    ensures
        first_free(v) matches Some(i) ==> 0 <= i < v.len() && !v[i] && forall|j: int| 0 <= j < i ==> v[j],
        first_free(v) is None ==> forall|j: int| 0 <= j < v.len() ==> v[j],
{
    if exists|i: int| 0 <= i < v.len() && !v[i] {
        let k = choose|i: int| 0 <= i < v.len() && !v[i];
        lemma_min_free(v, k);
    }
}

proof fn lemma_min_free(v: Seq<bool>, k: int)
    requires
        0 <= k < v.len(),
        !v[k],
    ensures
        exists|i: int| 0 <= i < v.len() && !v[i] && forall|j: int| 0 <= j < i ==> v[j],
    decreases k,
{
    if forall|j: int| 0 <= j < k ==> v[j] {
    } else {
        let j = choose|j: int| 0 <= j < k && !v[j];
        lemma_min_free(v, j);
    }
}


/// Highest end address among the usable regions in the first `n` entries.
pub open spec fn top_of(entries: Seq<E820Entry>, n: int) -> int
    decreases n,
{
    if n <= 0 {
        0
    } else {
        let e = entries[n - 1];
        let m = top_of(entries, n - 1);
        if e.kind == E820_USABLE && e.base + e.length > m {
            e.base + e.length
        } else {
            m
        }
    }
}

/// Frames tracked for a memory map: everything up to the highest usable address.
pub open spec fn init_total(entries: Seq<E820Entry>) -> int {
    top_of(entries, entries.len() as int) / FRAME_SIZE as int
}

/// Frame `i` lies inside one of the usable regions among the first `n` entries.
pub open spec fn in_usable(entries: Seq<E820Entry>, n: int, i: int) -> bool {
    exists|k: int|
        0 <= k < n && #[trigger] entries[k].kind == E820_USABLE && frame_of(entries[k].base) <= i
            < frame_of((entries[k].base + entries[k].length) as u64)
}

/// `x` rounded up to a multiple of the frame size.
pub open spec fn round_frame(x: int) -> int {
    ((x + 4095) / 4096) * 4096
}

/// Frames reserved at the bottom: all of low memory and the bitmap placed at
/// `bitmap_addr`, capped at the frame count.
pub open spec fn reserved_frames(entries: Seq<E820Entry>, bitmap_addr: usize) -> int {
    let total = init_total(entries);
    let end = round_frame(bitmap_addr + bitmap_len(total));
    let top = if end > LOW_MEMORY_TOP { end } else { LOW_MEMORY_TOP as int };
    if top / 4096 < total { top / 4096 } else { total }
}

/// Used flags right after setup: reserved frames and frames outside every
/// usable region are used.
pub open spec fn init_view(entries: Seq<E820Entry>, bitmap_addr: usize) -> Seq<bool> {
    Seq::new(
        init_total(entries) as nat,
        |i: int| i < reserved_frames(entries, bitmap_addr) || !in_usable(entries, entries.len() as int, i),
    )
}

/// Law: right after setup, a free frame lies above low memory and above the
/// bitmap, and overlaps a usable region of the map that it ends inside;
/// conversely a frame above low memory and the bitmap that lies wholly
/// inside a usable region is free.
pub proof fn lemma_init_free_frames(es: Seq<E820Entry>, bitmap_addr: usize, i: int)
    requires
        forall|k: int| 0 <= k < es.len() ==> #[trigger] es[k].base + es[k].length <= u64::MAX,
        0 <= i < init_total(es),
    ensures
        !init_view(es, bitmap_addr)[i] ==> {
            &&& i * 4096 >= 0x100000
            &&& i * 4096 >= bitmap_addr + bitmap_len(init_total(es))
            &&& exists|k: int| 0 <= k < es.len() && #[trigger] es[k].kind == E820_USABLE
                && es[k].base < (i + 1) * 4096 && (i + 1) * 4096 <= es[k].base + es[k].length
        },
        (i * 4096 >= 0x100000 && i * 4096 >= bitmap_addr + bitmap_len(init_total(es))
            && exists|k: int| 0 <= k < es.len() && #[trigger] es[k].kind == E820_USABLE
                && es[k].base <= i * 4096 && (i + 1) * 4096 <= es[k].base + es[k].length)
            ==> !init_view(es, bitmap_addr)[i],
{
    let total = init_total(es);
    let x = bitmap_addr + bitmap_len(total);
    let end = round_frame(x);
    assert(end >= x && end % 4096 == 0 && end < x + 4096) by (nonlinear_arith)
        requires
            end == ((x + 4095) / 4096) * 4096,
            x >= 0,
    ;
    let top = if end > LOW_MEMORY_TOP { end } else { LOW_MEMORY_TOP as int };
    assert(i < top / 4096 <==> i * 4096 < top) by (nonlinear_arith)
        requires
            top % 4096 == 0,
            top >= 0,
            i >= 0,
    ;
    if !init_view(es, bitmap_addr)[i] {
        assert(in_usable(es, es.len() as int, i));
        assert(i >= reserved_frames(es, bitmap_addr));
        let k = choose|k: int|
            0 <= k < es.len() && #[trigger] es[k].kind == E820_USABLE && frame_of(es[k].base) <= i
                < frame_of((es[k].base + es[k].length) as u64);
        let b = es[k].base as int;
        let e = es[k].base + es[k].length;
        assert(((es[k].base + es[k].length) as u64) as int == e);
        assert(b < (i + 1) * 4096 && (i + 1) * 4096 <= e) by (nonlinear_arith)
            requires
                b / 4096 <= i,
                i < e / 4096,
                b >= 0,
                e >= 0,
        ;
    }
    if i * 4096 >= 0x100000 && i * 4096 >= x
        && exists|k: int| 0 <= k < es.len() && #[trigger] es[k].kind == E820_USABLE
            && es[k].base <= i * 4096 && (i + 1) * 4096 <= es[k].base + es[k].length {
        let k = choose|k: int| 0 <= k < es.len() && #[trigger] es[k].kind == E820_USABLE
            && es[k].base <= i * 4096 && (i + 1) * 4096 <= es[k].base + es[k].length;
        let b = es[k].base as int;
        let e = es[k].base + es[k].length;
        assert(((es[k].base + es[k].length) as u64) as int == e);
        assert(b / 4096 <= i && i < e / 4096) by (nonlinear_arith)
            requires
                b <= i * 4096,
                (i + 1) * 4096 <= e,
                b >= 0,
        ;
        assert(in_usable(es, es.len() as int, i));
    }
}

/// `n` frames from `i` on are all free.
pub open spec fn run_free(v: Seq<bool>, i: int, n: int) -> bool {
    0 <= i && i + n <= v.len() && forall|j: int| i <= j < i + n ==> !v[j]
}

/// Lowest start of `n` free frames in a row, if any.
pub open spec fn first_run(v: Seq<bool>, n: int) -> Option<int> {
    if exists|i: int| run_free(v, i, n) {
        Some(choose|i: int| run_free(v, i, n) && forall|j: int| 0 <= j < i ==> !run_free(v, j, n))
    } else {
        None
    }
}

/// Frames after `alloc_contiguous(n)`, and its result.
pub open spec fn alloc_run_spec(v: Seq<bool>, n: int) -> (Seq<bool>, Option<u64>) {
    match first_run(v, n) {
        None => (v, None),
        Some(i) => (
            Seq::new(v.len(), |j: int| if i <= j < i + n { true } else { v[j] }),
            Some(frame_addr(i) as u64),
        ),
    }
}

/// What `first_run` picks: a free run, lower than every other free run.
pub proof fn lemma_first_run(v: Seq<bool>, n: int)
    ensures
        first_run(v, n) matches Some(i) ==> run_free(v, i, n) && forall|j: int| 0 <= j < i ==> !run_free(v, j, n),
        first_run(v, n) is None ==> forall|j: int| !run_free(v, j, n),
{
    if exists|i: int| run_free(v, i, n) {
        let k = choose|i: int| run_free(v, i, n);
        lemma_min_run(v, n, k);
    }
}

proof fn lemma_min_run(v: Seq<bool>, n: int, k: int)
    requires
        run_free(v, k, n),
    ensures
        exists|i: int| run_free(v, i, n) && forall|j: int| 0 <= j < i ==> !run_free(v, j, n),
    decreases k,
{
    if forall|j: int| 0 <= j < k ==> !run_free(v, j, n) {
    } else {
        let j = choose|j: int| 0 <= j < k && run_free(v, j, n);
        lemma_min_run(v, n, j);
    }
}

proof fn lemma_count_prefix(v: Seq<bool>, i: int)
    requires
        0 <= i < v.len(),
    ensures
        count_free(v.subrange(0, i + 1)) == count_free(v.subrange(0, i)) + if v[i] { 0nat } else { 1nat },
{
    assert(v.subrange(0, i + 1).drop_last() =~= v.subrange(0, i));
}

proof fn lemma_top_bound(entries: Seq<E820Entry>, n: int, k: int)
    requires
        0 <= k < n <= entries.len(),
        entries[k].kind == E820_USABLE,
    ensures
        entries[k].base + entries[k].length <= top_of(entries, n),
    decreases n,
{
    if k < n - 1 {
        lemma_top_bound(entries, n - 1, k);
    }
}

proof fn lemma_top_max(entries: Seq<E820Entry>, n: int)
    requires
        0 <= n <= entries.len(),
        forall|k: int| 0 <= k < entries.len() ==> #[trigger] entries[k].base + entries[k].length <= u64::MAX,
    ensures
        0 <= top_of(entries, n) <= u64::MAX,
    decreases n,
{
    if n > 0 {
        lemma_top_max(entries, n - 1);
    }
}

/// Rounds `x` up to a multiple of the frame size.
fn align_up(x: usize) -> (r: usize)
    requires
        x + 4095 <= usize::MAX,
    ensures
        r == round_frame(x as int),
{
    let y = x + (FRAME_SIZE - 1);
    let m = FRAME_SIZE - 1;
    let r = y & !m;
    assert(r == (y / 4096) * 4096) by (bit_vector)
        requires
            m == 4095,
            r == y & !m;
    r
}

/// Frame index of a physical address.
pub fn frame_index(addr: u64) -> (r: u64)
    ensures
        r == frame_of(addr),
{
    addr / FRAME_SIZE as u64
}


/// Law: freeing the frame that `alloc_frame` just handed out gives back the
/// table from before the allocation.
pub proof fn lemma_alloc_free_frame_roundtrip(v: Seq<bool>)
    requires
        v.len() * FRAME_SIZE <= u64::MAX,
        alloc_frame_spec(v).1 is Some,
    ensures
        free_frame_spec(alloc_frame_spec(v).0, alloc_frame_spec(v).1.unwrap()) == v,
{
    lemma_first_free(v);
    let i = first_free(v).unwrap();
    assert(frame_of(frame_addr(i) as u64) == i);
    assert(v.update(i, true).update(i, false) =~= v);
}

/// Law: a freed frame is handed out again: allocate `a`, allocate `b`, free
/// `a`, and the next allocation returns `a`.
pub proof fn lemma_freed_frame_reused(v: Seq<bool>)
    requires
        v.len() * FRAME_SIZE <= u64::MAX,
        alloc_frame_spec(v).1 is Some,
        alloc_frame_spec(alloc_frame_spec(v).0).1 is Some,
    ensures
        ({
            let (v1, a) = alloc_frame_spec(v);
            let (v2, b) = alloc_frame_spec(v1);
            let v3 = free_frame_spec(v2, a.unwrap());
            alloc_frame_spec(v3).1 == a
        }),
{
    lemma_first_free(v);
    let i = first_free(v).unwrap();
    let v1 = v.update(i, true);
    lemma_first_free(v1);
    let j = first_free(v1).unwrap();
    let v2 = v1.update(j, true);
    assert(i != j);
    assert(frame_of(frame_addr(i) as u64) == i);
    let v3 = v2.update(i, false);
    assert(free_frame_spec(v2, frame_addr(i) as u64) == v3);
    assert(j > i);
    assert(!v3[i]);
    lemma_first_free(v3);
    let c = first_free(v3).unwrap();
    if c < i {
        assert(v3[c] == v[c]);
    } else if c > i {
        assert(!v3[i]);
    }
}

impl FrameAllocator {
    /// Frame `i` is marked used in the bitmap.
    pub open spec fn used(&self, i: int) -> bool {
        bit_set(self.bitmap@[i / 8], i % 8)
    }

    /// Used flags of all tracked frames.
    pub open spec fn view(&self) -> Seq<bool> {
        Seq::new(self.total as nat, |i: int| self.used(i))
    }

    /// The bitmap covers the frames, the free counter matches it, and every
    /// frame address fits in 64 bits.
    pub open spec fn wf(&self) -> bool {
        &&& self.bitmap@.len() == bitmap_len(self.total as int)
        &&& self.free == count_free(self.view())
        &&& self.total * FRAME_SIZE <= u64::MAX
    }

    fn mark_used(&mut self, i: usize)
        requires
            i < old(self).total,
            old(self).bitmap@.len() == bitmap_len(old(self).total as int),
        ensures
            final(self).total == old(self).total,
            final(self).free == old(self).free,
            final(self).bitmap@.len() == old(self).bitmap@.len(),
            final(self).view() == old(self).view().update(i as int, true),
    {
        let k = (i % 8) as u8;
        let byte = self.bitmap[i / 8];
        self.bitmap[i / 8] = byte | (1u8 << k);
        proof {
            assert forall|t: int| 0 <= t < self.total implies #[trigger] self.view()[t] == old(self).view().update(i as int, true)[t] by {
                if t / 8 == i / 8 {
                    lemma_bit_or(byte, k, (t % 8) as u8);
                } else {
                    assert(self.bitmap@[t / 8] == old(self).bitmap@[t / 8]);
                }
            }
            assert(self.view() =~= old(self).view().update(i as int, true));
        }
    }

    fn mark_free(&mut self, i: usize)
        requires
            i < old(self).total,
            old(self).bitmap@.len() == bitmap_len(old(self).total as int),
        ensures
            final(self).total == old(self).total,
            final(self).free == old(self).free,
            final(self).bitmap@.len() == old(self).bitmap@.len(),
            final(self).view() == old(self).view().update(i as int, false),
    {
        let k = (i % 8) as u8;
        let byte = self.bitmap[i / 8];
        self.bitmap[i / 8] = byte & !(1u8 << k);
        proof {
            assert forall|t: int| 0 <= t < self.total implies #[trigger] self.view()[t] == old(self).view().update(i as int, false)[t] by {
                if t / 8 == i / 8 {
                    lemma_bit_clear(byte, k, (t % 8) as u8);
                } else {
                    assert(self.bitmap@[t / 8] == old(self).bitmap@[t / 8]);
                }
            }
            assert(self.view() =~= old(self).view().update(i as int, false));
        }
    }

    fn is_used(&self, i: usize) -> (r: bool)
        requires
            i < self.total,
            self.bitmap@.len() == bitmap_len(self.total as int),
        ensures
            r == self.view()[i as int],
    {
        let k = (i % 8) as u8;
        let byte = self.bitmap[i / 8];
        proof {
            lemma_bit_test(byte, k);
        }
        byte & (1u8 << k) != 0
    }

    /// Builds the frame table from the memory map; the bitmap itself sits at
    /// `bitmap_addr` (just after the kernel image).
    pub fn init(entries: &[E820Entry], bitmap_addr: usize) -> (r: FrameAllocator)
        requires
            forall|k: int| 0 <= k < entries@.len() ==> #[trigger] entries@[k].base + entries@[k].length <= u64::MAX,
            init_total(entries@) <= usize::MAX,
            bitmap_addr + bitmap_len(init_total(entries@)) + 4095 <= usize::MAX,
        ensures
            r.wf(),
            r.total == init_total(entries@),
            r.view() == init_view(entries@, bitmap_addr),
            forall|i: int| 0 <= i < r.total && i < LOW_MEMORY_TOP / FRAME_SIZE ==> r.view()[i],
    {
        let ghost es = entries@;
        let mut top: u64 = 0;
        let mut k: usize = 0;
        while k < entries.len()
            invariant
                es == entries@,
                k <= es.len(),
                top == top_of(es, k as int),
                forall|j: int| 0 <= j < es.len() ==> #[trigger] es[j].base + es[j].length <= u64::MAX,
            decreases es.len() - k,
        {
            let e = entries[k];
            if e.kind == E820_USABLE {
                let end = e.base + e.length;
                if end > top {
                    top = end;
                }
            }
            k += 1;
        }
        proof {
            lemma_top_max(es, es.len() as int);
        }
        let total = frame_index(top) as usize;
        assert(total * FRAME_SIZE <= u64::MAX);
        let blen = total / 8 + if total % 8 != 0 { 1 } else { 0 };
        assert(blen == bitmap_len(total as int));
        let mut bitmap: Vec<u8> = Vec::new();
        let mut b: usize = 0;
        while b < blen
            invariant
                b <= blen,
                bitmap@.len() == b,
                forall|j: int| 0 <= j < b ==> bitmap@[j] == 0xFFu8,
            decreases blen - b,
        {
            bitmap.push(0xFF);
            b += 1;
        }
        let mut fa = FrameAllocator { bitmap, total, free: 0 };
        proof {
            assert forall|t: int| 0 <= t < total implies #[trigger] fa.view()[t] by {
                lemma_bits_all((t % 8) as u8);
            }
        }
        // Free the frames inside the usable regions.
        let mut k: usize = 0;
        while k < entries.len()
            invariant
                es == entries@,
                k <= es.len(),
                fa.total == total,
                total == init_total(es),
                total * FRAME_SIZE <= u64::MAX,
                fa.bitmap@.len() == bitmap_len(total as int),
                top == top_of(es, es.len() as int),
                forall|j: int| 0 <= j < es.len() ==> #[trigger] es[j].base + es[j].length <= u64::MAX,
                forall|t: int| 0 <= t < total ==> #[trigger] fa.view()[t] == !in_usable(es, k as int, t),
            decreases es.len() - k,
        {
            let e = entries[k];
            if e.kind == E820_USABLE {
                proof {
                    lemma_top_bound(es, es.len() as int, k as int);
                }
                let start = frame_index(e.base) as usize;
                let end = frame_index(e.base + e.length) as usize;
                let mut i = start;
                while i < end && i < total
                    invariant
                        fa.total == total,
                        fa.bitmap@.len() == bitmap_len(total as int),
                        start <= i,
                        i == start || i <= end,
                        start == frame_of(e.base),
                        end == frame_of((e.base + e.length) as u64),
                        e == es[k as int],
                        k < es.len(),
                        e.kind == E820_USABLE,
                        forall|t: int| 0 <= t < total ==> #[trigger] fa.view()[t] == !(in_usable(es, k as int, t) || (start <= t < i)),
                    decreases end - i,
                {
                    fa.mark_free(i);
                    i += 1;
                }
                proof {
                    assert forall|t: int| 0 <= t < total implies #[trigger] fa.view()[t] == !in_usable(es, k + 1, t) by {
                        if in_usable(es, k + 1, t) && !in_usable(es, k as int, t) {
                            let w = choose|w: int|
                                0 <= w < k + 1 && #[trigger] es[w].kind == E820_USABLE && frame_of(es[w].base) <= t
                                    < frame_of((es[w].base + es[w].length) as u64);
                            assert(w == k);
                        }
                        if in_usable(es, k as int, t) {
                            let w = choose|w: int|
                                0 <= w < k && #[trigger] es[w].kind == E820_USABLE && frame_of(es[w].base) <= t
                                    < frame_of((es[w].base + es[w].length) as u64);
                            assert(es[w].kind == E820_USABLE);
                        }
                        if start <= t < end {
                            assert(es[k as int].kind == E820_USABLE);
                        }
                    }
                }
            } else {
                proof {
                    assert forall|t: int| 0 <= t < total implies #[trigger] fa.view()[t] == !in_usable(es, k + 1, t) by {
                        if in_usable(es, k + 1, t) {
                            let w = choose|w: int|
                                0 <= w < k + 1 && #[trigger] es[w].kind == E820_USABLE && frame_of(es[w].base) <= t
                                    < frame_of((es[w].base + es[w].length) as u64);
                            assert(es[w].kind == E820_USABLE);
                        }
                        if in_usable(es, k as int, t) {
                            let w = choose|w: int|
                                0 <= w < k && #[trigger] es[w].kind == E820_USABLE && frame_of(es[w].base) <= t
                                    < frame_of((es[w].base + es[w].length) as u64);
                            assert(es[w].kind == E820_USABLE);
                        }
                    }
                }
            }
            k += 1;
        }
        // Reserve low memory, the kernel and the bitmap.
        let bitmap_end = bitmap_addr + blen;
        let aligned = align_up(bitmap_end);
        let reserve_top = if aligned > LOW_MEMORY_TOP { aligned } else { LOW_MEMORY_TOP };
        let reserved = if reserve_top / FRAME_SIZE < total { reserve_top / FRAME_SIZE } else { total };
        assert(reserved == reserved_frames(es, bitmap_addr));
        let mut i: usize = 0;
        while i < reserved
            invariant
                fa.total == total,
                total == init_total(es),
                total * FRAME_SIZE <= u64::MAX,
                fa.bitmap@.len() == bitmap_len(total as int),
                reserved <= total,
                i <= reserved,
                forall|t: int| 0 <= t < total ==> #[trigger] fa.view()[t] == (t < i || !in_usable(es, es.len() as int, t)),
            decreases reserved - i,
        {
            fa.mark_used(i);
            i += 1;
        }
        // Count what is left free.
        let mut free: usize = 0;
        let mut i: usize = 0;
        while i < total
            invariant
                fa.total == total,
                total == init_total(es),
                total * FRAME_SIZE <= u64::MAX,
                reserved == reserved_frames(es, bitmap_addr),
                forall|t: int| 0 <= t < total ==> #[trigger] fa.view()[t] == (t < reserved || !in_usable(es, es.len() as int, t)),
                fa.bitmap@.len() == bitmap_len(total as int),
                i <= total,
                free == count_free(fa.view().subrange(0, i as int)),
            decreases total - i,
        {
            proof {
                lemma_count_prefix(fa.view(), i as int);
                lemma_count_le(fa.view().subrange(0, i as int));
            }
            if !fa.is_used(i) {
                free += 1;
            }
            i += 1;
        }
        let ghost v = fa.view();
        proof {
            assert(v.subrange(0, total as int) =~= v);
            assert forall|t: int| 0 <= t < total implies #[trigger] v[t] == init_view(es, bitmap_addr)[t] by {}
            assert(v =~= init_view(es, bitmap_addr));
        }
        fa.free = free;
        proof {
            assert(fa.view() =~= v);
        }
        fa
    }

    /// Allocates the lowest free frame; returns its physical base address.
    pub fn alloc_frame(&mut self) -> (r: Option<u64>)
        requires
            old(self).wf(),
        ensures
            final(self).wf(),
            final(self).total == old(self).total,
            (final(self).view(), r) == alloc_frame_spec(old(self).view()),
            r is Some ==> final(self).free == old(self).free - 1,
            r is None ==> final(self).free == old(self).free,
    {
        let mut i: usize = 0;
        while i < self.total
            invariant
                self.wf(),
                self.total == old(self).total,
                self.view() == old(self).view(),
                self.free == old(self).free,
                i <= self.total,
                forall|j: int| 0 <= j < i ==> self.view()[j],
            decreases self.total - i,
        {
            if !self.is_used(i) {
                let ghost v = self.view();
                proof {
                    lemma_first_free(v);
                    let c = first_free(v).unwrap();
                    if c < i {
                    } else if c > i {
                    }
                    lemma_count_update(v, i as int, true);
                }
                self.mark_used(i);
                self.free = self.free - 1;
                assert(self.view() == v.update(i as int, true));
                assert(self.free == count_free(self.view()));
                let a = (i as u64) * 4096;
                return Some(a);
            }
            i += 1;
        }
        proof {
            lemma_first_free(self.view());
        }
        None
    }

    /// Allocates `n` adjacent free frames (the lowest such run); returns the
    /// physical base address of the first.
    pub fn alloc_contiguous(&mut self, n: usize) -> (r: Option<u64>)
        requires
            old(self).wf(),
            n > 0,
        ensures
            final(self).wf(),
            final(self).total == old(self).total,
            (final(self).view(), r) == alloc_run_spec(old(self).view(), n as int),
            r is Some ==> final(self).free == old(self).free - n,
            r is None ==> final(self).free == old(self).free,
    {
        let total = self.total;
        let mut i: usize = 0;
        while i <= total && n <= total - i
            invariant
                self.wf(),
                self.total == total,
                self.view() == old(self).view(),
                self.free == old(self).free,
                forall|j: int| 0 <= j < i ==> !run_free(self.view(), j, n as int),
            decreases total + 1 - i,
        {
            let mut k: usize = i;
            while k < i + n && !self.is_used(k)
                invariant
                    self.wf(),
                    self.total == total,
                    i + n <= total,
                    i <= k <= i + n,
                    forall|m: int| i <= m < k ==> !self.view()[m],
                decreases i + n - k,
            {
                k += 1;
            }
            if k == i + n {
                let ghost v = self.view();
                proof {
                    assert(run_free(v, i as int, n as int));
                    lemma_first_run(v, n as int);
                    let c = first_run(v, n as int).unwrap();
                    if c < i {
                    } else if c > i {
                    }
                }
                let mut j: usize = i;
                while j < i + n
                    invariant
                        self.bitmap@.len() == bitmap_len(total as int),
                        self.total == total,
                        total * FRAME_SIZE <= u64::MAX,
                        i + n <= total,
                        i <= j <= i + n,
                        run_free(v, i as int, n as int),
                        v.len() == total,
                        self.free + (j - i) == old(self).free,
                        old(self).free == count_free(v),
                        self.free == count_free(self.view()),
                        self.view() == Seq::new(v.len(), |t: int| if i <= t < j { true } else { v[t] }),
                    decreases i + n - j,
                {
                    let ghost w = self.view();
                    proof {
                        assert(!w[j as int]);
                        lemma_count_update(w, j as int, true);
                    }
                    self.mark_used(j);
                    self.free = self.free - 1;
                    proof {
                        let goal = Seq::new(v.len(), |t: int| if i <= t < j + 1 { true } else { v[t] });
                        assert forall|t: int| 0 <= t < v.len() implies #[trigger] self.view()[t] == goal[t] by {
                            assert(self.view()[t] == w.update(j as int, true)[t]);
                        }
                        assert(self.view() =~= goal);
                        assert(self.view() == w.update(j as int, true));
                        assert(self.free == count_free(self.view()));
                    }
                    j += 1;
                }
                return Some((i as u64) * 4096);
            }
            proof {
                assert forall|s: int| i <= s <= k implies !run_free(self.view(), s, n as int) by {
                    assert(self.view()[k as int]);
                }
            }
            i = k + 1;
        }
        proof {
            lemma_first_run(self.view(), n as int);
            assert forall|j: int| !run_free(self.view(), j, n as int) by {
                if 0 <= j && j + n <= total {
                    assert(j < i);
                }
            }
        }
        None
    }

    /// There is a run of `n` consecutive free frames.
    pub fn has_run(&self, n: usize) -> (r: bool)
        requires
            self.wf(),
            n > 0,
        ensures
            r == (first_run(self.view(), n as int) is Some),
    {
        let total = self.total;
        let mut i: usize = 0;
        while i <= total && n <= total - i
            invariant
                self.wf(),
                self.total == total,
                forall|j: int| 0 <= j < i ==> !run_free(self.view(), j, n as int),
            decreases total + 1 - i,
        {
            let mut k: usize = i;
            while k < i + n && !self.is_used(k)
                invariant
                    self.wf(),
                    self.total == total,
                    i + n <= total,
                    i <= k <= i + n,
                    forall|m: int| i <= m < k ==> !self.view()[m],
                decreases i + n - k,
            {
                k += 1;
            }
            if k == i + n {
                proof {
                    assert(run_free(self.view(), i as int, n as int));
                    lemma_first_run(self.view(), n as int);
                }
                return true;
            }
            proof {
                assert forall|s: int| i <= s <= k implies !run_free(self.view(), s, n as int) by {
                    assert(self.view()[k as int]);
                }
            }
            i = k + 1;
        }
        proof {
            lemma_first_run(self.view(), n as int);
            assert forall|j: int| !run_free(self.view(), j, n as int) by {
                if 0 <= j && j + n <= total {
                    assert(j < i);
                }
            }
        }
        false
    }

    /// Returns the frame holding `addr` to the pool, if it is tracked and used.
    pub fn free_frame(&mut self, addr: u64)
        requires
            old(self).wf(),
        ensures
            final(self).wf(),
            final(self).total == old(self).total,
            final(self).view() == free_frame_spec(old(self).view(), addr),
    {
        let q = addr / 4096;
        if q >= self.total as u64 {
            return;
        }
        let i = q as usize;
        if self.is_used(i) {
            proof {
                lemma_count_update(self.view(), i as int, false);
                lemma_count_le(self.view().update(i as int, false));
            }
            let ghost v = self.view();
            self.mark_free(i);
            self.free = self.free + 1;
            assert(self.view() == v.update(i as int, false));
            assert(self.free == count_free(self.view()));
        }
    }

    /// Number of frames the bitmap tracks.
    pub fn total_frames(&self) -> (r: usize)
        ensures
            r == self.total,
    {
        self.total
    }

    /// Number of free frames.
    pub fn free_frames(&self) -> (r: usize)
        requires
            self.wf(),
        ensures
            r == count_free(self.view()),
    {
        self.free
    }
}

/// Law: the self-test leaves the frame table as it found it: allocate `a`
/// and `b`, free `a`, allocate again (which gives `a` back), free `b` and
/// the reallocated frame.
pub proof fn lemma_selftest_restores(v: Seq<bool>)
    requires
        v.len() * FRAME_SIZE <= u64::MAX,
        alloc_frame_spec(v).1 is Some,
        alloc_frame_spec(alloc_frame_spec(v).0).1 is Some,
    ensures
        ({
            let (v1, a) = alloc_frame_spec(v);
            let (v2, b) = alloc_frame_spec(v1);
            let v3 = free_frame_spec(v2, a.unwrap());
            let (v4, c) = alloc_frame_spec(v3);
            let v5 = free_frame_spec(v4, b.unwrap());
            &&& c == a
            &&& free_frame_spec(v5, c.unwrap()) == v
        }),
{
    lemma_freed_frame_reused(v);
    lemma_first_free(v);
    let i = first_free(v).unwrap();
    let v1 = v.update(i, true);
    lemma_first_free(v1);
    let j = first_free(v1).unwrap();
    assert(j != i);
    assert(frame_of(frame_addr(i) as u64) == i);
    assert(frame_of(frame_addr(j) as u64) == j);
    let v2 = v1.update(j, true);
    let v3 = v2.update(i, false);
    assert(v3 =~= v.update(j, true));
    lemma_first_free(v3);
    let v4 = v3.update(i, true);
    assert(v4 =~= v2);
    let v5 = v4.update(j, false);
    assert(v5 =~= v1);
    assert(v5.update(i, false) =~= v);
}

/// What the self-test found: the two frames, the frame handed out after
/// `a` was freed, whether that was `a`, and the report line.
pub struct SelftestReport {
    pub a: u64,
    pub b: u64,
    pub reused: Option<u64>,
    pub ok: bool,
    pub text: Vec<u8>,
}

/// The self-test report line (addresses shown by their low 32 bits).
pub open spec fn selftest_text(a: u64, b: u64, c: u64, ok: bool) -> Seq<u8> {
    ascii("PMM selftest: a="@) + seq![48u8, 120u8] + hex_str(a as u32) + ascii(" b="@) + seq![48u8, 120u8] + hex_str(b as u32)
        + ascii(" reused="@) + seq![48u8, 120u8] + hex_str(c as u32) + (if ok { ascii(" OK\n"@) } else { ascii(" FAIL\n"@) })
}

/// The statistics line.
pub open spec fn stats_text_spec(free: usize, total: usize) -> Seq<u8> {
    ascii("PMM: "@) + dec_str((free as i32) as int) + ascii(" free / "@) + dec_str((total as i32) as int) + ascii(" frames (4KB each)\n"@)
}

/// The self-test report line.
fn selftest_line(a: u64, b: u64, c: u64, ok: bool) -> (text: Vec<u8>)
    ensures
        text@ == selftest_text(a, b, c, ok),
{
    let mut text: Vec<u8> = Vec::new();
    proof {
        reveal_strlit("PMM selftest: a=");
        reveal_strlit(" b=");
        reveal_strlit(" reused=");
        reveal_strlit(" OK\n");
        reveal_strlit(" FAIL\n");
    }
    push_str(&mut text, "PMM selftest: a=");
    push_hex(&mut text, a as u32);
    push_str(&mut text, " b=");
    push_hex(&mut text, b as u32);
    push_str(&mut text, " reused=");
    push_hex(&mut text, c as u32);
    if ok {
        push_str(&mut text, " OK\n");
    } else {
        push_str(&mut text, " FAIL\n");
    }
    proof {
        assert(text@ =~= selftest_text(a, b, c, ok));
    }
    text
}

impl FrameAllocator {
    /// The statistics line: free and total frames.
    pub fn stats_text(&self) -> (r: Vec<u8>)
        requires
            self.wf(),
            (count_free(self.view()) as usize as i32) != i32::MIN,
            (self.total as i32) != i32::MIN,
        ensures
            r@ == stats_text_spec(count_free(self.view()) as usize, self.total),
    {
        let mut out: Vec<u8> = Vec::new();
        proof {
            reveal_strlit("PMM: ");
            reveal_strlit(" free / ");
            reveal_strlit(" frames (4KB each)\n");
        }
        push_str(&mut out, "PMM: ");
        push_dec(&mut out, self.free_frames() as i32);
        push_str(&mut out, " free / ");
        push_dec(&mut out, self.total_frames() as i32);
        push_str(&mut out, " frames (4KB each)\n");
        proof {
            assert(out@ =~= stats_text_spec(count_free(self.view()) as usize, self.total));
        }
        out
    }

    /// Allocates two frames, frees the first and allocates again, checking
    /// that the freed frame is handed out again; then frees what it took.
    /// `None` when two frames could not be had (a first frame taken stays
    /// taken then).
    pub fn selftest(&mut self) -> (r: Option<SelftestReport>)
        requires
            old(self).wf(),
        ensures
            final(self).wf(),
            final(self).total == old(self).total,
            ({
                let (v1, a) = alloc_frame_spec(old(self).view());
                let (v2, b) = alloc_frame_spec(v1);
                &&& (a is Some && b is Some) <==> r is Some
                &&& r is None ==> final(self).view() == v2
                &&& r matches Some(rep) ==> rep.a == a.unwrap() && rep.b == b.unwrap() && rep.reused == a && rep.ok
                    && rep.text@ == selftest_text(rep.a, rep.b, rep.a, true)
                    && final(self).view() == old(self).view()
            }),
    {
        let ghost v = self.view();
        let a = self.alloc_frame();
        let b = self.alloc_frame();
        match (a, b) {
            (Some(a), Some(b)) => {
                proof {
                    lemma_selftest_restores(v);
                }
                self.free_frame(a);
                let c = self.alloc_frame();
                let ok = match c {
                    Some(x) => x == a,
                    None => false,
                };
                let cv = match c {
                    Some(x) => x,
                    None => 0,
                };
                let text = selftest_line(a, b, cv, ok);
                self.free_frame(b);
                self.free_frame(cv);
                Some(SelftestReport { a, b, reused: c, ok, text })
            },
            _ => None,
        }
    }
}

} // verus!
