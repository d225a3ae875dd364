//! Kernel heap: a first-fit free list over one contiguous region.
//!
//! The region is a chain of blocks in address order with no gaps; each block
//! is a 16-byte header followed by its payload, so a block's neighbour always
//! starts right after it. The model keeps the headers as a sequence of
//! `Block`s; the address of block `i` is the region base plus the spans of the
//! blocks before it.
use vstd::prelude::*;
use crate::pmm::{FrameAllocator, alloc_run_spec, first_run, run_free, FRAME_SIZE};
use crate::string::dec_str;
use crate::text::{ascii, push_str, push_dec};

verus! {

/// Bytes of a block header.
pub const HEADER: usize = 16;

/// Frames (4KB each) that make up the heap region.
pub const HEAP_FRAMES: usize = 256;

/// Bytes in the heap region.
pub const HEAP_BYTES: usize = 1048576;

/// One block header: payload bytes (excluding the header) and whether it is free.
#[derive(Clone, Copy, PartialEq, Eq, Structural)]
pub struct Block {
    pub size: usize,
    pub free: bool,
}

/// The kernel heap: the region base and the block headers in address order.
/// An empty block list is a heap that has not been set up yet.
pub struct Heap {
    pub base: u64,
    pub blocks: Vec<Block>,
}

/// Bytes a block occupies: header plus payload.
pub open spec fn span(b: Block) -> nat {
    HEADER as nat + b.size as nat
}

/// Total bytes of a run of blocks.
pub open spec fn sum_spans(s: Seq<Block>) -> nat
    decreases s.len(),
{
    if s.len() == 0 {
        0
    } else {
        sum_spans(s.drop_last()) + span(s.last())
    }
}

/// Offset of block `i` from the region base.
pub open spec fn offset_of(s: Seq<Block>, i: int) -> nat {
    sum_spans(s.subrange(0, i))
}

/// Bytes covered by all blocks.
pub open spec fn footprint(s: Seq<Block>) -> nat {
    sum_spans(s)
}

/// Address of the payload of block `i`.
pub open spec fn payload_addr(base: u64, s: Seq<Block>, i: int) -> int {
    base + offset_of(s, i) + HEADER
}

/// `x` rounded up to a multiple of 16.
pub open spec fn round16(x: int) -> int {
    ((x + 15) / 16) * 16
}

/// Bytes reserved for a request of `size` bytes.
pub open spec fn request_size(size: usize) -> int {
    round16(if size == 0 { 1 } else { size as int })
}

/// Block `b` can serve a request needing `need` bytes.
pub open spec fn fits(b: Block, need: int) -> bool {
    b.free && b.size >= need
}

/// Index of the first block that can serve `need` bytes, if any.
pub open spec fn first_fit(s: Seq<Block>, need: int) -> Option<int> {
    if exists|i: int| 0 <= i < s.len() && fits(s[i], need) {
        Some(choose|i: int| 0 <= i < s.len() && fits(s[i], need) && forall|j: int| 0 <= j < i ==> !fits(s[j], need))
    } else {
        None
    }
}

/// The free block is large enough to split off a header and a little payload.
pub open spec fn splits(b: Block, need: int) -> bool {
    b.size >= need + HEADER + 16
}

/// Blocks after serving `need` bytes from block `i`.
pub open spec fn take_block(s: Seq<Block>, i: int, need: int) -> Seq<Block> {
    if splits(s[i], need) {
        s.update(i, Block { size: need as usize, free: false }).insert(
            i + 1,
            Block { size: (s[i].size - need - HEADER) as usize, free: true },
        )
    } else {
        s.update(i, Block { size: s[i].size, free: false })
    }
}

/// The blocks and the result of `kmalloc(size)`.
pub open spec fn alloc_spec(base: u64, s: Seq<Block>, size: usize) -> (Seq<Block>, Option<u64>) {
    match first_fit(s, request_size(size)) {
        None => (s, None),
        Some(i) => (take_block(s, i, request_size(size)), Some(payload_addr(base, s, i) as u64)),
    }
}

/// Block `c` absorbs block `c + 1`.
pub open spec fn merge_at(s: Seq<Block>, c: int) -> Seq<Block> {
    s.update(c, Block { size: (s[c].size + HEADER + s[c + 1].size) as usize, free: s[c].free }).remove(
        c + 1,
    )
}

/// Merging each free block with its free successors, from block `c` on.
pub open spec fn coalesce_from(s: Seq<Block>, c: int) -> Seq<Block>
    decreases s.len() - c,
{
    if c < 0 || c + 1 >= s.len() {
        s
    } else if s[c].free && s[c + 1].free {
        coalesce_from(merge_at(s, c), c)
    } else {
        coalesce_from(s, c + 1)
    }
}

/// No two neighbouring blocks are both free.
pub open spec fn coalesced(s: Seq<Block>) -> bool {
    forall|i: int| 0 <= i && i + 1 < s.len() ==> !(#[trigger] s[i].free && s[i + 1].free)
}

/// The blocks after `kfree(ptr)`: the block whose payload starts at `ptr`
/// becomes free and free neighbours are merged.
pub open spec fn free_spec(base: u64, s: Seq<Block>, ptr: u64) -> Seq<Block> {
    if ptr == 0 || !(exists|i: int| 0 <= i < s.len() && payload_addr(base, s, i) == ptr) {
        s
    } else {
        let i = choose|i: int| 0 <= i < s.len() && payload_addr(base, s, i) == ptr;
        coalesce_from(s.update(i, Block { size: s[i].size, free: true }), 0)
    }
}

/// Free payload bytes.
pub open spec fn free_bytes(s: Seq<Block>) -> nat
    decreases s.len(),
{
    if s.len() == 0 {
        0
    } else {
        free_bytes(s.drop_last()) + if s.last().free { s.last().size as nat } else { 0 }
    }
}

/// Used payload bytes.
pub open spec fn used_bytes(s: Seq<Block>) -> nat
    decreases s.len(),
{
    if s.len() == 0 {
        0
    } else {
        used_bytes(s.drop_last()) + if s.last().free { 0 } else { s.last().size as nat }
    }
}

/// Block sizes are multiples of 16 and the blocks cover exactly the region.
pub open spec fn blocks_wf(base: u64, s: Seq<Block>) -> bool {
    s.len() > 0 ==> {
        &&& base % 16 == 0
        &&& base + HEAP_BYTES <= u64::MAX
        &&& footprint(s) == HEAP_BYTES
        &&& forall|i: int| 0 <= i < s.len() ==> #[trigger] s[i].size % 16 == 0
    }
}

// ---------------------------------------------------------------------------
// Lemmas about spans and offsets.

pub proof fn lemma_sum_concat(a: Seq<Block>, b: Seq<Block>)
    ensures
        sum_spans(a + b) == sum_spans(a) + sum_spans(b),
    decreases b.len(),
{
    if b.len() == 0 {
        assert(a + b =~= a);
    } else {
        lemma_sum_concat(a, b.drop_last());
        assert((a + b).drop_last() =~= a + b.drop_last());
    }
}

pub proof fn lemma_sum_single(b: Block)
    ensures
        sum_spans(seq![b]) == span(b),
{
    assert(seq![b].drop_last() =~= Seq::<Block>::empty());
    assert(sum_spans(Seq::<Block>::empty()) == 0);
}

proof fn lemma_offset_step(s: Seq<Block>, i: int)
    requires
        0 <= i < s.len(),
    ensures
        offset_of(s, i + 1) == offset_of(s, i) + span(s[i]),
{
    assert(s.subrange(0, i + 1).drop_last() =~= s.subrange(0, i));
}

proof fn lemma_offset_mono(s: Seq<Block>, i: int, j: int)
    requires
        0 <= i <= j <= s.len(),
    ensures
        offset_of(s, i) + (j - i) * HEADER <= offset_of(s, j),
    decreases j - i,
{
    if i < j {
        lemma_offset_mono(s, i, j - 1);
        lemma_offset_step(s, j - 1);
    }
}

proof fn lemma_offset_le_footprint(s: Seq<Block>, i: int)
    requires
        0 <= i < s.len(),
    ensures
        offset_of(s, i) + span(s[i]) <= footprint(s),
{
    lemma_offset_step(s, i);
    lemma_offset_mono(s, i + 1, s.len() as int);
    assert(s.subrange(0, s.len() as int) =~= s);
}

/// Only the block sizes matter for the span total.
proof fn lemma_same_sizes(s: Seq<Block>, t: Seq<Block>)
    requires
        s.len() == t.len(),
        forall|k: int| 0 <= k < s.len() ==> #[trigger] s[k].size == t[k].size,
    ensures
        sum_spans(s) == sum_spans(t),
    decreases s.len(),
{
    if s.len() > 0 {
        lemma_same_sizes(s.drop_last(), t.drop_last());
    }
}

/// Blocks with sizes that are multiples of 16 start at multiples of 16.
proof fn lemma_offset_aligned(s: Seq<Block>, i: int)
    requires
        0 <= i <= s.len(),
        forall|k: int| 0 <= k < s.len() ==> #[trigger] s[k].size % 16 == 0,
    ensures
        offset_of(s, i) % 16 == 0,
    decreases i,
{
    if i > 0 {
        lemma_offset_aligned(s, i - 1);
        lemma_offset_step(s, i - 1);
        assert(s[i - 1].size % 16 == 0);
    } else {
        assert(s.subrange(0, 0) =~= Seq::<Block>::empty());
    }
}

/// Payload addresses of distinct blocks differ.
proof fn lemma_payload_unique(base: u64, s: Seq<Block>, i: int, j: int)
    requires
        0 <= i < s.len(),
        0 <= j < s.len(),
        payload_addr(base, s, i) == payload_addr(base, s, j),
    ensures
        i == j,
{
    if i < j {
        lemma_offset_mono(s, i, j);
    } else if j < i {
        lemma_offset_mono(s, j, i);
    }
}

/// Replacing block `i` by blocks of the same total span keeps the footprint.
proof fn lemma_replace_footprint(s: Seq<Block>, i: int, mid: Seq<Block>)
    requires
        0 <= i < s.len(),
        sum_spans(mid) == span(s[i]),
    ensures
        footprint(s.subrange(0, i) + mid + s.subrange(i + 1, s.len() as int)) == footprint(s),
{
    let pre = s.subrange(0, i);
    let post = s.subrange(i + 1, s.len() as int);
    lemma_sum_concat(pre + mid, post);
    lemma_sum_concat(pre, mid);
    lemma_sum_concat(pre + seq![s[i]], post);
    lemma_sum_concat(pre, seq![s[i]]);
    lemma_sum_single(s[i]);
    assert(pre + seq![s[i]] + post =~= s);
}


proof fn lemma_merge_footprint(s: Seq<Block>, c: int)
    requires
        0 <= c,
        c + 1 < s.len(),
        s[c].size + HEADER + s[c + 1].size <= usize::MAX,
    ensures
        merge_at(s, c) == s.subrange(0, c) + seq![
            Block { size: (s[c].size + HEADER + s[c + 1].size) as usize, free: s[c].free },
        ] + s.subrange(c + 2, s.len() as int),
        footprint(merge_at(s, c)) == footprint(s),
        merge_at(s, c).len() == s.len() - 1,
{
    let m = Block { size: (s[c].size + HEADER + s[c + 1].size) as usize, free: s[c].free };
    let pre = s.subrange(0, c);
    let post = s.subrange(c + 2, s.len() as int);
    assert(merge_at(s, c) =~= pre + seq![m] + post);
    lemma_sum_concat(pre + seq![m], post);
    lemma_sum_concat(pre, seq![m]);
    lemma_sum_single(m);
    let two = seq![s[c], s[c + 1]];
    lemma_sum_concat(pre + two, post);
    lemma_sum_concat(pre, two);
    assert(two.drop_last() =~= seq![s[c]]);
    lemma_sum_single(s[c]);
    assert(pre + two + post =~= s);
}

/// Two neighbouring blocks fit in the region.
proof fn lemma_pair_bound(s: Seq<Block>, c: int)
    requires
        0 <= c,
        c + 1 < s.len(),
    ensures
        span(s[c]) + span(s[c + 1]) <= footprint(s),
{
    lemma_offset_step(s, c);
    lemma_offset_le_footprint(s, c + 1);
}

proof fn lemma_merge_wf(base: u64, s: Seq<Block>, c: int)
    requires
        blocks_wf(base, s),
        0 <= c,
        c + 1 < s.len(),
    ensures
        blocks_wf(base, merge_at(s, c)),
        merge_at(s, c).len() == s.len() - 1,
{
    lemma_pair_bound(s, c);
    lemma_merge_footprint(s, c);
    let t = merge_at(s, c);
    assert forall|i: int| 0 <= i < t.len() implies #[trigger] t[i].size % 16 == 0 by {
        if i < c {
            assert(t[i] == s[i]);
        } else if i > c {
            assert(t[i] == s[i + 1]);
        } else {
            assert(s[c].size % 16 == 0 && s[c + 1].size % 16 == 0);
        }
    }
}

/// The merge pass keeps the heap well formed.
pub proof fn lemma_coalesce_wf(base: u64, s: Seq<Block>, c: int)
    requires
        blocks_wf(base, s),
    ensures
        blocks_wf(base, coalesce_from(s, c)),
        coalesce_from(s, c).len() <= s.len(),
        s.len() > 0 ==> coalesce_from(s, c).len() > 0,
    decreases s.len() - c,
{
    if c < 0 || c + 1 >= s.len() {
    } else if s[c].free && s[c + 1].free {
        lemma_merge_wf(base, s, c);
        lemma_coalesce_wf(base, merge_at(s, c), c);
    } else {
        lemma_coalesce_wf(base, s, c + 1);
    }
}

/// After the merge pass from `c`, given no free pair before `c`, no two
/// neighbouring blocks are free.
pub proof fn lemma_coalesce_coalesced(s: Seq<Block>, c: int)
    requires
        0 <= c,
        forall|i: int| 0 <= i < c && i + 1 < s.len() ==> !(#[trigger] s[i].free && s[i + 1].free),
    ensures
        coalesced(coalesce_from(s, c)),
    decreases s.len() - c,
{
    if c + 1 >= s.len() {
    } else if s[c].free && s[c + 1].free {
        let t = merge_at(s, c);
        assert forall|i: int| 0 <= i < c && i + 1 < t.len() implies !(#[trigger] t[i].free && t[i + 1].free) by {
            assert(t[i] == s[i]);
            if i + 1 < c {
                assert(t[i + 1] == s[i + 1]);
            } else {
                assert(t[i + 1].free == s[c].free);
            }
        }
        lemma_coalesce_coalesced(t, c);
    } else {
        lemma_coalesce_coalesced(s, c + 1);
    }
}


/// Serving a request from block `i` keeps the heap well formed and block `i`
/// where it was.
pub proof fn lemma_take_wf(base: u64, s: Seq<Block>, i: int, need: int)
    requires
        blocks_wf(base, s),
        0 <= i < s.len(),
        fits(s[i], need),
        need % 16 == 0,
        need > 0,
    ensures
        blocks_wf(base, take_block(s, i, need)),
        take_block(s, i, need).len() >= s.len(),
        offset_of(take_block(s, i, need), i) == offset_of(s, i),
        !take_block(s, i, need)[i].free,
        take_block(s, i, need)[i].size >= need,
{
    let t = take_block(s, i, need);
    let pre = s.subrange(0, i);
    let post = s.subrange(i + 1, s.len() as int);
    if splits(s[i], need) {
        let x = Block { size: need as usize, free: false };
        let y = Block { size: (s[i].size - need - HEADER) as usize, free: true };
        let mid = seq![x, y];
        assert(t =~= pre + mid + post);
        assert(mid.drop_last() =~= seq![x]);
        lemma_sum_single(x);
        lemma_replace_footprint(s, i, mid);
        assert(t.subrange(0, i) =~= s.subrange(0, i));
        assert forall|k: int| 0 <= k < t.len() implies #[trigger] t[k].size % 16 == 0 by {
            if k < i {
                assert(t[k] == s[k]);
            } else if k > i + 1 {
                assert(t[k] == s[k - 1]);
            } else if k == i + 1 {
                assert(s[i].size % 16 == 0);
            }
        }
    } else {
        let x = Block { size: s[i].size, free: false };
        let mid = seq![x];
        assert(t =~= pre + mid + post);
        lemma_sum_single(x);
        lemma_replace_footprint(s, i, mid);
        assert(t.subrange(0, i) =~= s.subrange(0, i));
        assert forall|k: int| 0 <= k < t.len() implies #[trigger] t[k].size % 16 == 0 by {
            assert(t[k].size == s[k].size);
        }
    }
}


/// A heap with no free neighbours is left alone by the merge pass.
proof fn lemma_coalesce_noop(s: Seq<Block>, c: int)
    requires
        coalesced(s),
    ensures
        coalesce_from(s, c) == s,
    decreases s.len() - c,
{
    if c < 0 || c + 1 >= s.len() {
    } else {
        assert(!(s[c].free && s[c + 1].free));
        lemma_coalesce_noop(s, c + 1);
    }
}

/// The merge pass walks over blocks that have no free successor to merge.
proof fn lemma_coalesce_skip(s: Seq<Block>, c: int, k: int)
    requires
        0 <= c <= k,
        forall|j: int| c <= j < k && j + 1 < s.len() ==> !(#[trigger] s[j].free && s[j + 1].free),
    ensures
        coalesce_from(s, c) == coalesce_from(s, k),
    decreases k - c,
{
    if c < k {
        if c + 1 >= s.len() {
            if k + 1 >= s.len() {
            } else {
                assert(false);
            }
        } else {
            lemma_coalesce_skip(s, c + 1, k);
        }
    }
}

proof fn lemma_min_fit(s: Seq<Block>, need: int, k: int)
    requires
        0 <= k < s.len(),
        fits(s[k], need),
    ensures
        exists|i: int| 0 <= i < s.len() && fits(s[i], need) && forall|j: int| 0 <= j < i ==> !fits(s[j], need),
    decreases k,
{
    if forall|j: int| 0 <= j < k ==> !fits(s[j], need) {
    } else {
        let j = choose|j: int| 0 <= j < k && fits(s[j], need);
        lemma_min_fit(s, need, j);
    }
}

proof fn lemma_first_fit(s: Seq<Block>, need: int)
    ensures
        first_fit(s, need) matches Some(i) ==> 0 <= i < s.len() && fits(s[i], need)
            && forall|j: int| 0 <= j < i ==> !fits(s[j], need),
        first_fit(s, need) is None ==> forall|j: int| 0 <= j < s.len() ==> !fits(s[j], need),
{
    if exists|i: int| 0 <= i < s.len() && fits(s[i], need) {
        let k = choose|i: int| 0 <= i < s.len() && fits(s[i], need);
        lemma_min_fit(s, need, k);
    }
}

/// Law: on a heap without free neighbours, freeing what `kmalloc` just
/// returned gives back exactly the heap from before the allocation.
pub proof fn lemma_alloc_free_roundtrip(base: u64, s: Seq<Block>, size: usize)
    requires
        blocks_wf(base, s),
        coalesced(s),
        size + 15 <= usize::MAX,
        alloc_spec(base, s, size).1 is Some,
    ensures
        free_spec(base, alloc_spec(base, s, size).0, alloc_spec(base, s, size).1.unwrap()) == s,
{
    let need = request_size(size);
    lemma_first_fit(s, need);
    let i = first_fit(s, need).unwrap();
    assert(need % 16 == 0 && need > 0) by {
        assert(round16(if size == 0 { 1 } else { size as int }) % 16 == 0);
    }
    lemma_take_wf(base, s, i, need);
    let t = take_block(s, i, need);
    lemma_offset_le_footprint(s, i);
    let p = payload_addr(base, s, i) as u64;
    assert(p == payload_addr(base, t, i));
    assert(p != 0);
    assert(exists|k: int| 0 <= k < t.len() && payload_addr(base, t, k) == p);
    let k = choose|k: int| 0 <= k < t.len() && payload_addr(base, t, k) == p;
    lemma_payload_unique(base, t, k, i);
    let u = t.update(i, Block { size: t[i].size, free: true });
    assert(free_spec(base, t, p) == coalesce_from(u, 0));
    if splits(s[i], need) {
        assert forall|j: int| 0 <= j < i && j + 1 < u.len() implies !(#[trigger] u[j].free && u[j + 1].free) by {
            assert(u[j] == s[j]);
            if j + 1 < i {
                assert(u[j + 1] == s[j + 1]);
                assert(!(s[j].free && s[j + 1].free));
            } else {
                assert(!(s[i - 1].free && s[i].free));
            }
        }
        lemma_coalesce_skip(u, 0, i);
        assert(u[i].free && u[i + 1].free);
        assert(merge_at(u, i) =~= s);
        lemma_coalesce_noop(s, i);
    } else {
        assert(u =~= s);
        lemma_coalesce_noop(s, 0);
    }
}

/// Law: `kmalloc` keeps a heap free of free neighbours.
pub proof fn lemma_alloc_keeps_coalesced(base: u64, s: Seq<Block>, size: usize)
    requires
        blocks_wf(base, s),
        coalesced(s),
        size + 15 <= usize::MAX,
    ensures
        coalesced(alloc_spec(base, s, size).0),
{
    let need = request_size(size);
    lemma_first_fit(s, need);
    if let Some(i) = first_fit(s, need) {
        let t = take_block(s, i, need);
        assert forall|j: int| 0 <= j && j + 1 < t.len() implies !(#[trigger] t[j].free && t[j + 1].free) by {
            if splits(s[i], need) {
                if j + 1 < i {
                    assert(t[j] == s[j] && t[j + 1] == s[j + 1]);
                    assert(!(s[j].free && s[j + 1].free));
                } else if j + 1 == i {
                    assert(!t[i].free);
                } else if j == i {
                } else if j == i + 1 {
                    assert(t[j + 1] == s[i + 1]);
                    assert(!(s[i].free && s[i + 1].free));
                } else {
                    assert(t[j] == s[j - 1] && t[j + 1] == s[j]);
                    assert(!(s[j - 1].free && s[j].free));
                }
            } else {
                if j == i || j + 1 == i {
                } else {
                    assert(t[j] == s[j] && t[j + 1] == s[j + 1]);
                    assert(!(s[j].free && s[j + 1].free));
                }
            }
        }
    }
}

/// Law: after `kfree` of a live payload address, no two neighbouring blocks
/// are free; a heap that had none still has none after any `kfree`.
pub proof fn lemma_free_coalesced(base: u64, s: Seq<Block>, ptr: u64)
    requires
        coalesced(s) || (ptr != 0 && exists|i: int| 0 <= i < s.len() && payload_addr(base, s, i) == ptr),
    ensures
        coalesced(free_spec(base, s, ptr)),
{
    if ptr == 0 || !(exists|i: int| 0 <= i < s.len() && payload_addr(base, s, i) == ptr) {
    } else {
        let i = choose|i: int| 0 <= i < s.len() && payload_addr(base, s, i) == ptr;
        lemma_coalesce_coalesced(s.update(i, Block { size: s[i].size, free: true }), 0);
    }
}

/// Free bytes, used bytes and one header per block add up to the span of
/// the blocks.
proof fn lemma_bytes_sum(s: Seq<Block>)
    ensures
        free_bytes(s) + used_bytes(s) + HEADER * s.len() == footprint(s),
    decreases s.len(),
{
    if s.len() > 0 {
        lemma_bytes_sum(s.drop_last());
    }
}

/// Law: on a heap that has been set up (at least one block), `kmalloc` and
/// `kfree` keep at least one block, and free bytes, used bytes and one
/// header per block still add up to the heap size.
pub proof fn lemma_ops_keep_region(base: u64, s: Seq<Block>, size: usize, ptr: u64)
    requires
        blocks_wf(base, s),
        s.len() > 0,
        size + 15 <= usize::MAX,
    ensures
        ({
            let a = alloc_spec(base, s, size).0;
            &&& a.len() > 0
            &&& free_bytes(a) + used_bytes(a) + HEADER * a.len() == HEAP_BYTES
        }),
        ({
            let f = free_spec(base, s, ptr);
            &&& f.len() > 0
            &&& free_bytes(f) + used_bytes(f) + HEADER * f.len() == HEAP_BYTES
        }),
{
    let need = request_size(size);
    lemma_first_fit(s, need);
    match first_fit(s, need) {
        Some(i) => {
            lemma_take_wf(base, s, i, need);
        },
        None => {},
    }
    let a = alloc_spec(base, s, size).0;
    lemma_bytes_sum(a);
    if ptr == 0 || !(exists|i: int| 0 <= i < s.len() && payload_addr(base, s, i) == ptr) {
    } else {
        let i = choose|i: int| 0 <= i < s.len() && payload_addr(base, s, i) == ptr;
        let u = s.update(i, Block { size: s[i].size, free: true });
        lemma_same_sizes(s, u);
        lemma_coalesce_wf(base, u, 0);
    }
    lemma_bytes_sum(free_spec(base, s, ptr));
}

/// Block `k` is free and its payload covers the offsets `lo .. hi`.
pub open spec fn covers(t: Seq<Block>, k: int, lo: int, hi: int) -> bool {
    &&& 0 <= k < t.len()
    &&& t[k].free
    &&& offset_of(t, k) + HEADER <= lo
    &&& hi <= offset_of(t, k) + span(t[k])
}

/// Offsets of the blocks after merging block `c` with block `c + 1`.
proof fn lemma_merge_offsets(s: Seq<Block>, c: int, j: int)
    requires
        0 <= c,
        c + 1 < s.len(),
        0 <= j < s.len() - 1,
        s[c].size + HEADER + s[c + 1].size <= usize::MAX,
    ensures
        j <= c ==> offset_of(merge_at(s, c), j) == offset_of(s, j),
        j > c ==> offset_of(merge_at(s, c), j) == offset_of(s, j + 1),
{
    let m = merge_at(s, c);
    lemma_merge_footprint(s, c);
    if j <= c {
        assert(m.subrange(0, j) =~= s.subrange(0, j));
    } else {
        let mb = Block { size: (s[c].size + HEADER + s[c + 1].size) as usize, free: s[c].free };
        let pre = s.subrange(0, c);
        let mid = s.subrange(c + 2, j + 1);
        assert(m.subrange(0, j) =~= pre + seq![mb] + mid);
        lemma_sum_concat(pre + seq![mb], mid);
        lemma_sum_concat(pre, seq![mb]);
        lemma_sum_single(mb);
        let two = seq![s[c], s[c + 1]];
        assert(s.subrange(0, j + 1) =~= pre + two + mid);
        lemma_sum_concat(pre + two, mid);
        lemma_sum_concat(pre, two);
        assert(two.drop_last() =~= seq![s[c]]);
        lemma_sum_single(s[c]);
    }
}

/// Merging two free neighbours keeps some free block covering `lo .. hi`.
proof fn lemma_merge_covers(base: u64, t: Seq<Block>, c: int, k: int, lo: int, hi: int) -> (k2: int)
    requires
        blocks_wf(base, t),
        0 <= c,
        c + 1 < t.len(),
        t[c].free && t[c + 1].free,
        covers(t, k, lo, hi),
    ensures
        covers(merge_at(t, c), k2, lo, hi),
{
    lemma_pair_bound(t, c);
    lemma_merge_footprint(t, c);
    let m = merge_at(t, c);
    if k < c {
        lemma_merge_offsets(t, c, k);
        k
    } else if k == c || k == c + 1 {
        lemma_merge_offsets(t, c, c);
        lemma_offset_step(t, c);
        c
    } else {
        lemma_merge_offsets(t, c, k - 1);
        k - 1
    }
}

/// The merge pass keeps some free block covering `lo .. hi`.
proof fn lemma_coalesce_covers(base: u64, t: Seq<Block>, c: int, k: int, lo: int, hi: int) -> (k2: int)
    requires
        blocks_wf(base, t),
        covers(t, k, lo, hi),
    ensures
        covers(coalesce_from(t, c), k2, lo, hi),
    decreases t.len() - c,
{
    if c < 0 || c + 1 >= t.len() {
        k
    } else if t[c].free && t[c + 1].free {
        let k1 = lemma_merge_covers(base, t, c, k, lo, hi);
        lemma_merge_wf(base, t, c);
        lemma_coalesce_covers(base, merge_at(t, c), c, k1, lo, hi)
    } else {
        lemma_coalesce_covers(base, t, c + 1, k, lo, hi)
    }
}

/// Law: after `kfree` of the payload of block `i`, that payload lies inside
/// a free block (the block itself, or the free neighbour it merged into).
pub proof fn lemma_free_marks_block(base: u64, s: Seq<Block>, i: int)
    requires
        blocks_wf(base, s),
        0 <= i < s.len(),
    ensures
        ({
            let ptr = payload_addr(base, s, i) as u64;
            let f = free_spec(base, s, ptr);
            exists|k: int| #![trigger f[k]] 0 <= k < f.len() && f[k].free
                && payload_addr(base, f, k) <= ptr
                && ptr + s[i].size <= payload_addr(base, f, k) + f[k].size
        }),
{
    lemma_offset_le_footprint(s, i);
    let ptr = payload_addr(base, s, i) as u64;
    assert(ptr as int == payload_addr(base, s, i));
    assert(ptr != 0);
    let j = choose|j: int| 0 <= j < s.len() && payload_addr(base, s, j) == ptr;
    lemma_payload_unique(base, s, i, j);
    let u = s.update(i, Block { size: s[i].size, free: true });
    lemma_same_sizes(s, u);
    assert(u.subrange(0, i) =~= s.subrange(0, i));
    let lo = offset_of(s, i) + HEADER;
    let hi = lo + s[i].size;
    assert(covers(u, i, lo, hi));
    let k = lemma_coalesce_covers(base, u, 0, i, lo, hi);
    let f = free_spec(base, s, ptr);
    assert(f == coalesce_from(u, 0));
    assert(f[k].free);
}

/// Law: the payloads of two different blocks never overlap, and every payload
/// lies inside the heap region.
pub proof fn lemma_payloads_disjoint(base: u64, s: Seq<Block>, i: int, j: int)
    requires
        blocks_wf(base, s),
        0 <= i < j < s.len(),
    ensures
        payload_addr(base, s, i) + s[i].size < payload_addr(base, s, j),
        base + HEADER <= payload_addr(base, s, i),
        payload_addr(base, s, j) + s[j].size <= base + HEAP_BYTES,
{
    lemma_offset_step(s, i);
    lemma_offset_mono(s, i + 1, j);
    lemma_offset_le_footprint(s, j);
}

/// Law: a payload `kmalloc` hands out is 16-byte aligned and lies inside
/// the region, with room for the request behind it.
pub proof fn lemma_alloc_addr_bound(base: u64, s: Seq<Block>, size: usize)
    requires
        blocks_wf(base, s),
        size + 15 <= usize::MAX,
        alloc_spec(base, s, size).1 is Some,
    ensures
        alloc_spec(base, s, size).1.unwrap() % 16 == 0,
        base + HEADER <= alloc_spec(base, s, size).1.unwrap(),
        alloc_spec(base, s, size).1.unwrap() + size <= base + HEAP_BYTES,
{
    let need = request_size(size);
    lemma_first_fit(s, need);
    let i = first_fit(s, need).unwrap();
    lemma_offset_le_footprint(s, i);
    lemma_offset_aligned(s, i);
}

/// Rounds `x` up to a multiple of `a` (a power of two): the least multiple
/// of `a` that is not below `x`.
pub fn align_up(x: usize, a: usize) -> (r: usize)
    requires
        a > 0,
        a & ((a - 1) as usize) == 0,
        x + a - 1 <= usize::MAX,
    ensures
        r == ((x + a - 1) / a as int) * a,
        r % a == 0,
        x <= r < x + a,
{
    let y = x + (a - 1);
    assert((y / a) * a <= y && y - (y / a) * a < a && ((y / a) * a) % (a as int) == 0) by (nonlinear_arith)
        requires
            a > 0,
    ;
    (y / a) * a
}

impl Heap {
    /// The heap before it is set up: no region, every request fails.
    pub fn new() -> (h: Heap)
        ensures
            h.blocks@.len() == 0,
            h.wf(),
    {
        Heap { base: 0, blocks: Vec::new() }
    }

    /// Well-formed heap: the blocks tile the region.
    pub open spec fn wf(&self) -> bool {
        blocks_wf(self.base, self.blocks@)
    }

    /// Sets the heap up over the region starting at `base`: one free block.
    pub fn init_at(&mut self, base: u64)
        requires
            base % 16 == 0,
            base + HEAP_BYTES <= u64::MAX,
        ensures
            final(self).wf(),
            final(self).base == base,
            final(self).blocks@ == seq![Block { size: (HEAP_BYTES - HEADER) as usize, free: true }],
    {
        let mut v: Vec<Block> = Vec::new();
        v.push(Block { size: HEAP_BYTES - HEADER, free: true });
        self.base = base;
        self.blocks = v;
        proof {
            lemma_sum_single(self.blocks@[0]);
        }
    }

    /// Takes `HEAP_FRAMES` adjacent frames from the frame allocator and sets
    /// the heap up over them as one free block.
    #[verifier::spinoff_prover]
    pub fn init(&mut self, pmm: &mut FrameAllocator)
        requires
            old(pmm).wf(),
            first_run(old(pmm).view(), HEAP_FRAMES as int) is Some,
        ensures
            final(pmm).wf(),
            final(pmm).total == old(pmm).total,
            (final(pmm).view(), Some(final(self).base)) == alloc_run_spec(old(pmm).view(), HEAP_FRAMES as int),
            final(self).wf(),
            final(self).blocks@ == seq![Block { size: (HEAP_BYTES - HEADER) as usize, free: true }],
    {
        let r = pmm.alloc_contiguous(HEAP_FRAMES);
        proof {
            let v = old(pmm).view();
            let i = first_run(v, HEAP_FRAMES as int).unwrap();
            crate::pmm::lemma_first_run(v, HEAP_FRAMES as int);
            let t = old(pmm).total as int;
            assert(i + 256 <= t);
            assert((i + 256) * 4096 <= t * 4096) by (nonlinear_arith)
                requires
                    i + 256 <= t,
            ;
            assert(i * 4096 + HEAP_BYTES == (i + 256) * 4096);
        }
        match r {
            Some(base) => {
                self.init_at(base);
            },
            None => {},
        }
    }

    /// First-fit allocation of `size` bytes; the payload address or `None`.
    pub fn kmalloc(&mut self, size: usize) -> (r: Option<u64>)
        requires
            old(self).wf(),
            size + 15 <= usize::MAX,
        ensures
            final(self).wf(),
            final(self).base == old(self).base,
            final(self).blocks@ == alloc_spec(old(self).base, old(self).blocks@, size).0,
            r == alloc_spec(old(self).base, old(self).blocks@, size).1,
            r.is_some() ==> r.unwrap() % 16 == 0,
    {
        assert(16usize & 15usize == 0) by (bit_vector);
        let need = align_up(if size == 0 { 1 } else { size }, HEADER);
        let ghost orig = self.blocks@;
        let mut i: usize = 0;
        let mut addr: u64 = self.base;
        while i < self.blocks.len()
            invariant
                self.wf(),
                self.base == old(self).base,
                self.blocks@ == orig,
                orig == old(self).blocks@,
                need == request_size(size),
                need % 16 == 0,
                need > 0,
                i <= orig.len(),
                addr == self.base + offset_of(orig, i as int),
                forall|j: int| 0 <= j < i ==> !fits(orig[j], need as int),
            decreases orig.len() - i,
        {
            let b = self.blocks[i];
            proof {
                lemma_offset_le_footprint(orig, i as int);
            }
            if b.free && b.size >= need {
                proof {
                    let k = first_fit(orig, need as int);
                    assert(fits(orig[i as int], need as int));
                    let c = choose|c: int| 0 <= c < orig.len() && fits(orig[c], need as int) && forall|j: int| 0 <= j < c ==> !fits(orig[j], need as int);
                    if c < i {
                    } else if c > i {
                        assert(!fits(orig[i as int], need as int));
                    }
                    assert(k == Some(i as int));
                    lemma_take_wf(self.base, orig, i as int, need as int);
                }
                if b.size >= need + HEADER + 16 {
                    self.blocks[i] = Block { size: need, free: false };
                    self.blocks.insert(i + 1, Block { size: b.size - need - HEADER, free: true });
                } else {
                    self.blocks[i] = Block { size: b.size, free: false };
                }
                proof {
                    assert(self.blocks@ =~= take_block(orig, i as int, need as int));
                }
                let p = addr + 16;
                proof {
                    lemma_offset_aligned(orig, i as int);
                    assert(p % 16 == 0);
                }
                return Some(p);
            }
            proof {
                lemma_offset_step(orig, i as int);
            }
            addr = addr + 16 + b.size as u64;
            i += 1;
        }
        proof {
            assert(!(exists|j: int| 0 <= j < orig.len() && fits(orig[j], need as int)));
        }
        None
    }

    /// (free payload bytes, used payload bytes, number of blocks).
    pub fn stats(&self) -> (r: (usize, usize, usize))
        requires
            self.wf(),
        ensures
            r.0 == free_bytes(self.blocks@),
            r.1 == used_bytes(self.blocks@),
            r.2 == self.blocks@.len(),
            self.blocks@.len() > 0 ==> r.2 >= 1 && r.0 + r.1 + HEADER * r.2 == HEAP_BYTES,
    {
        let mut free: usize = 0;
        let mut used: usize = 0;
        let mut i: usize = 0;
        let ghost s = self.blocks@;
        while i < self.blocks.len()
            invariant
                self.wf(),
                s == self.blocks@,
                i <= s.len(),
                free == free_bytes(s.subrange(0, i as int)),
                used == used_bytes(s.subrange(0, i as int)),
                free + used + HEADER * i == offset_of(s, i as int),
            decreases s.len() - i,
        {
            proof {
                lemma_offset_le_footprint(s, i as int);
                lemma_offset_step(s, i as int);
                assert(s.subrange(0, i + 1).drop_last() =~= s.subrange(0, i as int));
            }
            let b = self.blocks[i];
            if b.free {
                free = free + b.size;
            } else {
                used = used + b.size;
            }
            i += 1;
        }
        proof {
            assert(s.subrange(0, s.len() as int) =~= s);
        }
        (free, used, i)
    }

    /// Merges every free block with the free blocks that follow it.
    fn coalesce(&mut self)
        requires
            old(self).wf(),
        ensures
            final(self).wf(),
            final(self).base == old(self).base,
            final(self).blocks@ == coalesce_from(old(self).blocks@, 0),
    {
        let mut c: usize = 0;
        while c < self.blocks.len() && c + 1 < self.blocks.len()
            invariant
                self.wf(),
                self.base == old(self).base,
                c == 0 || c < self.blocks@.len(),
                coalesce_from(self.blocks@, c as int) == coalesce_from(old(self).blocks@, 0),
            decreases self.blocks.len() - c,
        {
            let a = self.blocks[c];
            let b = self.blocks[c + 1];
            if a.free && b.free {
                let ghost before = self.blocks@;
                proof {
                    lemma_pair_bound(before, c as int);
                    lemma_merge_wf(self.base, before, c as int);
                }
                self.blocks[c] = Block { size: a.size + HEADER + b.size, free: a.free };
                self.blocks.remove(c + 1);
                proof {
                    assert(self.blocks@ =~= merge_at(before, c as int));
                }
            } else {
                c += 1;
            }
        }
    }

    /// Returns the block whose payload starts at `ptr` to the free list and
    /// merges free neighbours. A null pointer, or one that is no block's
    /// payload, leaves the heap as it is.
    pub fn kfree(&mut self, ptr: u64)
        requires
            old(self).wf(),
        ensures
            final(self).wf(),
            final(self).base == old(self).base,
            final(self).blocks@ == free_spec(old(self).base, old(self).blocks@, ptr),
    {
        if ptr == 0 {
            return;
        }
        let ghost orig = self.blocks@;
        let mut i: usize = 0;
        let mut addr: u64 = self.base;
        while i < self.blocks.len()
            invariant
                self.wf(),
                self.base == old(self).base,
                self.blocks@ == orig,
                orig == old(self).blocks@,
                ptr != 0,
                i <= orig.len(),
                addr == self.base + offset_of(orig, i as int),
                forall|j: int| 0 <= j < i ==> payload_addr(self.base, orig, j) != ptr,
            decreases orig.len() - i,
        {
            let b = self.blocks[i];
            proof {
                lemma_offset_le_footprint(orig, i as int);
            }
            if addr + 16 == ptr {
                proof {
                    assert(payload_addr(self.base, orig, i as int) == ptr);
                    let k = choose|k: int| 0 <= k < orig.len() && payload_addr(self.base, orig, k) == ptr;
                    lemma_payload_unique(self.base, orig, k, i as int);
                }
                self.blocks[i] = Block { size: b.size, free: true };
                proof {
                    let t = self.blocks@;
                    assert forall|k: int| 0 <= k < t.len() implies #[trigger] t[k].size % 16 == 0 by {
                        assert(t[k].size == orig[k].size);
                    }
                    lemma_same_sizes(t, orig);
                }
                self.coalesce();
                return;
            }
            proof {
                lemma_offset_step(orig, i as int);
            }
            addr = addr + 16 + b.size as u64;
            i += 1;
        }
    }
}

/// The heap statistics line.
pub open spec fn heap_stats_text(free: usize, used: usize, blocks: usize) -> Seq<u8> {
    ascii("heap: "@) + dec_str((free as i32) as int) + ascii(" free / "@) + dec_str((used as i32) as int)
        + ascii(" used bytes, "@) + dec_str((blocks as i32) as int) + ascii(" blocks\n"@)
}

/// Largest alignment the heap serves: every payload is 16-byte aligned.
pub const MAX_ALIGN: usize = 16;

impl Heap {
    /// The statistics line: free bytes, used bytes, blocks.
    pub fn stats_text(&self) -> (r: Vec<u8>)
        requires
            self.wf(),
        ensures
            r@ == heap_stats_text(free_bytes(self.blocks@) as usize, used_bytes(self.blocks@) as usize, self.blocks@.len() as usize),
    {
        let (free, used, blocks) = self.stats();
        proof {
            if self.blocks@.len() == 0 {
                assert(free_bytes(self.blocks@) == 0);
                assert(used_bytes(self.blocks@) == 0);
            }
            assert(free <= HEAP_BYTES && used <= HEAP_BYTES && blocks <= HEAP_BYTES);
        }
        let mut out: Vec<u8> = Vec::new();
        proof {
            reveal_strlit("heap: ");
            reveal_strlit(" free / ");
            reveal_strlit(" used bytes, ");
            reveal_strlit(" blocks\n");
        }
        push_str(&mut out, "heap: ");
        push_dec(&mut out, free as i32);
        push_str(&mut out, " free / ");
        push_dec(&mut out, used as i32);
        push_str(&mut out, " used bytes, ");
        push_dec(&mut out, blocks as i32);
        push_str(&mut out, " blocks\n");
        proof {
            assert(out@ =~= heap_stats_text(free, used, blocks));
        }
        out
    }

    /// Allocation for the global allocator: alignments above 16 are refused
    /// (`None`, a null pointer); otherwise `kmalloc(size)`.
    pub fn global_alloc(&mut self, size: usize, align: usize) -> (r: Option<u64>)
        requires
            old(self).wf(),
            size + 15 <= usize::MAX,
        ensures
            final(self).wf(),
            final(self).base == old(self).base,
            align > MAX_ALIGN ==> r is None && final(self).blocks@ == old(self).blocks@,
            align <= MAX_ALIGN ==> final(self).blocks@ == alloc_spec(old(self).base, old(self).blocks@, size).0
                && r == alloc_spec(old(self).base, old(self).blocks@, size).1,
    {
        if align > MAX_ALIGN {
            return None;
        }
        self.kmalloc(size)
    }

    /// Release for the global allocator: `kfree(ptr)`.
    pub fn global_dealloc(&mut self, ptr: u64)
        requires
            old(self).wf(),
        ensures
            final(self).wf(),
            final(self).base == old(self).base,
            final(self).blocks@ == free_spec(old(self).base, old(self).blocks@, ptr),
    {
        self.kfree(ptr)
    }
}

} // verus!
