//! The early bump allocator (placement allocation above the kernel) and raw
//! memory copy/fill.
use vstd::prelude::*;

verus! {

/// Hands out memory upward from `free_mem_addr`; nothing is ever freed.
pub struct BumpAlloc {
    pub free_mem_addr: u32,
}

/// Where an allocation starts: with `align` 1, an address past the first
/// page moves to the start of the next page.
pub open spec fn bump_start(addr: u32, align: i32) -> int {
    if align == 1 && addr >= 0x1000 {
        (addr - addr % 0x1000) + 0x1000
    } else {
        addr as int
    }
}

impl BumpAlloc {
    /// Starts handing out memory at `heap_start`.
    pub fn mem_init(heap_start: u32) -> (b: BumpAlloc)
        ensures
            b.free_mem_addr == heap_start,
    {
        BumpAlloc { free_mem_addr: heap_start }
    }

    /// Takes `size` bytes (page-aligned when `align` is 1); returns the
    /// address, which is also the physical address.
    pub fn kmalloc(&mut self, size: u32, align: i32) -> (r: u32)
        requires
            bump_start(old(self).free_mem_addr, align) + size <= u32::MAX,
        ensures
            r == bump_start(old(self).free_mem_addr, align),
            final(self).free_mem_addr == r + size,
    {
        if align == 1 && (self.free_mem_addr & 0xFFFFF000) != 0 {
            let a = self.free_mem_addr;
            assert((a & 0xFFFFF000) == a - a % 0x1000 && ((a & 0xFFFFF000) != 0) == (a >= 0x1000)) by (bit_vector);
            self.free_mem_addr = (a & 0xFFFFF000) + 0x1000;
        } else {
            let a = self.free_mem_addr;
            assert(((a & 0xFFFFF000) != 0) == (a >= 0x1000)) by (bit_vector);
        }
        let ret = self.free_mem_addr;
        self.free_mem_addr = ret + size;
        ret
    }
}

/// Copies `nbytes` bytes from `source` to the start of `dest`.
pub fn memory_copy(source: &[u8], dest: &mut [u8], nbytes: usize)
    requires
        nbytes <= source@.len(),
        nbytes <= old(dest)@.len(),
    ensures
        final(dest)@ == source@.subrange(0, nbytes as int) + old(dest)@.subrange(nbytes as int, old(dest)@.len() as int),
{
    let mut i: usize = 0;
    while i < nbytes
        invariant
            nbytes <= source@.len(),
            nbytes <= old(dest)@.len(),
            dest@.len() == old(dest)@.len(),
            i <= nbytes,
            dest@ == source@.subrange(0, i as int) + old(dest)@.subrange(i as int, old(dest)@.len() as int),
        decreases nbytes - i,
    {
        dest[i] = source[i];
        i += 1;
        proof {
            assert(dest@ =~= source@.subrange(0, i as int) + old(dest)@.subrange(i as int, old(dest)@.len() as int));
        }
    }
}

/// Fills the first `len` bytes of `dest` with `val`.
pub fn memory_set(dest: &mut [u8], val: u8, len: u32)
    requires
        len <= old(dest)@.len(),
    ensures
        final(dest)@.len() == old(dest)@.len(),
        forall|i: int| 0 <= i < len ==> #[trigger] final(dest)@[i] == val,
        forall|i: int| len <= i < old(dest)@.len() ==> #[trigger] final(dest)@[i] == old(dest)@[i],
{
    let n = len as usize;
    let mut i: usize = 0;
    while i < n
        invariant
            n == len,
            n <= old(dest)@.len(),
            dest@.len() == old(dest)@.len(),
            i <= n,
            forall|k: int| 0 <= k < i ==> #[trigger] dest@[k] == val,
            forall|k: int| i <= k < old(dest)@.len() ==> #[trigger] dest@[k] == old(dest)@[k],
        decreases n - i,
    {
        dest[i] = val;
        i += 1;
    }
}

} // verus!
