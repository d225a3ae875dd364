//! 32-bit paging (no PAE). A page directory of 1024 entries, each pointing at
//! a 1024-entry page table that maps 4MB. The page directories and tables are
//! frames from the frame allocator; the model keeps their contents, keyed by
//! physical address.
use vstd::prelude::*;
use crate::pmm::{FrameAllocator, alloc_frame_spec, alloc_n, first_free, count_free, lemma_first_free, lemma_free_exists};

verus! {

pub const PAGE_PRESENT: u32 = 1;
pub const PAGE_WRITE: u32 = 2;
/// Accessible from ring 3.
pub const PAGE_USER: u32 = 4;

/// Number of 4MB page tables that identity-map low memory (16MB).
pub const IDENTITY_TABLES: usize = 4;

/// Demand-paging window: faults here are satisfied by mapping a fresh frame.
pub const GROW_BASE: u32 = 0x0100_0000;
pub const GROW_TOP: u32 = 0x0200_0000;

/// Entries per directory or table.
pub const ENTRIES: usize = 1024;

/// The paging structures: the kernel directory and the contents of every
/// directory/table frame, frame `k` at `addrs[k]` holding
/// `words[1024 * k .. 1024 * k + 1024]`.
pub struct Paging {
    pub kernel_dir: u32,
    pub addrs: Vec<u32>,
    pub words: Vec<u32>,
}

/// Directory index of a virtual address.
pub open spec fn pde_index(v: u32) -> int {
    (v >> 22u32) as int
}

/// Table index of a virtual address.
pub open spec fn pte_index(v: u32) -> int {
    ((v >> 12u32) & 0x3FFu32) as int
}

/// Frame address an entry points to.
pub open spec fn entry_frame(e: u32) -> u32 {
    e & !0xFFFu32
}

/// The entry has its present bit.
pub open spec fn is_present(e: u32) -> bool {
    e & 1u32 == 1u32
}


pub proof fn lemma_indices(v: u32)
    by (bit_vector)
    ensures
        0 <= pde_index(v) < 1024,
        0 <= pte_index(v) < 1024,
{
}

/// The flag values: 0 is not present, 3 and 7 are, and how the flag bits
/// combine.
pub proof fn lemma_flag_values()
    by (bit_vector)
    ensures
        !is_present(0u32),
        is_present(3u32),
        is_present(7u32),
        1u32 | 2u32 == 3u32,
        1u32 | 2u32 | 4u32 == 7u32,
{
}

/// An entry's present bit is 0 or 1; setting bits 0 and 1 is or-ing 3.
proof fn lemma_low_bits(e: u32)
    by (bit_vector)
    ensures
        (e & 1u32 == 0u32) || (e & 1u32 == 1u32),
        e | 1u32 | 2u32 == e | 3u32,
{
}

/// Two addresses share directory and table index exactly when they lie in
/// the same 4KB page.
pub proof fn lemma_same_page(v: u32, w: u32)
    ensures
        (pde_index(v) == pde_index(w) && pte_index(v) == pte_index(w)) == (v >> 12u32 == w >> 12u32),
{
    assert(((v >> 22u32) == (w >> 22u32) && ((v >> 12u32) & 0x3FFu32) == ((w >> 12u32) & 0x3FFu32))
        == (v >> 12u32 == w >> 12u32)) by (bit_vector);
}

proof fn lemma_aligned(a: u32)
    requires
        a % 4096 == 0,
    ensures
        a & 0xFFFu32 == 0,
{
    assert(a % 4096 == 0 ==> a & 0xFFFu32 == 0) by (bit_vector);
}

/// An aligned frame address with low flag bits: the frame and present bit read back.
proof fn lemma_entry_bits(a: u32, f: u32)
    requires
        a & 0xFFFu32 == 0,
        f < 4096,
    ensures
        entry_frame(a | f) == a,
        is_present(a | f) == (f & 1u32 == 1u32),
{
    assert((a | f) & !0xFFFu32 == a) by (bit_vector)
        requires
            a & 0xFFFu32 == 0,
            f < 4096,
    ;
    assert((((a | f) & 1u32) == 1u32) == ((f & 1u32) == 1u32)) by (bit_vector)
        requires
            a & 0xFFFu32 == 0,
            f < 4096,
    ;
}

/// Setting the present bit makes an entry present.
proof fn lemma_present_bit(x: u32)
    ensures
        is_present(x | PAGE_PRESENT),
{
    assert((x | 1u32) & 1u32 == 1u32) by (bit_vector);
}

/// The identity map of page (t, i) points at the page's own address.
proof fn lemma_identity_entry(v: u32)
    requires
        v < 0x100_0000,
    ensures
        pde_index(v) < 4,
        ((pde_index(v) * 1024 + pte_index(v)) * 4096) as u32 == entry_frame(v),
        (pde_index(v) * 1024 + pte_index(v)) * 4096 < 0x100_0000,
{
    let t = v >> 22u32;
    let i = (v >> 12u32) & 0x3FFu32;
    assert(t < 4) by (bit_vector)
        requires
            t == v >> 22u32,
            v < 0x100_0000,
    ;
    assert((t * 1024 + i) * 4096 == (v & !0xFFFu32)) by (bit_vector)
        requires
            t == v >> 22u32,
            i == (v >> 12u32) & 0x3FFu32,
            v < 0x100_0000,
    ;
    assert(v & !0xFFFu32 <= v) by (bit_vector);
}

proof fn lemma_above_identity(v: u32)
    requires
        v >= 0x100_0000,
    ensures
        pde_index(v) >= 4,
{
    assert(v >= 0x100_0000 ==> v >> 22u32 >= 4) by (bit_vector);
}


/// What the directory built by `init` maps.
proof fn lemma_init_translate(p: Paging, dir: u32, tabs: Seq<u32>)
    requires
        p.store_wf(),
        p.kernel_dir == dir,
        tabs.len() == 4,
        p.has(dir),
        forall|j: int| 0 <= j < 4 ==> p.has(#[trigger] tabs[j]) && tabs[j] != dir && tabs[j] % 4096 == 0
            && p.entry(dir, j) == tabs[j] | 3u32,
        forall|j: int, i: int| 0 <= j < 4 && 0 <= i < 1024
            ==> #[trigger] p.entry(tabs[j], i) == (((j * 1024 + i) * 4096) as u32 | 3u32),
        forall|j: int| 4 <= j < 1024 ==> #[trigger] p.entry(dir, j) == 0,
        forall|j: int, k: int| 0 <= j < k < 4 ==> tabs[j] != tabs[k],
    ensures
        p.dir_ok(dir),
        forall|v: u32| v < 0x100_0000 ==> #[trigger] p.translate(dir, v) == Some(entry_frame(v) | 3u32),
        forall|v: u32| v >= 0x100_0000 ==> #[trigger] p.translate(dir, v) is None,
{
    assert forall|j: int| 0 <= j < 4 implies #[trigger] entry_frame(p.entry(dir, j)) == tabs[j]
        && is_present(p.entry(dir, j)) by {
        assert(p.has(tabs[j]));
        assert(tabs[j] % 4096 == 0);
        assert(p.entry(dir, j) == tabs[j] | 3u32);
        lemma_aligned(tabs[j]);
        lemma_entry_bits(tabs[j], 3);
        lemma_flag_values();
    }
    lemma_flag_values();
    assert forall|v: u32| v < 0x100_0000 implies #[trigger] p.translate(dir, v) == Some(entry_frame(v) | 3u32) by {
        lemma_identity_entry(v);
        lemma_indices(v);
        let j = pde_index(v);
        let i = pte_index(v);
        assert(entry_frame(p.entry(dir, j)) == tabs[j]);
        let phys = ((j * 1024 + i) * 4096) as u32;
        assert(p.entry(tabs[j], i) == phys | 3u32);
        assert(phys & 0xFFFu32 == 0) by (bit_vector)
            requires
                phys == v & !0xFFFu32;
        lemma_entry_bits(phys, 3);
    }
    assert forall|v: u32| v >= 0x100_0000 implies #[trigger] p.translate(dir, v) is None by {
        lemma_above_identity(v);
        lemma_indices(v);
        assert(p.entry(dir, pde_index(v)) == 0);
    }
    assert forall|i: int, j: int| 0 <= i < j < 1024 && is_present(#[trigger] p.entry(dir, i)) && is_present(#[trigger] p.entry(dir, j))
        implies entry_frame(p.entry(dir, i)) != entry_frame(p.entry(dir, j)) by {
        if j >= 4 {
            assert(p.entry(dir, j) == 0);
        } else {
            assert(entry_frame(p.entry(dir, i)) == tabs[i]);
            assert(entry_frame(p.entry(dir, j)) == tabs[j]);
        }
    }
    assert forall|i: int| 0 <= i < 1024 && is_present(#[trigger] p.entry(dir, i)) implies p.has(entry_frame(p.entry(dir, i)))
        && entry_frame(p.entry(dir, i)) != dir by {
        if i >= 4 {
            assert(p.entry(dir, i) == 0);
        } else {
            assert(entry_frame(p.entry(dir, i)) == tabs[i]);
        }
    }
}



/// A directory stays consistent when entry `di`, which was not present, now
/// points at a fresh table.
proof fn lemma_new_table_dir_ok(p: Paging, m: Paging, dir: u32, di: int, table: u32)
    requires
        p.store_wf(),
        m.store_wf(),
        p.dir_ok(dir),
        0 <= di < 1024,
        !is_present(p.entry(dir, di)),
        !p.has(table),
        m.has(table),
        forall|b: u32| p.has(b) ==> #[trigger] m.has(b),
        is_present(m.entry(dir, di)),
        entry_frame(m.entry(dir, di)) == table,
        forall|j: int| 0 <= j < 1024 && j != di ==> #[trigger] m.entry(dir, j) == p.entry(dir, j),
    ensures
        m.dir_ok(dir),
{
    assert(table != dir);
    assert forall|i: int| 0 <= i < 1024 && is_present(#[trigger] m.entry(dir, i)) implies m.has(entry_frame(m.entry(dir, i)))
        && entry_frame(m.entry(dir, i)) != dir by {
        if i != di {
            assert(m.entry(dir, i) == p.entry(dir, i));
            assert(p.has(entry_frame(p.entry(dir, i))));
        }
    }
    assert forall|i: int, j: int| 0 <= i < j < 1024 && is_present(#[trigger] m.entry(dir, i)) && is_present(#[trigger] m.entry(dir, j))
        implies entry_frame(m.entry(dir, i)) != entry_frame(m.entry(dir, j)) by {
        if i == di {
            assert(m.entry(dir, j) == p.entry(dir, j));
            assert(p.has(entry_frame(p.entry(dir, j))));
        } else if j == di {
            assert(m.entry(dir, i) == p.entry(dir, i));
            assert(p.has(entry_frame(p.entry(dir, i))));
        } else {
            assert(m.entry(dir, i) == p.entry(dir, i));
            assert(m.entry(dir, j) == p.entry(dir, j));
        }
    }
}

/// Effect of `map_into` on translations, from the state before (`p`), after
/// the table is in place (`m`) and after the entry is written (`q`).
proof fn lemma_post_map(p: Paging, m: Paging, q: Paging, dir: u32, virt: u32, pte: u32, table: u32)
    requires
        p.store_wf(),
        m.store_wf(),
        q.store_wf(),
        p.dir_ok(dir),
        m.dir_ok(dir),
        is_present(pte),
        0 <= pde_index(virt) < 1024,
        0 <= pte_index(virt) < 1024,
        is_present(m.entry(dir, pde_index(virt))),
        table == entry_frame(m.entry(dir, pde_index(virt))),
        m.has(table),
        table != dir,
        forall|b: u32| p.has(b) ==> #[trigger] m.has(b),
        forall|b: u32| #[trigger] q.has(b) == m.has(b),
        q.entry(table, pte_index(virt)) == pte,
        forall|b: u32, j: int| m.has(b) && 0 <= j < 1024 && !(b == table && j == pte_index(virt))
            ==> #[trigger] q.entry(b, j) == m.entry(b, j),
        // the directory entries other than the one for `virt` are unchanged
        forall|j: int| 0 <= j < 1024 && j != pde_index(virt) ==> #[trigger] m.entry(dir, j) == p.entry(dir, j),
        // a table that was present stays; a new one is fresh and empty
        is_present(p.entry(dir, pde_index(virt))) ==> m.entry(dir, pde_index(virt)) == p.entry(dir, pde_index(virt)),
        !is_present(p.entry(dir, pde_index(virt))) ==> !p.has(table) && forall|j: int| 0 <= j < 1024 ==> #[trigger] m.entry(table, j) == 0,
        forall|b: u32, j: int| p.has(b) && b != dir && 0 <= j < 1024 ==> #[trigger] m.entry(b, j) == p.entry(b, j),
    ensures
        q.dir_ok(dir),
        q.translate(dir, virt) == Some(pte),
        forall|w: u32| w >> 12u32 != virt >> 12u32 ==> #[trigger] q.translate(dir, w) == p.translate(dir, w),
{
    let di = pde_index(virt);
    let ti = pte_index(virt);
    lemma_flag_values();
    assert(q.entry(dir, di) == m.entry(dir, di));
    assert forall|w: u32| w >> 12u32 != virt >> 12u32 implies #[trigger] q.translate(dir, w) == p.translate(dir, w) by {
        lemma_indices(w);
        lemma_same_page(w, virt);
        let dw = pde_index(w);
        let tw = pte_index(w);
        assert(q.entry(dir, dw) == m.entry(dir, dw));
        if dw != di {
            assert(m.entry(dir, dw) == p.entry(dir, dw));
            let e = p.entry(dir, dw);
            if is_present(e) {
                let t2 = entry_frame(e);
                assert(p.has(t2));
                assert(t2 != dir);
                assert(t2 != table);
                assert(m.entry(t2, tw) == p.entry(t2, tw));
                assert(q.entry(t2, tw) == m.entry(t2, tw));
            }
        } else {
            assert(tw != ti);
            if is_present(p.entry(dir, di)) {
                assert(q.entry(table, tw) == m.entry(table, tw));
                assert(m.entry(table, tw) == p.entry(table, tw));
            } else {
                assert(q.entry(table, tw) == 0);
            }
        }
    }
    assert forall|i: int| 0 <= i < 1024 && is_present(#[trigger] q.entry(dir, i)) implies q.has(entry_frame(q.entry(dir, i)))
        && entry_frame(q.entry(dir, i)) != dir by {
        assert(q.entry(dir, i) == m.entry(dir, i));
    }
    assert forall|i: int, j: int| 0 <= i < j < 1024 && is_present(#[trigger] q.entry(dir, i)) && is_present(#[trigger] q.entry(dir, j))
        implies entry_frame(q.entry(dir, i)) != entry_frame(q.entry(dir, j)) by {
        assert(q.entry(dir, i) == m.entry(dir, i));
        assert(q.entry(dir, j) == m.entry(dir, j));
    }
}

impl Paging {
    /// The slot of a listed frame is the one that lists it.
    proof fn lemma_slot(&self, a: u32, k: int)
        requires
            self.store_wf(),
            0 <= k < self.addrs@.len(),
            self.addrs@[k] == a,
        ensures
            self.has(a),
            self.slot(a) == k,
    {
        let j = self.slot(a);
        if j != k {
            if j < k {
                assert(self.addrs@[j] != self.addrs@[k]);
            } else {
                assert(self.addrs@[k] != self.addrs@[j]);
            }
        }
    }

    proof fn lemma_slot_range(&self, a: u32)
        requires
            self.store_wf(),
            self.has(a),
        ensures
            0 <= self.slot(a) < self.addrs@.len(),
            self.addrs@[self.slot(a)] == a,
            self.slot(a) * 1024 + 1024 <= self.words@.len(),
    {
        let k = self.slot(a);
        assert(k * 1024 + 1024 <= self.addrs@.len() * 1024) by (nonlinear_arith)
            requires
                0 <= k < self.addrs@.len(),
        ;
    }

    /// Slot of frame `a`, if it is a paging frame.
    fn find(&self, a: u32) -> (r: Option<usize>)
        requires
            self.store_wf(),
        ensures
            r is Some <==> self.has(a),
            r matches Some(k) ==> k == self.slot(a) && k < self.addrs@.len(),
    {
        let mut k: usize = 0;
        while k < self.addrs.len()
            invariant
                self.store_wf(),
                k <= self.addrs@.len(),
                forall|m: int| 0 <= m < k ==> self.addrs@[m] != a,
            decreases self.addrs@.len() - k,
        {
            if self.addrs[k] == a {
                proof {
                    self.lemma_slot(a, k as int);
                }
                return Some(k);
            }
            k += 1;
        }
        None
    }

    /// Entry `i` of paging frame `a`.
    fn read(&self, a: u32, i: usize) -> (r: u32)
        requires
            self.store_wf(),
            self.has(a),
            i < 1024,
        ensures
            r == self.entry(a, i as int),
    {
        proof {
            self.lemma_slot_range(a);
        }
        let k = self.find(a).unwrap();
        let _len = self.words.len();
        self.words[k * ENTRIES + i]
    }

    /// Stores `val` as entry `i` of paging frame `a`.
    fn write(&mut self, a: u32, i: usize, val: u32)
        requires
            old(self).store_wf(),
            old(self).has(a),
            i < 1024,
        ensures
            final(self).store_wf(),
            final(self).addrs@ == old(self).addrs@,
            final(self).kernel_dir == old(self).kernel_dir,
            forall|b: u32| #[trigger] final(self).has(b) == old(self).has(b),
            forall|b: u32| #![trigger final(self).slot(b)] final(self).slot(b) == old(self).slot(b),
            final(self).entry(a, i as int) == val,
            forall|b: u32, j: int| old(self).has(b) && 0 <= j < 1024 && !(b == a && j == i)
                ==> #[trigger] final(self).entry(b, j) == old(self).entry(b, j),
    {
        proof {
            self.lemma_slot_range(a);
        }
        let k = self.find(a).unwrap();
        let _len = self.words.len();
        self.words[k * ENTRIES + i] = val;
        proof {
            assert forall|b: u32, j: int| old(self).has(b) && 0 <= j < 1024 && !(b == a && j == i)
                implies #[trigger] self.entry(b, j) == old(self).entry(b, j) by {
                old(self).lemma_slot_range(b);
                if b != a {
                    let kb = old(self).slot(b);
                    assert(kb != k);
                    assert(kb * 1024 + j != k * 1024 + i) by (nonlinear_arith)
                        requires
                            kb != k,
                            0 <= j < 1024,
                            0 <= i < 1024,
                    ;
                }
            }
        }
    }

    /// Takes a fresh frame from `pmm` and lists it with all entries zero.
    fn new_frame(&mut self, pmm: &mut FrameAllocator) -> (a: u32)
        requires
            old(self).wf(old(pmm)),
            count_free(old(pmm).view()) > 0,
        ensures
            final(self).wf(final(pmm)),
            final(self).kernel_dir == old(self).kernel_dir,
            !old(self).has(a),
            final(self).has(a),
            a % 4096 == 0,
            forall|j: int| 0 <= j < 1024 ==> #[trigger] final(self).entry(a, j) == 0,
            forall|b: u32| #[trigger] final(self).has(b) == (old(self).has(b) || b == a),
            forall|b: u32, j: int| old(self).has(b) && 0 <= j < 1024 ==> #[trigger] final(self).entry(b, j) == old(self).entry(b, j),
            final(pmm).view() == alloc_frame_spec(old(pmm).view()).0,
            Some(a as u64) == alloc_frame_spec(old(pmm).view()).1,
            count_free(final(pmm).view()) == count_free(old(pmm).view()) - 1,
            final(pmm).total == old(pmm).total,
    {
        proof {
            lemma_free_exists(pmm.view());
            lemma_first_free(pmm.view());
        }
        let ghost v = pmm.view();
        let f = pmm.alloc_frame().unwrap();
        let ghost i = first_free(v).unwrap();
        assert(f == i * 4096);
        assert(f < 0x1_0000_0000) by (nonlinear_arith)
            requires
                f == i * 4096,
                0 <= i < pmm.total,
                pmm.total * 4096 <= 0x1_0000_0000,
        ;
        let a = f as u32;
        proof {
            if self.has(a) {
                let k = self.slot(a);
                assert(self.addrs@[k] / 4096 == i);
            }
        }
        let ghost old_self = *self;
        let n = self.addrs.len();
        self.addrs.push(a);
        let mut j: usize = 0;
        while j < ENTRIES
            invariant
                old_self.store_wf(),
                !old_self.has(a),
                a % 4096 == 0,
                n == old_self.addrs@.len(),
                self.addrs@ == old_self.addrs@.push(a),
                self.kernel_dir == old_self.kernel_dir,
                self.words@.len() == n * 1024 + j,
                self.words@.subrange(0, n * 1024) == old_self.words@,
                forall|m: int| n * 1024 <= m < n * 1024 + j ==> self.words@[m] == 0,
                j <= 1024,
            decreases 1024 - j,
        {
            self.words.push(0);
            j += 1;
        }
        proof {
            assert(self.store_wf());
            self.lemma_slot(a, n as int);
            assert forall|b: u32| #[trigger] self.has(b) == (old_self.has(b) || b == a) by {
                if old_self.has(b) {
                    let k = old_self.slot(b);
                    assert(self.addrs@[k] == b);
                }
                if self.has(b) && b != a {
                    let k = self.slot(b);
                    assert(old_self.addrs@[k] == b);
                }
            }
            assert forall|b: u32, m: int| old_self.has(b) && 0 <= m < 1024 implies #[trigger] self.entry(b, m) == old_self.entry(b, m) by {
                old_self.lemma_slot_range(b);
                let k = old_self.slot(b);
                self.lemma_slot(b, k);
                assert(k * 1024 + m < n * 1024) by (nonlinear_arith)
                    requires
                        0 <= k < n,
                        0 <= m < 1024,
                ;
                assert(self.words@[k * 1024 + m] == self.words@.subrange(0, n * 1024)[k * 1024 + m]);
            }
            assert forall|m: int| 0 <= m < 1024 implies #[trigger] self.entry(a, m) == 0 by {}
        }
        a
    }

    /// Maps the user-accessible page `virt` -> `phys` in the address space
    /// `dir_phys`, creating the page table if needed. `dir_phys` need not be
    /// the active space.
    pub fn map_user_page(&mut self, pmm: &mut FrameAllocator, dir_phys: u32, virt: u32, phys: u32)
        requires
            old(self).wf(old(pmm)),
            old(self).dir_ok(dir_phys),
            !is_present(old(self).entry(dir_phys, pde_index(virt))) ==> count_free(old(pmm).view()) > 0,
        ensures
            final(self).wf(final(pmm)),
            final(self).kernel_dir == old(self).kernel_dir,
            final(self).dir_ok(dir_phys),
            final(self).translate(dir_phys, virt) == Some(entry_frame(phys) | 7u32),
            forall|w: u32| w >> 12u32 != virt >> 12u32 ==> #[trigger] final(self).translate(dir_phys, w) == old(self).translate(dir_phys, w),
            forall|b: u32| old(self).has(b) ==> #[trigger] final(self).has(b),
            forall|b: u32, j: int| old(self).has(b) && b != dir_phys && 0 <= j < 1024
                && !(is_present(old(self).entry(dir_phys, pde_index(virt))) && b == entry_frame(old(self).entry(dir_phys, pde_index(virt))))
                ==> #[trigger] final(self).entry(b, j) == old(self).entry(b, j),
            is_present(old(self).entry(dir_phys, pde_index(virt))) ==> *final(pmm) == *old(pmm),
            !is_present(old(self).entry(dir_phys, pde_index(virt))) ==> final(pmm).view() == alloc_frame_spec(old(pmm).view()).0
                && count_free(final(pmm).view()) == count_free(old(pmm).view()) - 1,
            final(pmm).total == old(pmm).total,
            is_present(final(self).entry(dir_phys, pde_index(virt))),
            forall|j: int| 0 <= j < 1024 && j != pde_index(virt) ==> #[trigger] final(self).entry(dir_phys, j) == old(self).entry(dir_phys, j),
            !is_present(old(self).entry(dir_phys, pde_index(virt))) ==> !old(self).has(entry_frame(final(self).entry(dir_phys, pde_index(virt)))),
            is_present(old(self).entry(dir_phys, pde_index(virt))) ==> final(self).entry(dir_phys, pde_index(virt)) == old(self).entry(dir_phys, pde_index(virt)),
    {
        let pte = (phys & !0xFFF) | PAGE_PRESENT | PAGE_WRITE | PAGE_USER;
        proof {
            assert(pte == entry_frame(phys) | 7u32 && is_present(pte)) by (bit_vector)
                requires
                    pte == (phys & !0xFFFu32) | 1u32 | 2u32 | 4u32;
        }
        let pde_flags = PAGE_PRESENT | PAGE_WRITE | PAGE_USER;
        proof {
            lemma_flag_values();
        }
        self.map_into(pmm, dir_phys, virt, pte, pde_flags);
    }

    /// Maps one 4KB page `virt` -> `phys` with `flags` in the kernel
    /// directory, creating the page table if needed. The caller flushes the
    /// stale translation for `virt` (`invlpg`).
    pub fn map_page(&mut self, pmm: &mut FrameAllocator, virt: u32, phys: u32, flags: u32)
        requires
            old(self).wf(old(pmm)),
            old(self).dir_ok(old(self).kernel_dir),
            !is_present(old(self).entry(old(self).kernel_dir, pde_index(virt))) ==> count_free(old(pmm).view()) > 0,
        ensures
            final(self).wf(final(pmm)),
            final(self).kernel_dir == old(self).kernel_dir,
            final(self).dir_ok(final(self).kernel_dir),
            final(self).translate(final(self).kernel_dir, virt) == Some(entry_frame(phys) | flags | 1u32),
            forall|w: u32| w >> 12u32 != virt >> 12u32 ==> #[trigger] final(self).translate(final(self).kernel_dir, w)
                == old(self).translate(old(self).kernel_dir, w),
            forall|b: u32| old(self).has(b) ==> #[trigger] final(self).has(b),
            is_present(old(self).entry(old(self).kernel_dir, pde_index(virt))) ==> *final(pmm) == *old(pmm),
            !is_present(old(self).entry(old(self).kernel_dir, pde_index(virt))) ==> final(pmm).view() == alloc_frame_spec(old(pmm).view()).0
                && count_free(final(pmm).view()) == count_free(old(pmm).view()) - 1,
            final(pmm).total == old(pmm).total,
    {
        let pte = (phys & !0xFFF) | flags | PAGE_PRESENT;
        proof {
            lemma_present_bit((phys & !0xFFFu32) | flags);
            lemma_flag_values();
        }
        let dir = self.kernel_dir;
        let pde_flags = PAGE_PRESENT | PAGE_WRITE;
        self.map_into(pmm, dir, virt, pte, pde_flags);
    }

    /// Creates a new address space: a fresh page directory that shares the
    /// kernel's identity-mapped (supervisor) low memory, with no user
    /// mappings yet. Returns the directory's physical address.
    pub fn new_address_space(&mut self, pmm: &mut FrameAllocator) -> (dir: u32)
        requires
            old(self).wf(old(pmm)),
            old(self).dir_ok(old(self).kernel_dir),
            count_free(old(pmm).view()) > 0,
        ensures
            final(self).wf(final(pmm)),
            final(self).kernel_dir == old(self).kernel_dir,
            final(self).dir_ok(dir),
            final(self).dir_ok(final(self).kernel_dir),
            !old(self).has(dir),
            forall|v: u32| pde_index(v) < 4 ==> #[trigger] final(self).translate(dir, v) == old(self).translate(old(self).kernel_dir, v),
            forall|v: u32| pde_index(v) >= 4 ==> #[trigger] final(self).translate(dir, v) is None,
            forall|b: u32| old(self).has(b) ==> #[trigger] final(self).has(b),
            forall|b: u32, j: int| old(self).has(b) && 0 <= j < 1024 ==> #[trigger] final(self).entry(b, j) == old(self).entry(b, j),
            forall|j: int| 0 <= j < IDENTITY_TABLES ==> #[trigger] final(self).entry(dir, j) == old(self).entry(old(self).kernel_dir, j),
            forall|j: int| IDENTITY_TABLES <= j < 1024 ==> #[trigger] final(self).entry(dir, j) == 0,
            final(pmm).view() == alloc_frame_spec(old(pmm).view()).0,
            count_free(final(pmm).view()) == count_free(old(pmm).view()) - 1,
            final(pmm).total == old(pmm).total,
    {
        let ghost p0 = *self;
        let dir = self.new_frame(pmm);
        let ghost p1 = *self;
        let kd = self.kernel_dir;
        let mut i: usize = 0;
        while i < IDENTITY_TABLES
            invariant
                self.wf(pmm),
                self.kernel_dir == kd,
                kd == p0.kernel_dir,
                p0.dir_ok(kd),
                !p0.has(dir),
                p1.has(dir),
                forall|b: u32| #[trigger] p1.has(b) == (p0.has(b) || b == dir),
                forall|b: u32| #[trigger] self.has(b) == p1.has(b),
                forall|b: u32, j: int| p0.has(b) && 0 <= j < 1024 ==> #[trigger] self.entry(b, j) == p0.entry(b, j),
                forall|j: int| 0 <= j < i ==> #[trigger] self.entry(dir, j) == p0.entry(kd, j),
                forall|j: int| i <= j < 1024 ==> #[trigger] self.entry(dir, j) == 0,
                i <= 4,
            decreases 4 - i,
        {
            let e = self.read(kd, i);
            self.write(dir, i, e);
            i += 1;
        }
        proof {
            lemma_flag_values();
            assert(self.has(dir));
            assert forall|j: int| 0 <= j < 1024 && is_present(#[trigger] self.entry(dir, j)) implies self.has(entry_frame(self.entry(dir, j)))
                && entry_frame(self.entry(dir, j)) != dir by {
                if j < 4 {
                    assert(p0.has(entry_frame(p0.entry(kd, j))));
                }
            }
            assert forall|i1: int, j: int| 0 <= i1 < j < 1024 && is_present(#[trigger] self.entry(dir, i1)) && is_present(#[trigger] self.entry(dir, j))
                implies entry_frame(self.entry(dir, i1)) != entry_frame(self.entry(dir, j)) by {
                if j < 4 {
                    assert(self.entry(dir, i1) == p0.entry(kd, i1));
                    assert(self.entry(dir, j) == p0.entry(kd, j));
                }
            }
            assert forall|v: u32| pde_index(v) < 4 implies #[trigger] self.translate(dir, v) == p0.translate(kd, v) by {
                lemma_indices(v);
                let e = p0.entry(kd, pde_index(v));
                assert(self.entry(dir, pde_index(v)) == e);
                if is_present(e) {
                    assert(p0.has(entry_frame(e)));
                }
            }
            assert forall|v: u32| pde_index(v) >= 4 implies #[trigger] self.translate(dir, v) is None by {
                lemma_indices(v);
            }
            assert forall|j: int| 0 <= j < 1024 && is_present(#[trigger] self.entry(kd, j)) implies self.has(entry_frame(self.entry(kd, j)))
                && entry_frame(self.entry(kd, j)) != kd by {
                assert(self.entry(kd, j) == p0.entry(kd, j));
            }
            assert forall|i1: int, j: int| 0 <= i1 < j < 1024 && is_present(#[trigger] self.entry(kd, i1)) && is_present(#[trigger] self.entry(kd, j))
                implies entry_frame(self.entry(kd, i1)) != entry_frame(self.entry(kd, j)) by {
                assert(self.entry(kd, i1) == p0.entry(kd, i1));
                assert(self.entry(kd, j) == p0.entry(kd, j));
            }
        }
        dir
    }

    /// Page-fault recovery: a fault inside the demand-paging window is backed
    /// with a fresh writable frame; returns whether the fault was handled.
    pub fn handle_fault(&mut self, pmm: &mut FrameAllocator, addr: u32) -> (r: bool)
        requires
            old(self).wf(old(pmm)),
            old(self).dir_ok(old(self).kernel_dir),
            GROW_BASE <= addr < GROW_TOP && !is_present(old(self).entry(old(self).kernel_dir, pde_index(addr)))
                ==> count_free(old(pmm).view()) != 1,
        ensures
            final(self).wf(final(pmm)),
            final(self).kernel_dir == old(self).kernel_dir,
            final(self).dir_ok(final(self).kernel_dir),
            r == (GROW_BASE <= addr < GROW_TOP && count_free(old(pmm).view()) > 0),
            r ==> final(self).translate(final(self).kernel_dir, addr) == Some(
                (alloc_frame_spec(old(pmm).view()).1.unwrap() as u32) | 3u32,
            ),
            r ==> forall|w: u32| w >> 12u32 != addr >> 12u32 ==> #[trigger] final(self).translate(final(self).kernel_dir, w)
                == old(self).translate(old(self).kernel_dir, w),
            !r ==> *final(self) == *old(self) && final(pmm).view() == old(pmm).view(),
            final(pmm).total == old(pmm).total,
    {
        if addr >= GROW_BASE && addr < GROW_TOP {
            let ghost v = pmm.view();
            proof {
                lemma_first_free(v);
                if count_free(v) > 0 {
                    lemma_free_exists(v);
                }
            }
            let got = pmm.alloc_frame();
            match got {
                Some(frame) => {
                    proof {
                        let i = first_free(v).unwrap();
                        assert(frame == i * 4096);
                        assert(frame < 0x1_0000_0000) by (nonlinear_arith)
                            requires
                                frame == i * 4096,
                                0 <= i < pmm.total,
                                pmm.total * 4096 <= 0x1_0000_0000,
                        ;
                        crate::pmm::lemma_count_update(v, i, true);
                        assert(count_free(pmm.view()) == count_free(v) - 1);
                        assert forall|k: int| 0 <= k < self.addrs@.len() implies #[trigger] self.addrs@[k] / 4096 < pmm.total
                            && pmm.view()[(self.addrs@[k] / 4096) as int] by {
                            assert(v[(self.addrs@[k] / 4096) as int]);
                        }
                    }
                    let f = frame as u32;
                    proof {
                        assert(f % 4096 == 0);
                        lemma_aligned(f);
                        assert((f & !0xFFFu32) | 2u32 | 1u32 == f | 3u32) by (bit_vector)
                            requires
                                f & 0xFFFu32 == 0;
                    }
                    proof {
                        assert(((addr & !0xFFFu32) >> 12u32) == (addr >> 12u32)) by (bit_vector);
                        lemma_same_page(addr & !0xFFFu32, addr);
                    }
                    self.map_page(pmm, addr & !0xFFF, f, PAGE_WRITE);
                    return true;
                },
                None => {
                    proof {
                        if count_free(v) > 0 {
                            assert(first_free(v) is Some);
                        }
                    }
                },
            }
        }
        false
    }

    /// Physical address of the kernel page directory.
    pub fn kernel_dir(&self) -> (r: u32)
        ensures
            r == self.kernel_dir,
    {
        self.kernel_dir
    }

    /// Directory `dir` (a paging frame) has a present entry for `v`.
    pub fn pde_present(&self, dir: u32, v: u32) -> (r: bool)
        requires
            self.store_wf(),
            self.has(dir),
        ensures
            r == is_present(self.entry(dir, pde_index(v))),
    {
        proof {
            lemma_indices(v);
        }
        let de = self.read(dir, (v >> 22) as usize);
        proof {
            lemma_low_bits(de);
        }
        de & PAGE_PRESENT != 0
    }

    /// The page-table entry directory `dir` maps `v` with, if any.
    pub fn lookup(&self, dir: u32, v: u32) -> (r: Option<u32>)
        requires
            self.store_wf(),
        ensures
            r == self.translate(dir, v),
    {
        proof {
            lemma_indices(v);
        }
        if self.find(dir).is_none() {
            return None;
        }
        let de = self.read(dir, (v >> 22) as usize);
        if de & PAGE_PRESENT == 0 {
            return None;
        }
        let table = de & !0xFFF;
        if self.find(table).is_none() {
            return None;
        }
        let te = self.read(table, ((v >> 12) & 0x3FF) as usize);
        proof {
            lemma_low_bits(te);
            lemma_low_bits(de);
        }
        if te & PAGE_PRESENT == 0 {
            return None;
        }
        Some(te)
    }

    /// Writes `pte` as the table entry for `virt` in directory `dir`,
    /// creating the page table (directory entry flags `pde_flags`) if needed.
    fn map_into(&mut self, pmm: &mut FrameAllocator, dir: u32, virt: u32, pte: u32, pde_flags: u32)
        requires
            old(self).wf(old(pmm)),
            old(self).dir_ok(dir),
            is_present(pte),
            pde_flags < 4096,
            is_present(pde_flags),
            !is_present(old(self).entry(dir, pde_index(virt))) ==> count_free(old(pmm).view()) > 0,
        ensures
            final(self).wf(final(pmm)),
            final(self).kernel_dir == old(self).kernel_dir,
            final(self).dir_ok(dir),
            final(self).translate(dir, virt) == Some(pte),
            forall|w: u32| w >> 12u32 != virt >> 12u32 ==> #[trigger] final(self).translate(dir, w) == old(self).translate(dir, w),
            forall|b: u32| old(self).has(b) ==> #[trigger] final(self).has(b),
            forall|b: u32, j: int| old(self).has(b) && b != dir && 0 <= j < 1024
                && !(is_present(old(self).entry(dir, pde_index(virt))) && b == entry_frame(old(self).entry(dir, pde_index(virt))))
                ==> #[trigger] final(self).entry(b, j) == old(self).entry(b, j),
            is_present(old(self).entry(dir, pde_index(virt))) ==> *final(pmm) == *old(pmm),
            !is_present(old(self).entry(dir, pde_index(virt))) ==> final(pmm).view() == alloc_frame_spec(old(pmm).view()).0
                && count_free(final(pmm).view()) == count_free(old(pmm).view()) - 1,
            final(pmm).total == old(pmm).total,
            is_present(final(self).entry(dir, pde_index(virt))),
            forall|j: int| 0 <= j < 1024 && j != pde_index(virt) ==> #[trigger] final(self).entry(dir, j) == old(self).entry(dir, j),
            !is_present(old(self).entry(dir, pde_index(virt))) ==> !old(self).has(entry_frame(final(self).entry(dir, pde_index(virt)))),
            is_present(old(self).entry(dir, pde_index(virt))) ==> final(self).entry(dir, pde_index(virt)) == old(self).entry(dir, pde_index(virt)),
    {
        proof {
            lemma_indices(virt);
        }
        let di = (virt >> 22) as usize;
        let ti = ((virt >> 12) & 0x3FF) as usize;
        let de = self.read(dir, di);
        proof {
            lemma_low_bits(de);
        }
        if de & PAGE_PRESENT == 0 {
            let ghost p0 = *self;
            let table = self.new_frame(pmm);
            let ghost p1 = *self;
            self.write(dir, di, table | pde_flags);
            proof {
                lemma_aligned(table);
                lemma_entry_bits(table, pde_flags);
                assert(self.has(table));
                assert(self.entry(dir, di as int) == table | pde_flags);
                assert forall|j: int| 0 <= j < 1024 && j != di implies #[trigger] self.entry(dir, j) == p0.entry(dir, j) by {
                    assert(p1.entry(dir, j) == p0.entry(dir, j));
                }
                assert forall|j: int| 0 <= j < 1024 implies #[trigger] self.entry(table, j) == 0 by {
                    assert(p1.entry(table, j) == 0);
                }
                assert forall|b: u32, j: int| p0.has(b) && b != dir && 0 <= j < 1024 implies #[trigger] self.entry(b, j) == p0.entry(b, j) by {
                    assert(p1.entry(b, j) == p0.entry(b, j));
                }
                lemma_new_table_dir_ok(p0, *self, dir, di as int, table);
            }
        }
        let ghost mid = *self;
        let table = self.read(dir, di) & !0xFFF;
        proof {
            assert(mid.has(table));
            assert(table != dir);
        }
        self.write(table, ti, pte);
        proof {
            lemma_post_map(*old(self), mid, *self, dir, virt, pte, table);
            assert(self.entry(dir, di as int) == mid.entry(dir, di as int));
            assert forall|j: int| 0 <= j < 1024 && j != pde_index(virt) implies #[trigger] self.entry(dir, j) == old(self).entry(dir, j) by {
                assert(self.entry(dir, j) == mid.entry(dir, j));
            }
        }
    }

    /// Makes `d` the kernel directory; the frames stay as they are.
    fn set_kernel_dir(&mut self, d: u32)
        ensures
            final(self).kernel_dir == d,
            final(self).addrs@ == old(self).addrs@,
            final(self).words@ == old(self).words@,
            forall|b: u32| #[trigger] final(self).has(b) == old(self).has(b),
            forall|b: u32| #[trigger] final(self).slot(b) == old(self).slot(b),
            forall|b: u32, j: int| #[trigger] final(self).entry(b, j) == old(self).entry(b, j),
    {
        self.kernel_dir = d;
        proof {
            assert forall|b: u32| #[trigger] self.has(b) == old(self).has(b) by {
                if old(self).has(b) {
                    let k = old(self).slot(b);
                    assert(self.addrs@[k] == b);
                }
                if self.has(b) {
                    let k = self.slot(b);
                    assert(old(self).addrs@[k] == b);
                }
            }
        }
    }

    /// A fresh frame filled as the identity-map table for the `t`-th 4MB.
    fn identity_table(&mut self, pmm: &mut FrameAllocator, t: usize) -> (table: u32)
        requires
            old(self).wf(old(pmm)),
            count_free(old(pmm).view()) > 0,
            t < 4,
        ensures
            final(self).wf(final(pmm)),
            final(self).kernel_dir == old(self).kernel_dir,
            !old(self).has(table),
            table % 4096 == 0,
            forall|b: u32| #[trigger] final(self).has(b) == (old(self).has(b) || b == table),
            forall|b: u32, j: int| old(self).has(b) && 0 <= j < 1024 ==> #[trigger] final(self).entry(b, j) == old(self).entry(b, j),
            forall|i: int| 0 <= i < 1024 ==> #[trigger] final(self).entry(table, i) == (((t * 1024 + i) * 4096) as u32 | 3u32),
            final(pmm).total == old(pmm).total,
            count_free(final(pmm).view()) == count_free(old(pmm).view()) - 1,
            final(pmm).view() == alloc_frame_spec(old(pmm).view()).0,
    {
        let table = self.new_frame(pmm);
        let ghost mid = *self;
        let mut i: usize = 0;
        while i < ENTRIES
            invariant
                self.wf(pmm),
                self.kernel_dir == old(self).kernel_dir,
                t < 4,
                !old(self).has(table),
                mid.has(table),
                forall|b: u32| #[trigger] self.has(b) == mid.has(b),
                forall|b: u32| #[trigger] mid.has(b) == (old(self).has(b) || b == table),
                forall|b: u32, j: int| old(self).has(b) && 0 <= j < 1024 ==> #[trigger] mid.entry(b, j) == old(self).entry(b, j),
                forall|b: u32, j: int| mid.has(b) && b != table && 0 <= j < 1024 ==> #[trigger] self.entry(b, j) == mid.entry(b, j),
                forall|m: int| 0 <= m < i ==> #[trigger] self.entry(table, m) == (((t * 1024 + m) * 4096) as u32 | 3u32),
                i <= 1024,
            decreases 1024 - i,
        {
            let phys = ((t * ENTRIES + i) * 0x1000) as u32;
            self.write(table, i, phys | PAGE_PRESENT | PAGE_WRITE);
            proof {
                lemma_low_bits(phys);
            }
            i += 1;
        }
        table
    }

    /// Builds the kernel page directory: its first 4 tables identity-map the
    /// low 16MB (supervisor, writable), nothing else is mapped.
    pub fn init(pmm: &mut FrameAllocator) -> (r: Paging)
        requires
            old(pmm).wf(),
            old(pmm).total * 4096 <= 0x1_0000_0000,
            count_free(old(pmm).view()) >= 5,
        ensures
            r.wf(final(pmm)),
            r.dir_ok(r.kernel_dir),
            final(pmm).total == old(pmm).total,
            count_free(final(pmm).view()) == count_free(old(pmm).view()) - 5,
            final(pmm).view() == alloc_n(old(pmm).view(), 5),
            Some(r.kernel_dir as u64) == alloc_frame_spec(old(pmm).view()).1,
            forall|v: u32| v < 0x100_0000 ==> #[trigger] r.translate(r.kernel_dir, v) == Some(entry_frame(v) | 3u32),
            forall|v: u32| v >= 0x100_0000 ==> #[trigger] r.translate(r.kernel_dir, v) is None,
    {
        let mut p = Paging { kernel_dir: 0, addrs: Vec::new(), words: Vec::new() };
        let dir = p.new_frame(pmm);
        p.set_kernel_dir(dir);
        proof {
            assert(alloc_n(old(pmm).view(), 0) == old(pmm).view());
            assert(alloc_n(old(pmm).view(), 1) == alloc_frame_spec(old(pmm).view()).0);
        }
        let ghost mut tabs: Seq<u32> = Seq::empty();
        let mut t: usize = 0;
        while t < IDENTITY_TABLES
            invariant
                p.wf(pmm),
                p.kernel_dir == dir,
                pmm.total == old(pmm).total,
                count_free(pmm.view()) == count_free(old(pmm).view()) - 1 - t,
                pmm.view() == alloc_n(old(pmm).view(), (1 + t) as nat),
                Some(dir as u64) == alloc_frame_spec(old(pmm).view()).1,
                count_free(old(pmm).view()) >= 5,
                t <= 4,
                tabs.len() == t,
                p.has(dir),
                forall|j: int| 0 <= j < t ==> p.has(#[trigger] tabs[j]) && tabs[j] != dir && tabs[j] % 4096 == 0
                    && p.entry(dir, j) == tabs[j] | 3u32,
                forall|j: int, i: int| 0 <= j < t && 0 <= i < 1024
                    ==> #[trigger] p.entry(tabs[j], i) == (((j * 1024 + i) * 4096) as u32 | 3u32),
                forall|j: int| t <= j < 1024 ==> #[trigger] p.entry(dir, j) == 0,
                forall|j: int, k: int| 0 <= j < k < t ==> tabs[j] != tabs[k],
            decreases 4 - t,
        {
            let ghost before = pmm.view();
            let table = p.identity_table(pmm, t);
            p.write(dir, t, table | PAGE_PRESENT | PAGE_WRITE);
            proof {
                assert(alloc_n(old(pmm).view(), (2 + t) as nat) == alloc_frame_spec(before).0);
                lemma_low_bits(table);
                tabs = tabs.push(table);
            }
            t += 1;
        }
        proof {
            lemma_init_translate(p, dir, tabs);
        }
        p
    }

    /// Frame `a` is one of the paging structures.
    pub open spec fn has(&self, a: u32) -> bool {
        exists|k: int| 0 <= k < self.addrs@.len() && self.addrs@[k] == a
    }

    /// Slot of frame `a`.
    pub open spec fn slot(&self, a: u32) -> int {
        choose|k: int| 0 <= k < self.addrs@.len() && self.addrs@[k] == a
    }

    /// Entry `i` of frame `a`.
    pub open spec fn entry(&self, a: u32, i: int) -> u32 {
        self.words@[self.slot(a) * 1024 + i]
    }

    /// Contents of frame `a`.
    pub open spec fn frame(&self, a: u32) -> Seq<u32> {
        self.words@.subrange(self.slot(a) * 1024, self.slot(a) * 1024 + 1024)
    }

    /// What directory `dir` maps `v` to: the page-table entry, when the
    /// directory entry, its table and the table entry are all present.
    pub open spec fn translate(&self, dir: u32, v: u32) -> Option<u32> {
        if !self.has(dir) {
            None
        } else {
            let de = self.entry(dir, pde_index(v));
            if !is_present(de) || !self.has(entry_frame(de)) {
                None
            } else {
                let te = self.entry(entry_frame(de), pte_index(v));
                if is_present(te) { Some(te) } else { None }
            }
        }
    }

    /// Frames are 1024 words each, page aligned and listed once.
    pub open spec fn store_wf(&self) -> bool {
        &&& self.words@.len() == self.addrs@.len() * 1024
        &&& forall|k: int| 0 <= k < self.addrs@.len() ==> #[trigger] self.addrs@[k] % 4096 == 0
        &&& forall|k: int, m: int| 0 <= k < m < self.addrs@.len() ==> self.addrs@[k] != self.addrs@[m]
    }

    /// Every paging frame is a used frame of `pmm`, and every frame `pmm`
    /// hands out has a 32-bit address.
    pub open spec fn backed_by(&self, pmm: &FrameAllocator) -> bool {
        &&& pmm.wf()
        &&& pmm.total * 4096 <= 0x1_0000_0000
        &&& forall|k: int| 0 <= k < self.addrs@.len() ==> #[trigger] self.addrs@[k] / 4096 < pmm.total
            && pmm.view()[(self.addrs@[k] / 4096) as int]
    }

    /// Well formed against the frame allocator.
    pub open spec fn wf(&self, pmm: &FrameAllocator) -> bool {
        self.store_wf() && self.backed_by(pmm)
    }

    /// Directory `dir` is a paging frame whose present entries point at
    /// distinct paging frames other than itself.
    pub open spec fn dir_ok(&self, dir: u32) -> bool {
        &&& self.has(dir)
        &&& forall|i: int| 0 <= i < 1024 && is_present(#[trigger] self.entry(dir, i)) ==> self.has(entry_frame(self.entry(dir, i)))
            && entry_frame(self.entry(dir, i)) != dir
        &&& forall|i: int, j: int| 0 <= i < j < 1024 && is_present(#[trigger] self.entry(dir, i)) && is_present(#[trigger] self.entry(dir, j))
            ==> entry_frame(self.entry(dir, i)) != entry_frame(self.entry(dir, j))
    }
}

} // verus!
