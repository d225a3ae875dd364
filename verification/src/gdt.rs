//! The runtime GDT: kernel and user code/data segments and a TSS descriptor.
//!
//! Selectors: 0x08 kernel code, 0x10 kernel data, 0x18 user code, 0x20 user
//! data, 0x28 TSS. The caller loads the table (`lgdt`), reloads the segment
//! registers and loads the task register.
use vstd::prelude::*;

verus! {

pub const KERNEL_CODE: u16 = 0x08;
pub const KERNEL_DATA: u16 = 0x10;
pub const USER_CODE: u16 = 0x18;
pub const USER_DATA: u16 = 0x20;
pub const TSS_SEL: u16 = 0x28;
/// Size of the ring-0 stack the TSS points at.
pub const KERNEL_STACK_SIZE: usize = 16384;
/// Limit of the TSS descriptor: the 104-byte TSS, minus one.
pub const TSS_LIMIT: u32 = 103;
/// Limit of the GDT register: six 8-byte descriptors, minus one.
pub const GDT_LIMIT: u16 = 47;

/// A segment descriptor: limit bits 0..16 in bits 0..16, base bits 0..24 in
/// bits 16..40, the access byte in bits 40..48, limit bits 16..20 in bits
/// 48..52, the granularity/size flags in bits 52..56 and base bits 24..32
/// in bits 56..64.
pub open spec fn descriptor(base: u32, limit: u32, access: u8, gran: u8) -> int {
    (limit % 0x10000) + (base % 0x100_0000) * 0x10000 + access * 0x100_0000_0000
        + ((limit / 0x10000) % 16) * 0x1_0000_0000_0000 + (gran % 16) * 0x10_0000_0000_0000
        + (base / 0x100_0000) * 0x100_0000_0000_0000
}

/// Encodes a GDT descriptor.
pub fn entry(base: u32, limit: u32, access: u8, gran: u8) -> (r: u64)
    ensures
        r == descriptor(base, limit, access, gran),
{
    let b = base as u64;
    let l = limit as u64;
    let a = access as u64;
    let g = gran as u64;
    let r = (l & 0xFFFF) | ((b & 0xFF_FFFF) << 16) | (a << 40) | (((l >> 16) & 0xF) << 48) | ((g & 0xF) << 52) | (((b >> 24) & 0xFF) << 56);
    assert(r == (l % 0x10000) + (b % 0x100_0000) * 0x10000 + a * 0x100_0000_0000
        + ((l / 0x10000) % 16) * 0x1_0000_0000_0000 + (g % 16) * 0x10_0000_0000_0000
        + (b / 0x100_0000) * 0x100_0000_0000_0000) by (bit_vector)
        requires
            b < 0x1_0000_0000,
            l < 0x1_0000_0000,
            a < 0x100,
            g < 0x100,
            r == (l & 0xFFFF) | ((b & 0xFF_FFFF) << 16) | (a << 40) | (((l >> 16) & 0xF) << 48) | ((g & 0xF) << 52) | (((b >> 24) & 0xFF) << 56);
    r
}

/// The six descriptors: null, kernel code, kernel data, user code, user
/// data (flat 4 GiB, ring 0 and ring 3), and the TSS at `tss_base`.
pub fn gdt_table(tss_base: u32) -> (r: Vec<u64>)
    ensures
        r@.len() == 6,
        r@[0] == 0,
        r@[1] == descriptor(0, 0xFFFFF, 0x9A, 0xC),
        r@[2] == descriptor(0, 0xFFFFF, 0x92, 0xC),
        r@[3] == descriptor(0, 0xFFFFF, 0xFA, 0xC),
        r@[4] == descriptor(0, 0xFFFFF, 0xF2, 0xC),
        r@[5] == descriptor(tss_base, TSS_LIMIT, 0x89, 0x0),
{
    let mut t: Vec<u64> = Vec::new();
    t.push(0);
    t.push(entry(0, 0xFFFFF, 0x9A, 0xC));
    t.push(entry(0, 0xFFFFF, 0x92, 0xC));
    t.push(entry(0, 0xFFFFF, 0xFA, 0xC));
    t.push(entry(0, 0xFFFFF, 0xF2, 0xC));
    t.push(entry(tss_base, TSS_LIMIT, 0x89, 0x0));
    t
}

} // verus!
