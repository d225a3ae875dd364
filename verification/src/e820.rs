//! The BIOS E820 memory map left by the bootloader: a `u32` entry count
//! followed by 24-byte entries (base, length, type, attributes).
use vstd::prelude::*;
use crate::fat12::{le32, u32le};
use crate::text::{ascii, push_str};

verus! {

/// Region type 1 = normal, usable RAM. Other values are reserved / ACPI / etc.
pub const E820_USABLE: u32 = 1;

/// One entry of the map.
#[derive(Clone, Copy, PartialEq, Eq, Structural)]
pub struct E820Entry {
    pub base: u64,
    pub length: u64,
    pub kind: u32,
    pub attr: u32,
}

/// Little-endian 64-bit value at `o`.
pub open spec fn le64(b: Seq<u8>, o: int) -> int {
    le32(b, o) + le32(b, o + 4) * 0x1_0000_0000
}

/// Entry `i` of the raw map region (the count is at offset 0, entries start
/// at offset 4, 24 bytes each).
pub open spec fn entry_at(raw: Seq<u8>, i: int) -> E820Entry {
    let o = 4 + 24 * i;
    E820Entry {
        base: le64(raw, o) as u64,
        length: le64(raw, o + 8) as u64,
        kind: le32(raw, o + 16) as u32,
        attr: le32(raw, o + 20) as u32,
    }
}

/// Number of entries recorded in the raw map region.
pub fn count(raw: &[u8]) -> (r: usize)
    requires
        raw@.len() >= 4,
    ensures
        r == le32(raw@, 0),
{
    u32le(raw, 0) as usize
}

fn u64le(raw: &[u8], o: usize) -> (r: u64)
    requires
        o + 7 < raw@.len() <= usize::MAX,
    ensures
        r == le64(raw@, o as int),
{
    let lo = u32le(raw, o) as u64;
    let hi = u32le(raw, o + 4) as u64;
    lo + hi * 0x1_0000_0000
}

/// The entries of the raw map region.
pub fn entries(raw: &[u8]) -> (r: Vec<E820Entry>)
    requires
        raw@.len() >= 4 + 24 * le32(raw@, 0),
    ensures
        r@.len() == le32(raw@, 0),
        forall|i: int| 0 <= i < r@.len() ==> #[trigger] r@[i] == entry_at(raw@, i),
{
    let n = count(raw);
    let size = raw.len();
    let mut v: Vec<E820Entry> = Vec::new();
    let mut i: usize = 0;
    while i < n
        invariant
            n == le32(raw@, 0),
            raw@.len() >= 4 + 24 * n,
            raw@.len() == size,
            i <= n,
            v@.len() == i,
            forall|k: int| 0 <= k < i ==> #[trigger] v@[k] == entry_at(raw@, k),
        decreases n - i,
    {
        let o = 4 + 24 * i;
        let e = E820Entry {
            base: u64le(raw, o),
            length: u64le(raw, o + 8),
            kind: u32le(raw, o + 16),
            attr: u32le(raw, o + 20),
        };
        v.push(e);
        i += 1;
    }
    v
}

/// Upper-case hex digit.
pub open spec fn hex_upper(d: int) -> u8 {
    if d < 10 { (48 + d) as u8 } else { (65 + d - 10) as u8 }
}

/// Hex digits of the nibbles of `v` from bit `sh` down, dropping leading
/// zeros unless `started`; the last nibble is always written.
pub open spec fn hex64_from(v: u64, sh: int, started: bool) -> Seq<u8>
    decreases sh + 4,
{
    if sh < 0 {
        Seq::empty()
    } else {
        let nib = ((v >> (sh as u64)) & 0xF) as int;
        if nib != 0 || started || sh == 0 {
            seq![hex_upper(nib)] + hex64_from(v, sh - 4, true)
        } else {
            hex64_from(v, sh - 4, false)
        }
    }
}

/// `0x` and the upper-case hex digits of `v`, without leading zeros.
pub open spec fn hex64_text(v: u64) -> Seq<u8> {
    seq![48u8, 120u8] + hex64_from(v, 60, false)
}

/// Appends `0x` and the upper-case hex digits of `v`.
pub fn write_hex64(out: &mut Vec<u8>, v: u64)
    ensures
        final(out)@ == old(out)@ + hex64_text(v),
{
    out.push(48);
    out.push(120);
    let mut shift: i32 = 60;
    let mut started = false;
    while shift >= 0
        invariant
            -4 <= shift <= 60,
            shift % 4 == 0,
            out@ + hex64_from(v, shift as int, started) == old(out)@ + hex64_text(v),
        decreases shift + 4,
    {
        let nib = ((v >> (shift as u64)) & 0xF) as u8;
        proof {
            assert(((v >> (shift as u64)) & 0xF) < 16) by (bit_vector);
        }
        let ghost before = out@;
        let ghost st = started;
        if nib != 0 || started || shift == 0 {
            started = true;
            let c = if nib < 10 { 48 + nib } else { 65 + nib - 10 };
            out.push(c);
            proof {
                assert(hex64_from(v, shift as int, st) == seq![c] + hex64_from(v, shift - 4, true));
                assert(before + hex64_from(v, shift as int, st) =~= out@ + hex64_from(v, shift - 4, true));
            }
        }
        shift -= 4;
    }
}

/// The dump line of one entry: base, length, the last decimal digit of the
/// type (of its low byte), and a `(usable)` mark for usable RAM.
pub open spec fn entry_line(e: E820Entry) -> Seq<u8> {
    ascii("  base="@) + hex64_text(e.base) + ascii(" len="@) + hex64_text(e.length) + ascii(" type="@)
        + seq![(48 + (e.kind % 256) % 10) as u8]
        + (if e.kind == E820_USABLE { ascii(" (usable)"@) } else { Seq::empty() })
        + seq![10u8]
}

/// The dump lines of `es`, in order.
pub open spec fn map_lines(es: Seq<E820Entry>) -> Seq<u8>
    decreases es.len(),
{
    if es.len() == 0 {
        Seq::empty()
    } else {
        map_lines(es.drop_last()) + entry_line(es.last())
    }
}

/// The text dump of the memory map.
pub open spec fn map_text(es: Seq<E820Entry>) -> Seq<u8> {
    ascii("E820 memory map:\n"@) + map_lines(es)
}

/// Appends the dump line of `e`.
fn push_entry_line(out: &mut Vec<u8>, e: E820Entry)
    ensures
        final(out)@ == old(out)@ + entry_line(e),
{
    proof {
        reveal_strlit("  base=");
        reveal_strlit(" len=");
        reveal_strlit(" type=");
        reveal_strlit(" (usable)");
    }
    push_str(out, "  base=");
    write_hex64(out, e.base);
    push_str(out, " len=");
    write_hex64(out, e.length);
    push_str(out, " type=");
    let k = e.kind;
    let low = k as u8;
    assert(low == k % 256) by (bit_vector)
        requires
            low == k as u8;
    out.push(48 + low % 10);
    if e.kind == E820_USABLE {
        push_str(out, " (usable)");
    }
    out.push(10);
    proof {
        assert(out@ =~= old(out)@ + entry_line(e));
    }
}

/// Text dump of the memory map, one line per entry.
pub fn print_map(es: &[E820Entry]) -> (r: Vec<u8>)
    ensures
        r@ == map_text(es@),
{
    let mut out: Vec<u8> = Vec::new();
    proof {
        reveal_strlit("E820 memory map:\n");
    }
    push_str(&mut out, "E820 memory map:\n");
    let mut i: usize = 0;
    while i < es.len()
        invariant
            i <= es@.len(),
            out@ == ascii("E820 memory map:\n"@) + map_lines(es@.subrange(0, i as int)),
        decreases es@.len() - i,
    {
        let ghost before = out@;
        push_entry_line(&mut out, es[i]);
        proof {
            assert(es@.subrange(0, i + 1).drop_last() =~= es@.subrange(0, i as int));
            assert(out@ =~= ascii("E820 memory map:\n"@) + map_lines(es@.subrange(0, i + 1)));
        }
        i += 1;
    }
    proof {
        assert(es@.subrange(0, es@.len() as int) =~= es@);
    }
    out
}

} // verus!
