//! COM1 serial console: 38400 baud 8N1, receive interrupt on. Text goes out
//! with `\n` turned into `\r\n`.
use vstd::prelude::*;
use crate::string::{has_nul, cstr, cstr_len, is_cstr_len, lemma_has_nul_len};

verus! {

pub const COM1: u16 = 0x3F8;

/// The line as sent: every `\n` preceded by `\r`.
pub open spec fn crlf(s: Seq<u8>) -> Seq<u8>
    decreases s.len(),
{
    if s.len() == 0 {
        s
    } else if s.last() == 10 {
        crlf(s.drop_last()) + seq![13u8, 10u8]
    } else {
        crlf(s.drop_last()).push(s.last())
    }
}

/// The bytes to send for the NUL-terminated string `s`.
pub fn serial_encode(s: &[u8]) -> (r: Vec<u8>)
    requires
        has_nul(s@),
    ensures
        r@ == crlf(cstr(s@)),
{
    proof {
        lemma_has_nul_len(s@);
    }
    let ghost n = cstr_len(s@);
    let mut out: Vec<u8> = Vec::new();
    let mut i: usize = 0;
    while s[i] != 0
        invariant
            is_cstr_len(s@, n),
            i <= n,
            out@ == crlf(s@.subrange(0, i as int)),
        decreases n - i,
    {
        proof {
            assert(s@.subrange(0, i + 1).drop_last() =~= s@.subrange(0, i as int));
        }
        if s[i] == 10 {
            out.push(13);
        }
        out.push(s[i]);
        i += 1;
        proof {
            assert(out@ =~= crlf(s@.subrange(0, i as int)));
        }
    }
    out
}

/// The transmit holding register is empty (line status bit 5).
pub fn tx_empty(line_status: u8) -> (r: bool)
    ensures
        r == (line_status & 0x20 != 0),
{
    line_status & 0x20 != 0
}

/// Port writes that set COM1 up: interrupts off, divisor 3, 8N1, FIFO on,
/// RTS/DSR, receive interrupt on.
pub fn init_sequence() -> (r: Vec<(u16, u8)>)
    ensures
        r@ == seq![
            (0x3F9u16, 0x00u8), (0x3FBu16, 0x80u8), (0x3F8u16, 0x03u8), (0x3F9u16, 0x00u8),
            (0x3FBu16, 0x03u8), (0x3FAu16, 0xC7u8), (0x3FCu16, 0x0Bu8), (0x3F9u16, 0x01u8),
        ],
{
    let mut v: Vec<(u16, u8)> = Vec::new();
    v.push((COM1 + 1, 0x00));
    v.push((COM1 + 3, 0x80));
    v.push((COM1, 0x03));
    v.push((COM1 + 1, 0x00));
    v.push((COM1 + 3, 0x03));
    v.push((COM1 + 2, 0xC7));
    v.push((COM1 + 4, 0x0B));
    v.push((COM1 + 1, 0x01));
    proof {
        assert(v@ =~= seq![
            (0x3F9u16, 0x00u8), (0x3FBu16, 0x80u8), (0x3F8u16, 0x03u8), (0x3F9u16, 0x00u8),
            (0x3FBu16, 0x03u8), (0x3FAu16, 0xC7u8), (0x3FCu16, 0x0Bu8), (0x3F9u16, 0x01u8),
        ]);
    }
    v
}

} // verus!
