//! Building console text: ASCII literals, decimal and hex numbers.
use vstd::prelude::*;
use vstd::string::{is_ascii, is_ascii_spec_bytes};
use crate::string::{cstr, cstr_len, is_cstr_len, int_to_ascii, hex_to_ascii, dec_str, hex_str};

verus! {

/// The bytes of ASCII text.
pub open spec fn ascii(s: Seq<char>) -> Seq<u8> {
    Seq::new(s.len(), |i: int| s[i] as u8)
}

/// Appends the bytes of the ASCII string `s`.
pub fn push_str(out: &mut Vec<u8>, s: &str)
    requires
        is_ascii(s),
    ensures
        final(out)@ == old(out)@ + ascii(s@),
{
    proof {
        is_ascii_spec_bytes(s);
    }
    let b = s.as_bytes();
    let mut i: usize = 0;
    while i < b.len()
        invariant
            i <= b@.len(),
            b@ == ascii(s@),
            out@ == old(out)@ + b@.subrange(0, i as int),
        decreases b@.len() - i,
    {
        out.push(b[i]);
        i += 1;
        proof {
            assert(out@ =~= old(out)@ + b@.subrange(0, i as int));
        }
    }
    proof {
        assert(b@.subrange(0, i as int) =~= b@);
    }
}

/// Appends the C string at the start of `buf`.
fn push_cstr(out: &mut Vec<u8>, buf: &[u8], n: usize)
    requires
        is_cstr_len(buf@, n as int),
    ensures
        final(out)@ == old(out)@ + buf@.subrange(0, n as int),
{
    let mut i: usize = 0;
    while i < n
        invariant
            i <= n < buf@.len(),
            out@ == old(out)@ + buf@.subrange(0, i as int),
        decreases n - i,
    {
        out.push(buf[i]);
        i += 1;
        proof {
            assert(out@ =~= old(out)@ + buf@.subrange(0, i as int));
        }
    }
}

/// Appends the decimal text of `n`.
pub fn push_dec(out: &mut Vec<u8>, n: i32)
    requires
        n != i32::MIN,
    ensures
        final(out)@ == old(out)@ + dec_str(n as int),
{
    let mut buf = [0u8; 12];
    proof {
        crate::string::lemma_dec_str_len(n);
    }
    int_to_ascii(n, &mut buf);
    let k = crate::string::strlen(&buf);
    proof {
        crate::string::lemma_cstr_len_unique(buf@, dec_str(n as int).len() as int);
    }
    push_cstr(out, &buf, k);
}

/// Appends `0x` and the hex digits of `n`.
pub fn push_hex(out: &mut Vec<u8>, n: u32)
    ensures
        final(out)@ == old(out)@ + seq![48u8, 120u8] + hex_str(n),
{
    let mut buf = [0u8; 12];
    proof {
        crate::string::lemma_hex_str_len(n);
        assert(is_cstr_len(buf@, 0));
        crate::string::lemma_cstr_len_unique(buf@, 0);
        assert(crate::string::has_nul(buf@));
    }
    let m = n as i32;
    assert(m as u32 == n) by (bit_vector)
        requires
            m == n as i32;
    hex_to_ascii(m, &mut buf);
    let k = crate::string::strlen(&buf);
    proof {
        crate::string::lemma_cstr_len_unique(buf@, 2 + hex_str(n).len() as int);
    }
    push_cstr(out, &buf, k);
    proof {
        assert(buf@.subrange(0, k as int) == cstr(buf@));
        assert(old(out)@ + cstr(buf@) =~= old(out)@ + seq![48u8, 120u8] + hex_str(n));
    }
}

} // verus!
