//! NUL-terminated byte strings held in fixed buffers.
use vstd::prelude::*;

verus! {

/// `n` is the index of the first NUL byte of `s`.
pub open spec fn is_cstr_len(s: Seq<u8>, n: int) -> bool {
    &&& 0 <= n < s.len()
    &&& s[n] == 0
    &&& forall|i: int| 0 <= i < n ==> s[i] != 0
}

/// The buffer holds a NUL terminator somewhere.
pub open spec fn has_nul(s: Seq<u8>) -> bool {
    exists|i: int| 0 <= i < s.len() && s[i] == 0
}

/// Length of the C string stored at the start of `s`.
pub open spec fn cstr_len(s: Seq<u8>) -> int {
    choose|n: int| is_cstr_len(s, n)
}

/// The bytes before the first NUL.
pub open spec fn cstr(s: Seq<u8>) -> Seq<u8> {
    s.subrange(0, cstr_len(s))
}

pub proof fn lemma_cstr_len_unique(s: Seq<u8>, n: int)
    requires
        is_cstr_len(s, n),
    ensures
        cstr_len(s) == n,
{
    let m = cstr_len(s);
    assert(is_cstr_len(s, m));
    if m < n {
        assert(s[m] != 0);
    } else if n < m {
        assert(s[n] != 0);
    }
}

pub proof fn lemma_has_nul_len(s: Seq<u8>)
    requires
        has_nul(s),
    ensures
        is_cstr_len(s, cstr_len(s)),
    decreases s.len(),
{
    let k = choose|i: int| 0 <= i < s.len() && s[i] == 0;
    lemma_first_nul(s, k);
}

proof fn lemma_first_nul(s: Seq<u8>, k: int)
    requires
        0 <= k < s.len(),
        s[k] == 0,
    ensures
        is_cstr_len(s, cstr_len(s)),
    decreases k,
{
    if forall|i: int| 0 <= i < k ==> s[i] != 0 {
        assert(is_cstr_len(s, k));
    } else {
        let j = choose|i: int| 0 <= i < k && s[i] == 0;
        lemma_first_nul(s, j);
    }
}

/// Number of bytes before the terminating NUL.
pub fn strlen(s: &[u8]) -> (n: usize)
    requires
        has_nul(s@),
    ensures
        n == cstr_len(s@),
        is_cstr_len(s@, n as int),
{
    proof { lemma_has_nul_len(s@); }
    let mut i: usize = 0;
    while s[i] != 0
        invariant
            is_cstr_len(s@, cstr_len(s@)),
            0 <= i <= cstr_len(s@),
        decreases cstr_len(s@) - i,
    {
        i += 1;
    }
    i
}


/// Reverses the C string in place; the terminator and the bytes after it stay.
pub fn reverse(s: &mut [u8])
    requires
        has_nul(old(s)@),
    ensures
        final(s)@.len() == old(s)@.len(),
        cstr_len(final(s)@) == cstr_len(old(s)@),
        is_cstr_len(final(s)@, cstr_len(old(s)@)),
        cstr(final(s)@) == cstr(old(s)@).reverse(),
        final(s)@.subrange(cstr_len(old(s)@), old(s)@.len() as int)
            == old(s)@.subrange(cstr_len(old(s)@), old(s)@.len() as int),
{
    let len = strlen(s);
    let ghost orig = s@;
    if len == 0 {
        return;
    }
    let mut i: usize = 0;
    let mut j: usize = len - 1;
    while i < j
        invariant
            orig.len() == s@.len(),
            is_cstr_len(orig, len as int),
            len == cstr_len(orig),
            0 <= i <= len,
            j < len,
            i + j == len - 1,
            forall|k: int| 0 <= k < i ==> s@[k] == orig[len - 1 - k],
            forall|k: int| j < k < len ==> s@[k] == orig[len - 1 - k],
            forall|k: int| i <= k <= j ==> s@[k] == orig[k],
            forall|k: int| len <= k < orig.len() ==> s@[k] == orig[k],
        decreases len - i,
    {
        let c = s[i];
        let d = s[j];
        s[i] = d;
        s[j] = c;
        i += 1;
        j -= 1;
    }
    proof {
        assert forall|k: int| 0 <= k < len implies s@[k] != 0 by {
            if k < i {
                assert(orig[len - 1 - k] != 0);
            } else if k > j {
                assert(orig[len - 1 - k] != 0);
            } else {
                assert(orig[k] != 0);
            }
        }
        assert(is_cstr_len(s@, len as int));
        lemma_cstr_len_unique(s@, len as int);
        assert(cstr(s@) =~= cstr(orig).reverse());
        assert(s@.subrange(len as int, s@.len() as int) =~= orig.subrange(len as int, orig.len() as int));
    }
}

/// Decimal digits of `n`, least significant first.
pub open spec fn rev_digits(n: nat) -> Seq<u8>
    decreases n,
{
    if n < 10 {
        seq![(n + 48) as u8]
    } else {
        seq![((n % 10) + 48) as u8] + rev_digits(n / 10)
    }
}

/// Decimal text of `n`: an optional `-` followed by the digits.
pub open spec fn dec_str(n: int) -> Seq<u8> {
    if n < 0 {
        seq![45u8] + rev_digits((-n) as nat).reverse()
    } else {
        rev_digits(n as nat).reverse()
    }
}

proof fn lemma_rev_digits_nonzero(n: nat)
    ensures
        rev_digits(n).len() >= 1,
        forall|i: int| 0 <= i < rev_digits(n).len() ==> 48 <= #[trigger] rev_digits(n)[i] <= 57,
    decreases n,
{
    if n >= 10 {
        lemma_rev_digits_nonzero(n / 10);
    }
}

proof fn lemma_rev_digits_len(n: nat)
    requires
        n < 0x8000_0000,
    ensures
        rev_digits(n).len() <= 10,
{
    reveal_with_fuel(rev_digits, 11);
}

/// The decimal text of an `i32` other than `i32::MIN` has at most 11 bytes.
pub proof fn lemma_dec_str_len(n: i32)
    requires
        n != i32::MIN,
    ensures
        1 <= dec_str(n as int).len() <= 11,
{
    if n < 0 {
        lemma_rev_digits_len((-n) as nat);
        lemma_rev_digits_nonzero((-n) as nat);
    } else {
        lemma_rev_digits_len(n as nat);
        lemma_rev_digits_nonzero(n as nat);
    }
}

/// Writes the decimal text of `n` followed by a NUL at the start of `s`.
pub fn int_to_ascii(n: i32, s: &mut [u8])
    requires
        n != i32::MIN,
        dec_str(n as int).len() < old(s)@.len(),
    ensures
        final(s)@.len() == old(s)@.len(),
        is_cstr_len(final(s)@, dec_str(n as int).len() as int),
        cstr(final(s)@) == dec_str(n as int),
        final(s)@.subrange(dec_str(n as int).len() as int + 1, old(s)@.len() as int)
            == old(s)@.subrange(dec_str(n as int).len() as int + 1, old(s)@.len() as int),
{
    let sign = n;
    let mut m: i32 = if n < 0 { -n } else { n };
    let ghost orig: nat = m as nat;
    let mut i: usize = 0;
    proof {
        lemma_rev_digits_nonzero(orig);
        lemma_rev_digits_len(orig);
    }
    loop
        invariant_except_break
            0 <= m,
            m as nat <= orig,
            i as int + rev_digits(m as nat).len() == rev_digits(orig).len(),
            s@.subrange(0, i as int) + rev_digits(m as nat) == rev_digits(orig),
        invariant
            orig == (if n < 0 { -n } else { n as int }),
            s@.len() == old(s)@.len(),
            dec_str(n as int).len() < s@.len(),
            rev_digits(orig).len() <= 10,
            forall|k: int| i <= k < s@.len() ==> #[trigger] s@[k] == old(s)@[k],
        ensures
            i == rev_digits(orig).len(),
            s@.subrange(0, i as int) == rev_digits(orig),
        decreases m,
    {
        proof {
            lemma_rev_digits_nonzero(m as nat);
            assert(dec_str(n as int).len() >= rev_digits(orig).len());
        }
        let ghost before = s@;
        let d = (m % 10) as u8;
        s[i] = d + 48;
        i += 1;
        let last = m < 10;
        proof {
            if !last {
                assert(rev_digits(m as nat) == seq![((m % 10) + 48) as u8] + rev_digits((m / 10) as nat));
            }
            assert(s@.subrange(0, i as int) =~= before.subrange(0, i - 1) + seq![((m % 10) + 48) as u8]);
        }
        m = m / 10;
        if last {
            proof {
                assert(s@.subrange(0, i as int) =~= rev_digits(orig));
            }
            break;
        }
        proof {
            assert(s@.subrange(0, i as int) + rev_digits(m as nat) =~= rev_digits(orig));
        }
    }
    let ghost digits = s@.subrange(0, i as int);
    proof {
        assert forall|k: int| 0 <= k < i implies s@[k] == rev_digits(orig)[k] by {
            assert(s@[k] == digits[k]);
        }
    }
    if sign < 0 {
        s[i] = 45;
        i += 1;
    }
    s[i] = 0;
    let ghost before_rev = s@;
    proof {
        assert(before_rev.subrange(i + 1, before_rev.len() as int) =~= old(s)@.subrange(i + 1, before_rev.len() as int));
        let r = rev_digits(orig);
        assert(forall|k: int| 0 <= k < r.len() ==> 48 <= #[trigger] r[k] <= 57);
        assert forall|k: int| 0 <= k < i implies s@[k] != 0 by {
            if k < r.len() {
                assert(48 <= r[k]);
            }
        }
        assert(is_cstr_len(s@, i as int));
        lemma_cstr_len_unique(s@, i as int);
        if sign < 0 {
            assert(cstr(s@) =~= r.push(45u8));
            assert(r.push(45u8).reverse() =~= seq![45u8] + r.reverse());
        } else {
            assert(cstr(s@) =~= r);
        }
    }
    reverse(s);
    proof {
        let r = rev_digits(orig);
        if sign < 0 {
            assert(r.push(45u8).reverse() =~= seq![45u8] + r.reverse());
        }
        assert(s@.subrange(i + 1, s@.len() as int) =~= s@.subrange(i as int, s@.len() as int).subrange(1, s@.len() - i));
        assert(before_rev.subrange(i + 1, s@.len() as int) =~= before_rev.subrange(i as int, s@.len() as int).subrange(1, s@.len() - i));
    }
}


/// Stores `c` at the terminator and a new terminator after it.
pub fn append(s: &mut [u8], c: u8)
    requires
        has_nul(old(s)@),
        cstr_len(old(s)@) + 1 < old(s)@.len(),
    ensures
        final(s)@ == old(s)@.update(cstr_len(old(s)@), c).update(cstr_len(old(s)@) + 1, 0u8),
        c != 0 ==> is_cstr_len(final(s)@, cstr_len(old(s)@) + 1),
        c != 0 ==> cstr(final(s)@) == cstr(old(s)@).push(c),
{
    let len = strlen(s);
    s[len] = c;
    s[len + 1] = 0;
    proof {
        if c != 0 {
            assert(is_cstr_len(s@, len + 1));
            lemma_cstr_len_unique(s@, len + 1);
            assert(cstr(s@) =~= cstr(old(s)@).push(c));
        }
    }
}

/// Drops the last byte of the C string, if there is one.
pub fn backspace(s: &mut [u8])
    requires
        has_nul(old(s)@),
    ensures
        cstr_len(old(s)@) > 0 ==> final(s)@ == old(s)@.update(cstr_len(old(s)@) - 1, 0u8),
        cstr_len(old(s)@) == 0 ==> final(s)@ == old(s)@,
        is_cstr_len(final(s)@, if cstr_len(old(s)@) > 0 { cstr_len(old(s)@) - 1 } else { 0 }),
        cstr(final(s)@) == cstr(old(s)@).subrange(0, if cstr_len(old(s)@) > 0 { cstr_len(old(s)@) - 1 } else { 0 }),
{
    let len = strlen(s);
    if len > 0 {
        s[len - 1] = 0;
    }
    proof {
        let n = if len > 0 { len - 1 } else { 0 };
        assert(is_cstr_len(s@, n as int));
        lemma_cstr_len_unique(s@, n as int);
        assert(cstr(s@) =~= cstr(old(s)@).subrange(0, n as int));
    }
}

/// Result of comparing the C strings of `a` and `b` from position `i` on:
/// the difference of the first differing bytes, or 0 when both end together.
pub open spec fn compare_from(a: Seq<u8>, b: Seq<u8>, i: int) -> int
    decreases a.len() - i,
{
    if i < 0 || i >= a.len() || i >= b.len() {
        0
    } else if a[i] != b[i] {
        a[i] - b[i]
    } else if a[i] == 0 {
        0
    } else {
        compare_from(a, b, i + 1)
    }
}

/// `compare_from` at a machine index.
pub open spec fn compare_at(a: Seq<u8>, b: Seq<u8>, i: usize) -> int {
    compare_from(a, b, i as int)
}

/// Difference of two bytes as a signed value.
fn byte_diff(a: u8, b: u8) -> (r: i32)
    ensures
        r == a - b,
{
    a as i32 - b as i32
}

proof fn lemma_compare_exit(a: Seq<u8>, b: Seq<u8>, i: int, la: int, lb: int)
    requires
        is_cstr_len(a, la),
        is_cstr_len(b, lb),
        0 <= i <= la,
        i <= lb,
        forall|k: int| 0 <= k < i ==> a[k] == b[k],
        a[i] != b[i],
    ensures
        compare_from(a, b, i) == a[i] - b[i],
        cstr(a) != cstr(b),
{
    lemma_cstr_len_unique(a, la);
    lemma_cstr_len_unique(b, lb);
    if cstr(a) == cstr(b) {
        if i < la && i < lb {
            assert(cstr(a)[i] == cstr(b)[i]);
        } else if i == la {
            assert(b[i] != 0);
            assert(i < lb);
            assert(cstr(a).len() < cstr(b).len());
        } else {
            assert(a[i] != 0);
            assert(cstr(b).len() < cstr(a).len());
        }
    }
}

proof fn lemma_compare_equal(a: Seq<u8>, b: Seq<u8>, i: int, la: int, lb: int)
    requires
        is_cstr_len(a, la),
        is_cstr_len(b, lb),
        0 <= i <= la,
        i <= lb,
        forall|k: int| 0 <= k < i ==> a[k] == b[k],
        a[i] == b[i],
        a[i] == 0,
    ensures
        compare_from(a, b, i) == 0,
        cstr(a) == cstr(b),
{
    lemma_cstr_len_unique(a, la);
    lemma_cstr_len_unique(b, lb);
    assert(cstr(a) =~= cstr(b));
}

/// Compares two C strings byte by byte.
pub fn strcmp(s1: &[u8], s2: &[u8]) -> (r: i32)
    requires
        has_nul(s1@),
        has_nul(s2@),
    ensures
        r == compare_from(s1@, s2@, 0),
        r == 0 <==> cstr(s1@) == cstr(s2@),
{
    proof {
        lemma_has_nul_len(s1@);
        lemma_has_nul_len(s2@);
    }
    let ghost l1 = cstr_len(s1@);
    let ghost l2 = cstr_len(s2@);
    let mut i: usize = 0;
    while s1[i] == s2[i]
        invariant
            is_cstr_len(s1@, l1),
            is_cstr_len(s2@, l2),
            i <= l1,
            i <= l2,
            forall|k: int| 0 <= k < i ==> s1@[k] == s2@[k],
            compare_from(s1@, s2@, 0) == compare_at(s1@, s2@, i),
        decreases l1 - i,
    {
        if s1[i] == 0 {
            proof {
                lemma_compare_equal(s1@, s2@, compare_at_index(i), l1, l2);
            }
            return 0;
        }
        i += 1;
    }
    proof {
        lemma_compare_exit(s1@, s2@, compare_at_index(i), l1, l2);
    }
    byte_diff(s1[i], s2[i])
}

/// A machine index as a mathematical one.
pub open spec fn compare_at_index(i: usize) -> int {
    i as int
}

/// Lowercase hex digit for a nibble.
pub open spec fn hex_char(d: u8) -> u8 {
    if d >= 10 { (d - 10 + 97) as u8 } else { (d + 48) as u8 }
}

/// The nibble of `v` that starts at bit `sh`.
pub open spec fn nibble(v: u32, sh: int) -> u8 {
    ((v >> (sh as u32)) & 0xF) as u8
}

/// Bit position of the highest nonzero nibble of `v` at or below `sh`
/// (0 when all of them are zero).
pub open spec fn hex_top(v: u32, sh: int) -> int
    decreases sh + 4,
{
    if sh <= 0 {
        0
    } else if nibble(v, sh) != 0 {
        sh
    } else {
        hex_top(v, sh - 4)
    }
}

/// Hex digits of the nibbles at `sh`, `sh - 4`, ..., 0.
pub open spec fn hex_from(v: u32, sh: int) -> Seq<u8>
    decreases sh + 4,
{
    if sh < 0 {
        Seq::empty()
    } else {
        seq![hex_char(nibble(v, sh))] + hex_from(v, sh - 4)
    }
}

/// Hex digits of `v` without leading zeros (at least one digit).
pub open spec fn hex_str(v: u32) -> Seq<u8> {
    hex_from(v, hex_top(v, 28))
}

proof fn lemma_hex_from_len(v: u32, sh: int)
    requires
        sh >= -4,
    ensures
        hex_from(v, sh).len() == (sh + 4) / 4,
    decreases sh + 4,
{
    if sh >= 0 {
        lemma_hex_from_len(v, sh - 4);
    }
}

proof fn lemma_hex_top_range(v: u32, sh: int)
    requires
        sh >= 0,
        sh % 4 == 0,
    ensures
        0 <= hex_top(v, sh) <= sh,
        hex_top(v, sh) % 4 == 0,
    decreases sh,
{
    if sh > 0 {
        lemma_hex_top_range(v, sh - 4);
    }
}

/// Hex text of a 32-bit value has 1 to 8 digits.
pub proof fn lemma_hex_str_len(v: u32)
    ensures
        1 <= hex_str(v).len() <= 8,
{
    lemma_hex_top_range(v, 28);
    lemma_hex_from_len(v, hex_top(v, 28));
}

/// Appends `0x` and the hex digits of `n` (as an unsigned 32-bit value) to the
/// C string in `s`.
pub fn hex_to_ascii(n: i32, s: &mut [u8])
    requires
        has_nul(old(s)@),
        cstr_len(old(s)@) + 2 + hex_str(n as u32).len() < old(s)@.len(),
    ensures
        final(s)@.len() == old(s)@.len(),
        is_cstr_len(final(s)@, cstr_len(old(s)@) + 2 + hex_str(n as u32).len()),
        cstr(final(s)@) == cstr(old(s)@) + seq![48u8, 120u8] + hex_str(n as u32),
        forall|k: int| cstr_len(old(s)@) + 2 + hex_str(n as u32).len() < k < old(s)@.len()
            ==> #[trigger] final(s)@[k] == old(s)@[k],
{
    let v: u32 = n as u32;
    let ghost top = hex_top(v, 28);
    proof {
        lemma_hex_top_range(v, 28);
        lemma_hex_from_len(v, top);
        lemma_has_nul_len(s@);
    }
    let ghost base = cstr(s@);
    let ghost l0 = cstr_len(s@);
    append(s, 48);
    proof {
        lemma_cstr_len_unique(s@, l0 + 1);
    }
    append(s, 120);
    proof {
        lemma_cstr_len_unique(s@, l0 + 2);
    }
    let ghost base2 = base + seq![48u8, 120u8];
    assert(cstr(s@) =~= base2);
    let mut zeros = false;
    let mut i: u32 = 28;
    while i > 0
        invariant
            s@.len() == old(s)@.len(),
            base.len() + 2 + hex_from(v, top).len() < s@.len(),
            i % 4 == 0,
            i <= 28,
            0 <= top <= 28,
            top % 4 == 0,
            hex_from(v, top).len() == (top + 4) / 4,
            is_cstr_len(s@, cstr_len(s@)),
            base2.len() == base.len() + 2,
            !zeros ==> hex_top(v, i as int) == top && cstr(s@) == base2,
            zeros ==> i < top + 4 && cstr(s@) + hex_from(v, i as int) == base2 + hex_from(v, top),
            forall|k: int| cstr_len(s@) < k < s@.len() ==> #[trigger] s@[k] == old(s)@[k],
        decreases i,
    {
        let tmp = ((v >> i) & 0xF) as u8;
        assert(tmp == nibble(v, i as int));
        if tmp == 0 && !zeros {
            i -= 4;
            continue;
        }
        let ghost before = cstr(s@);
        proof {
            assert(tmp < 16) by (bit_vector)
                requires tmp == ((v >> i) & 0xF) as u8;
            if !zeros {
                assert(top == i);
            }
            lemma_hex_from_len(v, i - 4);
            lemma_hex_from_len(v, i as int);
            assert(hex_from(v, i as int) == seq![hex_char(tmp)] + hex_from(v, i - 4));
        }
        zeros = true;
        let c = if tmp >= 0xA { tmp - 0xA + 97 } else { tmp + 48 };
        let ghost lb = cstr_len(s@);
        append(s, c);
        proof {
            lemma_cstr_len_unique(s@, lb + 1);
            assert(cstr(s@) + hex_from(v, i - 4) =~= before + hex_from(v, i as int));
        }
        i -= 4;
    }
    let tmp = (v & 0xF) as u8;
    proof {
        assert(tmp < 16) by (bit_vector)
            requires tmp == (v & 0xF) as u8;
        assert(tmp == nibble(v, 0)) by (bit_vector)
            requires tmp == (v & 0xF) as u8;
        lemma_hex_from_len(v, 0);
        assert(hex_from(v, 0) =~= seq![hex_char(tmp)]);
        if !zeros {
            assert(top == 0);
        }
    }
    let c = if tmp >= 0xA { tmp - 0xA + 97 } else { tmp + 48 };
    let ghost before = cstr(s@);
    let ghost lb = cstr_len(s@);
    append(s, c);
    proof {
        lemma_cstr_len_unique(s@, lb + 1);
        assert(cstr(s@) =~= before.push(c));
        assert(cstr(s@) =~= base + seq![48u8, 120u8] + hex_str(v));
        assert(is_cstr_len(s@, cstr(s@).len() as int));
    }
}

} // verus!
