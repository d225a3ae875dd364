//! The first kernel's line handler (type END to halt, PAGE to try the bump
//! allocator) and the busy-wait the demo threads use.
use vstd::prelude::*;
use crate::mem::{BumpAlloc, bump_start};
use crate::string::{has_nul, cstr, cstr_len, is_cstr_len, lemma_has_nul_len, lemma_cstr_len_unique, strcmp, hex_str};
use crate::text::{ascii, push_str, push_hex};

verus! {

/// Iterations of the busy-wait.
pub const SPIN_ITERATIONS: u32 = 800_000;

/// `core::hint::spin_loop`: a hint to the CPU inside a busy-wait; it has
/// no effect that the library relies on.
#[verifier::external_body]
fn relax() {
    core::hint::spin_loop();
}

/// Busy-waits for `SPIN_ITERATIONS` spin-loop hints.
pub fn spin_delay() {
    let mut i: u32 = 0;
    while i < SPIN_ITERATIONS
        invariant
            i <= SPIN_ITERATIONS,
        decreases SPIN_ITERATIONS - i,
    {
        relax();
        i += 1;
    }
}

/// What the handler answers: the serial text, the screen text, whether the
/// CPU is to stop for good, and the screen text that follows (none when it
/// stops).
pub struct InputReply {
    pub serial: Vec<u8>,
    pub screen: Vec<u8>,
    pub halt: bool,
    pub screen_after: Vec<u8>,
}

pub open spec fn end_word() -> Seq<u8> {
    seq![69u8, 78, 68]
}

pub open spec fn page_word() -> Seq<u8> {
    seq![80u8, 65, 71, 69]
}

/// Copies the C string at the start of `buf`.
fn copy_line(buf: &[u8]) -> (r: Vec<u8>)
    requires
        has_nul(buf@),
    ensures
        r@ == cstr(buf@),
{
    proof {
        lemma_has_nul_len(buf@);
    }
    let n = crate::string::strlen(buf);
    let mut out: Vec<u8> = Vec::new();
    let mut i: usize = 0;
    while i < n
        invariant
            i <= n,
            n == cstr_len(buf@),
            n < buf@.len(),
            out@ == buf@.subrange(0, i as int),
        decreases n - i,
    {
        out.push(buf[i]);
        i += 1;
        proof {
            assert(out@ =~= buf@.subrange(0, i as int));
        }
    }
    out
}

/// The two C strings hold the same text.
fn same_line(line: &[u8], lit: &[u8]) -> (r: bool)
    requires
        has_nul(line@),
        has_nul(lit@),
    ensures
        r == (cstr(line@) == cstr(lit@)),
{
    strcmp(line, lit) == 0
}

/// Handles a typed line (NUL-terminated): echoes it to the serial log;
/// on `END` says goodbye and asks for the CPU to stop, with nothing after;
/// otherwise takes a page from the bump allocator on `PAGE` and shows its
/// address, then repeats the line back with a new prompt.
pub fn user_input(line: &[u8], mem: &mut BumpAlloc) -> (r: InputReply)
    requires
        has_nul(line@),
        cstr(line@) == page_word() ==> bump_start(old(mem).free_mem_addr, 1) + 1000 <= u32::MAX,
    ensures
        r.serial@ == ascii("cmd: "@) + cstr(line@) + seq![10u8]
            + (if cstr(line@) == end_word() { ascii("halt.\n"@) } else { Seq::empty() }),
        r.halt == (cstr(line@) == end_word()),
        cstr(line@) == end_word() ==> r.screen@ == ascii("Stopping the CPU. Bye!\n"@) && *final(mem) == *old(mem),
        cstr(line@) == page_word() ==> ({
            let p = bump_start(old(mem).free_mem_addr, 1);
            &&& final(mem).free_mem_addr == p + 1000
            &&& r.screen@ == ascii("Page: "@) + seq![48u8, 120u8] + hex_str(p as u32) + ascii(", physical address: "@)
                + seq![48u8, 120u8] + hex_str(p as u32) + seq![10u8]
        }),
        cstr(line@) != end_word() && cstr(line@) != page_word() ==> r.screen@.len() == 0 && *final(mem) == *old(mem),
        cstr(line@) == end_word() ==> r.screen_after@.len() == 0,
        cstr(line@) != end_word() ==> r.screen_after@ == ascii("You said: "@) + cstr(line@) + ascii("\n> "@),
{
    let text = copy_line(line);
    let mut serial: Vec<u8> = Vec::new();
    let mut screen: Vec<u8> = Vec::new();
    let mut halt = false;
    proof {
        reveal_strlit("cmd: ");
        reveal_strlit("halt.\n");
        reveal_strlit("Stopping the CPU. Bye!\n");
        reveal_strlit("Page: ");
        reveal_strlit(", physical address: ");
        reveal_strlit("You said: ");
        reveal_strlit("\n> ");
    }
    push_str(&mut serial, "cmd: ");
    let mut i: usize = 0;
    let ghost s0 = serial@;
    while i < text.len()
        invariant
            i <= text@.len(),
            serial@ == s0 + text@.subrange(0, i as int),
        decreases text@.len() - i,
    {
        serial.push(text[i]);
        i += 1;
        proof {
            assert(serial@ =~= s0 + text@.subrange(0, i as int));
        }
    }
    serial.push(10);
    proof {
        assert(text@.subrange(0, text@.len() as int) =~= text@);
    }
    let end_lit: [u8; 4] = [69, 78, 68, 0];
    let page_lit: [u8; 5] = [80, 65, 71, 69, 0];
    proof {
        assert(is_cstr_len(end_lit@, 3));
        lemma_cstr_len_unique(end_lit@, 3);
        assert(cstr(end_lit@) =~= end_word());
        assert(is_cstr_len(page_lit@, 4));
        lemma_cstr_len_unique(page_lit@, 4);
        assert(cstr(page_lit@) =~= page_word());
    }
    if same_line(line, &end_lit) {
        push_str(&mut screen, "Stopping the CPU. Bye!\n");
        push_str(&mut serial, "halt.\n");
        halt = true;
    } else if same_line(line, &page_lit) {
        let page = mem.kmalloc(1000, 1);
        let phys = page;
        push_str(&mut screen, "Page: ");
        push_hex(&mut screen, page);
        push_str(&mut screen, ", physical address: ");
        push_hex(&mut screen, phys);
        screen.push(10);
    }
    let mut after: Vec<u8> = Vec::new();
    push_str(&mut after, "You said: ");
    let ghost a0 = after@;
    let mut j: usize = 0;
    while j < text.len()
        invariant
            j <= text@.len(),
            after@ == a0 + text@.subrange(0, j as int),
        decreases text@.len() - j,
    {
        after.push(text[j]);
        j += 1;
        proof {
            assert(after@ =~= a0 + text@.subrange(0, j as int));
        }
    }
    push_str(&mut after, "\n> ");
    proof {
        assert(text@.subrange(0, text@.len() as int) =~= text@);
        if cstr(line@) == end_word() {
            assert(serial@ =~= ascii("cmd: "@) + cstr(line@) + seq![10u8] + ascii("halt.\n"@));
        } else {
            assert(serial@ =~= ascii("cmd: "@) + cstr(line@) + seq![10u8] + Seq::<u8>::empty());
        }
        assert(after@ =~= ascii("You said: "@) + cstr(line@) + ascii("\n> "@));
    }
    if halt {
        after = Vec::new();
    }
    InputReply { serial, screen, halt, screen_after: after }
}

} // verus!
