//! The kernel command shell: parses a typed line and carries out the command.
//!
//! Commands: help, mem, ps, ls, cat <file>, run <file>, uptime, clear. The
//! shell answers with a `Reply`; printing it to the screen and the serial log
//! is the caller's part.
use vstd::prelude::*;
use crate::string::{has_nul, is_cstr_len, cstr, cstr_len, lemma_has_nul_len, strlen};
use crate::fat12::{read_file, read_file_spec, read_dir, read_dir_spec, names_view};
use crate::heap::{Heap, HEAP_BYTES, free_bytes, used_bytes};
use crate::pmm::{FrameAllocator, count_free};
use crate::task::{Scheduler, SpawnFrame, spawn_spec, state_code, TIMER_HZ, MAX_TASKS};
use crate::string::dec_str;
use crate::text::{ascii, push_str, push_dec};
use vstd::string::is_ascii;

verus! {

pub const SPACE: u8 = 32;
pub const DOT: u8 = 46;

/// ASCII upper case of one byte.
pub open spec fn upper_spec(c: u8) -> u8 {
    if 97 <= c <= 122 { (c - 32) as u8 } else { c }
}

/// Upper-cases an ASCII letter; leaves other bytes alone.
pub fn upper(c: u8) -> (r: u8)
    ensures
        r == upper_spec(c),
{
    if c >= 97 && c <= 122 { c - 32 } else { c }
}

/// The first word of `line` is `lit`: `line` starts with `lit`, followed by
/// the end of the line or a space.
pub open spec fn word_is(line: Seq<u8>, lit: Seq<u8>) -> bool {
    &&& lit.len() <= line.len()
    &&& line.subrange(0, lit.len() as int) == lit
    &&& (line.len() == lit.len() || line[lit.len() as int] == 32)
}

pub open spec fn no_nul(s: Seq<u8>) -> bool {
    forall|i: int| 0 <= i < s.len() ==> s[i] != 0
}

/// Does the first word of the NUL-terminated command line `s` equal `lit`?
pub fn cmd_is(s: &[u8], lit: &[u8]) -> (r: bool)
    requires
        has_nul(s@),
        no_nul(lit@),
    ensures
        r == word_is(cstr(s@), lit@),
{
    proof {
        lemma_has_nul_len(s@);
    }
    let ghost n = cstr_len(s@);
    let ghost line = cstr(s@);
    let mut i: usize = 0;
    while i < lit.len()
        invariant
            is_cstr_len(s@, n),
            line == s@.subrange(0, n),
            no_nul(lit@),
            i <= lit.len(),
            i <= n,
            forall|k: int| 0 <= k < i ==> s@[k] == lit@[k],
        decreases lit.len() - i,
    {
        if s[i] != lit[i] {
            proof {
                if lit.len() <= line.len() {
                    assert(line.subrange(0, lit.len() as int)[i as int] != lit@[i as int]);
                }
            }
            return false;
        }
        proof {
            assert(s@[i as int] != 0);
        }
        i += 1;
    }
    let c = s[lit.len()];
    proof {
        if c != 0 {
            assert(lit.len() < n);
        }
        if c == 0 {
            assert(lit.len() == n);
        }
        assert(line.subrange(0, lit.len() as int) =~= lit@);
    }
    c == 0 || c == SPACE
}

/// End of the word that starts at `i`: the first space at or after `i`, or
/// the end of the line.
pub open spec fn word_end(line: Seq<u8>, i: int) -> int
    decreases line.len() - i,
{
    if i < 0 || i >= line.len() || line[i] == 32 {
        i
    } else {
        word_end(line, i + 1)
    }
}

/// The first non-space at or after `i`, or the end of the line.
pub open spec fn spaces_end(line: Seq<u8>, i: int) -> int
    decreases line.len() - i,
{
    if i < 0 || i >= line.len() || line[i] != 32 {
        i
    } else {
        spaces_end(line, i + 1)
    }
}

/// Where the argument starts: after the first word and the spaces behind it.
pub open spec fn arg_start(line: Seq<u8>) -> int {
    spaces_end(line, word_end(line, 0))
}

proof fn lemma_word_end_bound(line: Seq<u8>, i: int)
    requires
        0 <= i <= line.len(),
    ensures
        i <= word_end(line, i) <= line.len(),
    decreases line.len() - i,
{
    if i < line.len() && line[i] != 32 {
        lemma_word_end_bound(line, i + 1);
    }
}

proof fn lemma_spaces_end_bound(line: Seq<u8>, i: int)
    requires
        0 <= i <= line.len(),
    ensures
        i <= spaces_end(line, i) <= line.len(),
    decreases line.len() - i,
{
    if i < line.len() && line[i] == 32 {
        lemma_spaces_end_bound(line, i + 1);
    }
}

/// Index in `s` where the argument of the command line starts (the text
/// after the first word and the spaces that follow it).
pub fn arg_of(s: &[u8]) -> (r: usize)
    requires
        has_nul(s@),
    ensures
        r == arg_start(cstr(s@)),
        r <= cstr_len(s@),
{
    proof {
        lemma_has_nul_len(s@);
    }
    let ghost n = cstr_len(s@);
    let ghost line = cstr(s@);
    let mut i: usize = 0;
    while s[i] != 0 && s[i] != SPACE
        invariant
            is_cstr_len(s@, n),
            line == s@.subrange(0, n),
            i <= n,
            word_end(line, 0) == word_end(line, i as int),
        decreases n - i,
    {
        i += 1;
    }
    let ghost w = i;
    while s[i] == SPACE
        invariant
            is_cstr_len(s@, n),
            line == s@.subrange(0, n),
            w <= i <= n,
            w == word_end(line, 0),
            spaces_end(line, w as int) == spaces_end(line, i as int),
        decreases n - i,
    {
        i += 1;
    }
    i
}

/// Position of the first `.` at or after `i`, or the end of the line.
pub open spec fn dot_pos(line: Seq<u8>, i: int) -> int
    decreases line.len() - i,
{
    if i < 0 || i >= line.len() || line[i] == 46 {
        i
    } else {
        dot_pos(line, i + 1)
    }
}

proof fn lemma_dot_pos(line: Seq<u8>, i: int)
    requires
        0 <= i <= line.len(),
    ensures
        i <= dot_pos(line, i) <= line.len(),
        forall|k: int| i <= k < dot_pos(line, i) ==> line[k] != 46,
        dot_pos(line, i) < line.len() ==> line[dot_pos(line, i)] == 46,
    decreases line.len() - i,
{
    if i < line.len() && line[i] != 46 {
        lemma_dot_pos(line, i + 1);
    }
}

/// The padded, upper-cased 8.3 form of a typed file name: up to 8 bytes
/// before the first dot, then up to 3 bytes after it, spaces elsewhere.
pub open spec fn name83(line: Seq<u8>) -> Seq<u8> {
    let d = dot_pos(line, 0);
    Seq::new(11, |k: int|
        if k < 8 {
            if k < d { upper_spec(line[k]) } else { 32u8 }
        } else if d < line.len() && d + 1 + (k - 8) < line.len() {
            upper_spec(line[d + 1 + (k - 8)])
        } else {
            32u8
        })
}

/// The 8.3 name of the file name that starts at index `start` of the
/// NUL-terminated `s`.
fn to_83_at(s: &[u8], start: usize) -> (r: [u8; 11])
    requires
        has_nul(s@),
        start <= cstr_len(s@),
    ensures
        r@ == name83(cstr(s@).subrange(start as int, cstr_len(s@))),
{
    proof {
        lemma_has_nul_len(s@);
    }
    let ghost n = cstr_len(s@);
    let ghost line = cstr(s@).subrange(start as int, n);
    proof {
        lemma_dot_pos(line, 0);
    }
    let ghost d = dot_pos(line, 0);
    let mut out = [SPACE; 11];
    let mut i: usize = start;
    let mut o: usize = 0;
    while s[i] != 0 && s[i] != DOT && o < 8
        invariant
            is_cstr_len(s@, n),
            start <= i <= n,
            line == s@.subrange(start as int, n),
            d == dot_pos(line, 0),
            0 <= d <= line.len(),
            forall|k: int| 0 <= k < d ==> line[k] != 46,
            d < line.len() ==> line[d] == 46,
            o == i - start,
            o <= 8,
            o <= d,
            out@.len() == 11,
            forall|k: int| 0 <= k < o ==> out@[k] == upper_spec(line[k]),
            forall|k: int| o <= k < 11 ==> out@[k] == 32,
        decreases n - i,
    {
        out[o] = upper(s[i]);
        i += 1;
        o += 1;
    }
    proof {
        if o < 8 {
            assert(o == d) by {
                if o < d {
                    assert(line[o as int] == s@[i as int]);
                }
            }
        }
    }
    while s[i] != 0 && s[i] != DOT
        invariant
            is_cstr_len(s@, n),
            start <= i <= n,
            line == s@.subrange(start as int, n),
            d == dot_pos(line, 0),
            0 <= d <= line.len(),
            forall|k: int| 0 <= k < d ==> line[k] != 46,
            d < line.len() ==> line[d] == 46,
            i - start <= d,
        decreases n - i,
    {
        i += 1;
    }
    proof {
        assert(i - start == d) by {
            if i - start < d {
                assert(line[i - start] == s@[i as int]);
            }
        }
    }
    if s[i] == DOT {
        i += 1;
    }
    let ghost e0 = i;
    let mut e: usize = 8;
    while s[i] != 0 && e < 11
        invariant
            is_cstr_len(s@, n),
            start <= i <= n,
            line == s@.subrange(start as int, n),
            d == dot_pos(line, 0),
            0 <= d <= line.len(),
            d < line.len() ==> e0 == start + d + 1,
            d == line.len() ==> e0 == n,
            i == e0 + (e - 8),
            8 <= e <= 11,
            out@.len() == 11,
            forall|k: int| 0 <= k < 8 ==> out@[k] == (if k < d { upper_spec(line[k]) } else { 32u8 }),
            forall|k: int| 8 <= k < e ==> out@[k] == upper_spec(line[d + 1 + (k - 8)]),
            forall|k: int| e <= k < 11 ==> out@[k] == 32,
        decreases n - i,
    {
        out[e] = upper(s[i]);
        i += 1;
        e += 1;
    }
    proof {
        assert forall|k: int| 0 <= k < 11 implies out@[k] == name83(line)[k] by {
            if 8 <= k && k >= e {
                if d < line.len() && d + 1 + (k - 8) < line.len() {
                    assert(s@[i as int] != 0);
                }
            }
        }
        assert(out@ =~= name83(line));
    }
    out
}

/// Converts a typed name like "hello.txt" in the NUL-terminated `name` to
/// the padded 8.3 form "HELLO   TXT".
pub fn to_83(name: &[u8]) -> (r: [u8; 11])
    requires
        has_nul(name@),
    ensures
        r@ == name83(cstr(name@)),
{
    proof {
        lemma_has_nul_len(name@);
        assert(cstr(name@).subrange(0, cstr_len(name@)) =~= cstr(name@));
    }
    to_83_at(name, 0)
}

/// Label of a task state code, as `ps` prints it.
pub open spec fn state_label(code: u8) -> Seq<char> {
    if code == 1 {
        seq!['r', 'e', 'a', 'd', 'y']
    } else if code == 2 {
        seq!['r', 'u', 'n', 'n', 'i', 'n', 'g']
    } else if code == 3 {
        seq!['b', 'l', 'o', 'c', 'k', 'e', 'd']
    } else if code == 4 {
        seq!['f', 'i', 'n', 'i', 's', 'h', 'e', 'd']
    } else {
        seq!['u', 'n', 'u', 's', 'e', 'd']
    }
}

/// Name of a task state code: 1 ready, 2 running, 3 blocked, 4 finished,
/// anything else unused.
pub fn state_name(code: u8) -> (r: &'static str)
    ensures
        r@ == state_label(code),
        is_ascii(r),
{
    match code {
        1 => {
            proof { reveal_strlit("ready"); }
            "ready"
        },
        2 => {
            proof { reveal_strlit("running"); }
            "running"
        },
        3 => {
            proof { reveal_strlit("blocked"); }
            "blocked"
        },
        4 => {
            proof { reveal_strlit("finished"); }
            "finished"
        },
        _ => {
            proof { reveal_strlit("unused"); }
            "unused"
        },
    }
}

/// The bytes of `s` that are not spaces, in order.
pub open spec fn non_spaces(s: Seq<u8>) -> Seq<u8>
    decreases s.len(),
{
    if s.len() == 0 {
        s
    } else if s.last() == 32 {
        non_spaces(s.drop_last())
    } else {
        non_spaces(s.drop_last()).push(s.last())
    }
}

/// How an 8.3 name reads: "NAME.EXT", padding dropped, no dot when the
/// extension is blank.
pub open spec fn name83_text(n: Seq<u8>) -> Seq<u8> {
    if n[8] != 32 {
        non_spaces(n.subrange(0, 8)).push(46u8) + non_spaces(n.subrange(8, 11))
    } else {
        non_spaces(n.subrange(0, 8))
    }
}

/// Appends the non-space bytes of `name[from..to]` to `out`.
fn push_non_spaces(out: &mut Vec<u8>, name: &[u8; 11], from: usize, to: usize)
    requires
        from <= to <= 11,
    ensures
        final(out)@ == old(out)@ + non_spaces(name@.subrange(from as int, to as int)),
{
    let mut i = from;
    while i < to
        invariant
            from <= i <= to <= 11,
            out@ == old(out)@ + non_spaces(name@.subrange(from as int, i as int)),
        decreases to - i,
    {
        proof {
            assert(name@.subrange(from as int, i + 1).drop_last() =~= name@.subrange(from as int, i as int));
        }
        if name[i] != SPACE {
            out.push(name[i]);
        }
        i += 1;
        proof {
            assert(out@ =~= old(out)@ + non_spaces(name@.subrange(from as int, i as int)));
        }
    }
}

/// The 11-byte 8.3 name as it is shown, "NAME.EXT".
pub fn name_83_text(name: &[u8; 11]) -> (r: Vec<u8>)
    ensures
        r@ == name83_text(name@),
{
    let mut out: Vec<u8> = Vec::new();
    push_non_spaces(&mut out, name, 0, 8);
    if name[8] != SPACE {
        out.push(DOT);
        push_non_spaces(&mut out, name, 8, 11);
    }
    proof {
        assert(out@ =~= name83_text(name@));
    }
    out
}

/// The shell's commands.
#[derive(Clone, Copy, PartialEq, Eq, Structural, Debug)]
pub enum CmdKind {
    Empty,
    Help,
    Mem,
    Ps,
    Ls,
    Cat,
    Run,
    Uptime,
    Clear,
    Unknown,
}

/// A parsed command line: the command and, for `cat` and `run`, the 8.3
/// name of its argument (spaces otherwise).
#[derive(Clone, Copy, Debug)]
pub struct Command {
    pub kind: CmdKind,
    pub name: [u8; 11],
}

pub open spec fn help_word() -> Seq<u8> { seq![104u8, 101, 108, 112] }
pub open spec fn mem_word() -> Seq<u8> { seq![109u8, 101, 109] }
pub open spec fn ps_word() -> Seq<u8> { seq![112u8, 115] }
pub open spec fn ls_word() -> Seq<u8> { seq![108u8, 115] }
pub open spec fn cat_word() -> Seq<u8> { seq![99u8, 97, 116] }
pub open spec fn run_word() -> Seq<u8> { seq![114u8, 117, 110] }
pub open spec fn uptime_word() -> Seq<u8> { seq![117u8, 112, 116, 105, 109, 101] }
pub open spec fn clear_word() -> Seq<u8> { seq![99u8, 108, 101, 97, 114] }

/// The command a line (without its NUL) names, tried in the order help,
/// mem, ps, ls, cat, run, uptime, clear.
pub open spec fn kind_of(line: Seq<u8>) -> CmdKind {
    if line.len() == 0 {
        CmdKind::Empty
    } else if word_is(line, help_word()) {
        CmdKind::Help
    } else if word_is(line, mem_word()) {
        CmdKind::Mem
    } else if word_is(line, ps_word()) {
        CmdKind::Ps
    } else if word_is(line, ls_word()) {
        CmdKind::Ls
    } else if word_is(line, cat_word()) {
        CmdKind::Cat
    } else if word_is(line, run_word()) {
        CmdKind::Run
    } else if word_is(line, uptime_word()) {
        CmdKind::Uptime
    } else if word_is(line, clear_word()) {
        CmdKind::Clear
    } else {
        CmdKind::Unknown
    }
}

/// The 8.3 name of the line's argument.
pub open spec fn arg83(line: Seq<u8>) -> Seq<u8> {
    name83(line.subrange(arg_start(line), line.len() as int))
}

/// Parses the NUL-terminated command line `s`.
pub fn parse_command(s: &[u8]) -> (r: Command)
    requires
        has_nul(s@),
    ensures
        r.kind == kind_of(cstr(s@)),
        r.kind == CmdKind::Cat || r.kind == CmdKind::Run ==> r.name@ == arg83(cstr(s@)),
{
    proof {
        lemma_has_nul_len(s@);
    }
    let blank = [SPACE; 11];
    let help: [u8; 4] = [104, 101, 108, 112];
    let mem: [u8; 3] = [109, 101, 109];
    let ps: [u8; 2] = [112, 115];
    let ls: [u8; 2] = [108, 115];
    let cat: [u8; 3] = [99, 97, 116];
    let run: [u8; 3] = [114, 117, 110];
    let uptime: [u8; 6] = [117, 112, 116, 105, 109, 101];
    let clear: [u8; 5] = [99, 108, 101, 97, 114];
    proof {
        assert(help@ =~= help_word());
        assert(mem@ =~= mem_word());
        assert(ps@ =~= ps_word());
        assert(ls@ =~= ls_word());
        assert(cat@ =~= cat_word());
        assert(run@ =~= run_word());
        assert(uptime@ =~= uptime_word());
        assert(clear@ =~= clear_word());
    }
    let kind = if s[0] == 0 {
        proof {
            assert(cstr_len(s@) == 0);
        }
        CmdKind::Empty
    } else if cmd_is(s, &help) {
        CmdKind::Help
    } else if cmd_is(s, &mem) {
        CmdKind::Mem
    } else if cmd_is(s, &ps) {
        CmdKind::Ps
    } else if cmd_is(s, &ls) {
        CmdKind::Ls
    } else if cmd_is(s, &cat) {
        CmdKind::Cat
    } else if cmd_is(s, &run) {
        CmdKind::Run
    } else if cmd_is(s, &uptime) {
        CmdKind::Uptime
    } else if cmd_is(s, &clear) {
        CmdKind::Clear
    } else {
        CmdKind::Unknown
    };
    proof {
        if s[0] != 0 {
            assert(cstr_len(s@) > 0);
        }
    }
    if kind == CmdKind::Cat || kind == CmdKind::Run {
        let a = arg_of(s);
        Command { kind, name: to_83_at(s, a) }
    } else {
        Command { kind, name: blank }
    }
}

/// What the shell answers to a command line.
pub enum Reply {
    /// The line was empty.
    Nothing,
    /// The command list.
    Help,
    /// Free and total frames, then free bytes, used bytes and blocks of the heap.
    Mem(usize, usize, usize, usize, usize),
    /// (id, state code) of each task in the table.
    Ps(Vec<(u32, u8)>),
    /// The 8.3 names in the root directory.
    Ls(Vec<[u8; 11]>),
    /// The text of the file (up to 511 bytes, up to its first NUL), or
    /// `None` when it was not found.
    Cat(Option<Vec<u8>>),
    /// The program name to launch and the frame of the task that will
    /// launch it (`None` when the task table is full).
    Launched([u8; 11], Option<SpawnFrame>),
    /// Seconds since boot.
    Uptime(u32),
    /// The screen is to be cleared.
    Clear,
    Unknown,
}

/// Room `cat` gives a file.
pub const CAT_MAX: usize = 511;
/// Names `ls` lists at most.
pub const LS_MAX: usize = 32;

/// What `cat` shows of a file read into a zeroed 512-byte buffer: the
/// buffer is cut at the file size (or at its last byte) and shown up to its
/// first NUL.
pub open spec fn cat_text(data: Seq<u8>, size: int) -> Seq<u8> {
    let m = if size < CAT_MAX { size } else { CAT_MAX as int };
    cstr((data + Seq::new((512 - data.len()) as nat, |i: int| 0u8)).update(m, 0u8))
}

/// Copies the C string at the start of `buf`.
fn copy_cstr(buf: &[u8]) -> (r: Vec<u8>)
    requires
        has_nul(buf@),
    ensures
        r@ == cstr(buf@),
{
    let n = strlen(buf);
    let mut out: Vec<u8> = Vec::new();
    let mut i: usize = 0;
    while i < n
        invariant
            i <= n,
            n == cstr_len(buf@),
            n < buf@.len(),
            out@ == buf@.subrange(0, i as int),
        decreases n - i,
    {
        out.push(buf[i]);
        i += 1;
        proof {
            assert(out@ =~= buf@.subrange(0, i as int));
        }
    }
    out
}

/// Carries out the command line `line` (NUL-terminated) against the frame
/// allocator, the heap, the task table and the disk image, `ticks` timer
/// ticks after boot. `run` spawns a task at `launcher` that will load the
/// named program.
pub fn run(
    line: &[u8],
    pmm: &FrameAllocator,
    heap: &mut Heap,
    sched: &mut Scheduler,
    disk: &[u8],
    ticks: u32,
    launcher: u32,
    exit_trampoline: u32,
) -> (r: Reply)
    requires
        has_nul(line@),
        pmm.wf(),
        old(heap).wf(),
        old(heap).base + HEAP_BYTES < 0x1_0000_0000,
        old(sched).wf(),
        old(sched).next_id < u32::MAX,
        kind_of(cstr(line@)) == CmdKind::Cat ==> read_file_spec(disk@, arg83(cstr(line@)), CAT_MAX as int).0 != 2,
    ensures
        final(heap).wf(),
        final(heap).base == old(heap).base,
        final(sched).wf(),
        final(sched).current == old(sched).current,
        final(sched).enabled == old(sched).enabled,
        ({
            let l = cstr(line@);
            let k = kind_of(l);
            &&& k != CmdKind::Run ==> final(heap).blocks@ == old(heap).blocks@
                && final(sched).tasks@ == old(sched).tasks@
                && final(sched).num_tasks == old(sched).num_tasks
                && final(sched).next_id == old(sched).next_id
            &&& k == CmdKind::Empty ==> r is Nothing
            &&& k == CmdKind::Help ==> r is Help
            &&& k == CmdKind::Mem ==> r == Reply::Mem(
                count_free(pmm.view()) as usize,
                pmm.total,
                free_bytes(old(heap).blocks@) as usize,
                used_bytes(old(heap).blocks@) as usize,
                old(heap).blocks@.len() as usize,
            )
            &&& k == CmdKind::Ps ==> (r matches Reply::Ps(v)
                && v@.len() == old(sched).num_tasks
                && forall|i: int| 0 <= i < v@.len() ==> #[trigger] v@[i] == (
                    old(sched).tasks@[i].id,
                    state_code(old(sched).tasks@[i].state),
                ))
            &&& k == CmdKind::Ls ==> (r matches Reply::Ls(v) && names_view(v@) == read_dir_spec(disk@, LS_MAX as int))
            &&& k == CmdKind::Cat ==> ({
                let (code, size, data) = read_file_spec(disk@, arg83(l), CAT_MAX as int);
                &&& code == 0 ==> (r matches Reply::Cat(Some(t)) && t@ == cat_text(data, size))
                &&& code == 1 ==> (r matches Reply::Cat(None))
            })
            &&& k == CmdKind::Run ==> (r matches Reply::Launched(n, f)
                && n@ == arg83(l)
                && (final(sched).tasks@, final(sched).num_tasks, final(sched).next_id, final(heap).blocks@, f) == spawn_spec(
                    old(sched).tasks@, old(sched).num_tasks, old(sched).next_id, old(heap).base, old(heap).blocks@,
                    launcher, exit_trampoline))
            &&& k == CmdKind::Uptime ==> r == Reply::Uptime(ticks / TIMER_HZ)
            &&& k == CmdKind::Clear ==> r is Clear
            &&& k == CmdKind::Unknown ==> r is Unknown
        }),
{
    let cmd = parse_command(line);
    match cmd.kind {
        CmdKind::Empty => Reply::Nothing,
        CmdKind::Help => Reply::Help,
        CmdKind::Mem => {
            let (free, used, blocks) = heap.stats();
            Reply::Mem(pmm.free_frames(), pmm.total_frames(), free, used, blocks)
        },
        CmdKind::Ps => {
            let n = sched.count();
            let mut v: Vec<(u32, u8)> = Vec::new();
            let mut i: usize = 0;
            while i < n
                invariant
                    sched.wf(),
                    n == sched.num_tasks,
                    n <= MAX_TASKS,
                    i <= n,
                    v@.len() == i,
                    forall|j: int| 0 <= j < i ==> #[trigger] v@[j] == (
                        sched.tasks@[j].id,
                        state_code(sched.tasks@[j].state),
                    ),
                decreases n - i,
            {
                v.push(sched.get(i));
                i += 1;
            }
            Reply::Ps(v)
        },
        CmdKind::Ls => Reply::Ls(read_dir(disk, LS_MAX)),
        CmdKind::Cat => {
            let mut buf = [0u8; 512];
            let ghost zeros = buf@;
            match read_file(disk, &cmd.name, &mut buf, CAT_MAX) {
                Some(n) => {
                    let m = if n < CAT_MAX { n } else { CAT_MAX };
                    buf[m] = 0;
                    proof {
                        let (code, size, data) = read_file_spec(disk@, cmd.name@, CAT_MAX as int);
                        assert(zeros.subrange(data.len() as int, 512) =~= Seq::new((512 - data.len()) as nat, |i: int| 0u8));
                        crate::fat12::lemma_find_size(disk@, cmd.name@, 0);
                        assert(n as int == size);
                        let pre = data + Seq::new((512 - data.len()) as nat, |i: int| 0u8);
                        assert(buf@ =~= pre.update(m as int, 0u8));
                        assert(is_cstr_len(buf@, cstr_len(buf@))) by {
                            assert(buf@[m as int] == 0);
                            lemma_has_nul_len(buf@);
                        }
                    }
                    Reply::Cat(Some(copy_cstr(&buf)))
                },
                None => Reply::Cat(None),
            }
        },
        CmdKind::Run => {
            let f = sched.spawn(heap, launcher, exit_trampoline);
            Reply::Launched(cmd.name, f)
        },
        CmdKind::Uptime => Reply::Uptime(ticks / TIMER_HZ),
        CmdKind::Clear => Reply::Clear,
        CmdKind::Unknown => Reply::Unknown,
    }
}

/// Decimal text of a value printed as an `i32`.
pub open spec fn num_text(n: int) -> Seq<u8> {
    dec_str((n as i32) as int)
}

/// The `ps` lines for the first `k` tasks.
pub open spec fn ps_lines(v: Seq<(u32, u8)>, k: int) -> Seq<u8>
    decreases k,
{
    if k <= 0 {
        Seq::empty()
    } else {
        ps_lines(v, k - 1) + ascii("task "@) + num_text(v[k - 1].0 as int) + ascii(": "@)
            + ascii(state_label(v[k - 1].1)) + seq![10u8]
    }
}

/// The `ls` lines for the first `k` names.
pub open spec fn ls_lines(v: Seq<[u8; 11]>, k: int) -> Seq<u8>
    decreases k,
{
    if k <= 0 {
        Seq::empty()
    } else {
        ls_lines(v, k - 1) + name83_text(v[k - 1]@) + seq![10u8]
    }
}

/// What the shell prints for a reply (on the screen and the serial log);
/// the prompt that follows goes to the screen only.
pub open spec fn reply_text_spec(r: &Reply) -> Seq<u8> {
    match r {
        Reply::Nothing => Seq::empty(),
        Reply::Help => ascii("commands: help mem ps ls cat <f> run <f> uptime clear\n"@),
        Reply::Mem(pf, pt, hf, hu, hb) => ascii("pmm: "@) + num_text(*pf as int) + ascii(" / "@) + num_text(*pt as int)
            + ascii(" frames free\n"@) + ascii("heap: "@) + num_text(*hf as int) + ascii(" free / "@) + num_text(*hu as int)
            + ascii(" used bytes, "@) + num_text(*hb as int) + ascii(" blocks\n"@),
        Reply::Ps(v) => ps_lines(v@, v@.len() as int),
        Reply::Ls(v) => if v@.len() == 0 { ascii("(no files / no disk)\n"@) } else { ls_lines(v@, v@.len() as int) },
        Reply::Cat(Some(t)) => t@ + seq![10u8],
        Reply::Cat(None) => ascii("cat: file not found\n"@),
        Reply::Launched(_, _) => ascii("run: launched\n"@),
        Reply::Uptime(s) => num_text(*s as int) + ascii("s\n"@),
        Reply::Clear => Seq::empty(),
        Reply::Unknown => ascii("unknown command (try: help)\n"@),
    }
}

/// Appends a value printed as an `i32`.
fn push_num(out: &mut Vec<u8>, n: i32)
    requires
        n != i32::MIN,
    ensures
        final(out)@ == old(out)@ + dec_str(n as int),
{
    push_dec(out, n)
}

/// Appends a literal.
fn push_lit(out: &mut Vec<u8>, s: &str)
    requires
        is_ascii(s),
    ensures
        final(out)@ == old(out)@ + ascii(s@),
{
    push_str(out, s)
}

impl Reply {
    /// Values printed as `i32` are other than `i32::MIN` (where the number
    /// printer would overflow).
    pub open spec fn printable(&self) -> bool {
        match self {
            Reply::Mem(pf, pt, hf, hu, hb) => (*pf as i32) != i32::MIN && (*pt as i32) != i32::MIN
                && (*hf as i32) != i32::MIN && (*hu as i32) != i32::MIN && (*hb as i32) != i32::MIN,
            Reply::Ps(v) => forall|i: int| 0 <= i < v@.len() ==> (#[trigger] v@[i].0 as i32) != i32::MIN,
            Reply::Uptime(s) => (*s as i32) != i32::MIN,
            _ => true,
        }
    }

    /// The text the shell prints for this reply.
    pub fn text(&self) -> (r: Vec<u8>)
        requires
            self.printable(),
        ensures
            r@ == reply_text_spec(self),
    {
        let mut out: Vec<u8> = Vec::new();
        match self {
            Reply::Nothing => {},
            Reply::Help => {
                proof { reveal_strlit("commands: help mem ps ls cat <f> run <f> uptime clear\n"); }
                push_lit(&mut out, "commands: help mem ps ls cat <f> run <f> uptime clear\n");
            },
            Reply::Mem(pf, pt, hf, hu, hb) => {
                proof {
                    reveal_strlit("pmm: ");
                    reveal_strlit(" / ");
                    reveal_strlit(" frames free\n");
                    reveal_strlit("heap: ");
                    reveal_strlit(" free / ");
                    reveal_strlit(" used bytes, ");
                    reveal_strlit(" blocks\n");
                }
                push_lit(&mut out, "pmm: ");
                push_num(&mut out, *pf as i32);
                push_lit(&mut out, " / ");
                push_num(&mut out, *pt as i32);
                push_lit(&mut out, " frames free\n");
                push_lit(&mut out, "heap: ");
                push_num(&mut out, *hf as i32);
                push_lit(&mut out, " free / ");
                push_num(&mut out, *hu as i32);
                push_lit(&mut out, " used bytes, ");
                push_num(&mut out, *hb as i32);
                push_lit(&mut out, " blocks\n");
            },
            Reply::Ps(v) => {
                let mut i: usize = 0;
                while i < v.len()
                    invariant
                        i <= v@.len(),
                        forall|k: int| 0 <= k < v@.len() ==> (#[trigger] v@[k].0 as i32) != i32::MIN,
                        out@ == ps_lines(v@, i as int),
                    decreases v@.len() - i,
                {
                    let (id, st) = v[i];
                    proof {
                        reveal_strlit("task ");
                        reveal_strlit(": ");
                    }
                    push_lit(&mut out, "task ");
                    push_num(&mut out, id as i32);
                    push_lit(&mut out, ": ");
                    push_lit(&mut out, state_name(st));
                    out.push(10);
                    i += 1;
                }
            },
            Reply::Ls(v) => {
                if v.len() == 0 {
                    proof { reveal_strlit("(no files / no disk)\n"); }
                    push_lit(&mut out, "(no files / no disk)\n");
                } else {
                    let mut i: usize = 0;
                    while i < v.len()
                        invariant
                            i <= v@.len(),
                            out@ == ls_lines(v@, i as int),
                        decreases v@.len() - i,
                    {
                        let t = name_83_text(&v[i]);
                        let mut k: usize = 0;
                        let ghost o0 = out@;
                        while k < t.len()
                            invariant
                                k <= t@.len(),
                                out@ == o0 + t@.subrange(0, k as int),
                            decreases t@.len() - k,
                        {
                            out.push(t[k]);
                            k += 1;
                            proof {
                                assert(out@ =~= o0 + t@.subrange(0, k as int));
                            }
                        }
                        out.push(10);
                        proof {
                            assert(t@.subrange(0, t@.len() as int) =~= t@);
                            assert(out@ =~= ls_lines(v@, i + 1));
                        }
                        i += 1;
                    }
                }
            },
            Reply::Cat(Some(t)) => {
                let mut k: usize = 0;
                while k < t.len()
                    invariant
                        k <= t@.len(),
                        out@ == t@.subrange(0, k as int),
                    decreases t@.len() - k,
                {
                    out.push(t[k]);
                    k += 1;
                    proof {
                        assert(out@ =~= t@.subrange(0, k as int));
                    }
                }
                out.push(10);
            },
            Reply::Cat(None) => {
                proof { reveal_strlit("cat: file not found\n"); }
                push_lit(&mut out, "cat: file not found\n");
            },
            Reply::Launched(_, _) => {
                proof { reveal_strlit("run: launched\n"); }
                push_lit(&mut out, "run: launched\n");
            },
            Reply::Uptime(secs) => {
                proof { reveal_strlit("s\n"); }
                push_num(&mut out, *secs as i32);
                push_lit(&mut out, "s\n");
            },
            Reply::Clear => {},
            Reply::Unknown => {
                proof { reveal_strlit("unknown command (try: help)\n"); }
                push_lit(&mut out, "unknown command (try: help)\n");
            },
        }
        proof {
            assert(out@ =~= reply_text_spec(self));
        }
        out
    }
}

} // verus!
