//! PS/2 keyboard line editing. Each scancode from port 0x60 goes through
//! `Keyboard::key_event`, which updates the line being typed, the Shift
//! state and the command history, and says what to echo. The caller echoes
//! to the screen and the serial line and hands a finished line to the shell.
use vstd::prelude::*;
use crate::string::{has_nul, is_cstr_len, cstr, cstr_len, lemma_has_nul_len, lemma_cstr_len_unique, strlen, append, backspace};
use crate::shell::no_nul;

verus! {

/// Size of the line buffer, terminator included.
pub const KEY_BUF: usize = 256;
/// Lines the history keeps.
pub const HIST_MAX: usize = 16;
pub const BACKSPACE: u8 = 0x0E;
pub const ENTER: u8 = 0x1C;
/// Highest make code with a character in the layout.
pub const SC_MAX: u8 = 57;
pub const LSHIFT: u8 = 0x2A;
pub const RSHIFT: u8 = 0x36;
pub const LSHIFT_REL: u8 = 0xAA;
pub const RSHIFT_REL: u8 = 0xB6;
/// Prefix of the extended (arrow key) scancodes.
pub const EXT_PREFIX: u8 = 0xE0;
pub const UP: u8 = 0x48;
pub const DOWN: u8 = 0x50;

/// Characters of make codes 0..=57 without Shift (US layout).
pub open spec fn lower_table() -> Seq<u8> {
    seq![63u8, 63, 49, 50, 51, 52, 53, 54, 55, 56, 57, 48, 45, 61, 63, 63, 113, 119, 101, 114, 116, 121, 117, 105, 111, 112, 91, 93, 63, 63, 97, 115, 100, 102, 103, 104, 106, 107, 108, 59, 39, 96, 63, 92, 122, 120, 99, 118, 98, 110, 109, 44, 46, 47, 63, 63, 63, 32]
}

/// Characters of make codes 0..=57 with Shift held.
pub open spec fn shift_table() -> Seq<u8> {
    seq![63u8, 63, 33, 64, 35, 36, 37, 94, 38, 42, 40, 41, 95, 43, 63, 63, 81, 87, 69, 82, 84, 89, 85, 73, 79, 80, 123, 125, 63, 63, 65, 83, 68, 70, 71, 72, 74, 75, 76, 58, 34, 126, 63, 124, 90, 88, 67, 86, 66, 78, 77, 60, 62, 63, 63, 63, 63, 32]
}

/// Characters of the basic (upper-case only) keyboard.
pub open spec fn plain_table() -> Seq<u8> {
    seq![63u8, 63, 49, 50, 51, 52, 53, 54, 55, 56, 57, 48, 45, 61, 63, 63, 81, 87, 69, 82, 84, 89, 85, 73, 79, 80, 91, 93, 63, 63, 65, 83, 68, 70, 71, 72, 74, 75, 76, 59, 39, 96, 63, 92, 90, 88, 67, 86, 66, 78, 77, 44, 46, 47, 63, 63, 63, 32]
}

fn lower_char(sc: u8) -> (r: u8)
    requires
        sc <= SC_MAX,
    ensures
        r == lower_table()[sc as int],
{
    let t: [u8; 58] = [63, 63, 49, 50, 51, 52, 53, 54, 55, 56, 57, 48, 45, 61, 63, 63, 113, 119, 101, 114, 116, 121, 117, 105, 111, 112, 91, 93, 63, 63, 97, 115, 100, 102, 103, 104, 106, 107, 108, 59, 39, 96, 63, 92, 122, 120, 99, 118, 98, 110, 109, 44, 46, 47, 63, 63, 63, 32];
    proof {
        assert(t@ =~= lower_table());
    }
    t[sc as usize]
}

fn shift_char(sc: u8) -> (r: u8)
    requires
        sc <= SC_MAX,
    ensures
        r == shift_table()[sc as int],
{
    let t: [u8; 58] = [63, 63, 33, 64, 35, 36, 37, 94, 38, 42, 40, 41, 95, 43, 63, 63, 81, 87, 69, 82, 84, 89, 85, 73, 79, 80, 123, 125, 63, 63, 65, 83, 68, 70, 71, 72, 74, 75, 76, 58, 34, 126, 63, 124, 90, 88, 67, 86, 66, 78, 77, 60, 62, 63, 63, 63, 63, 32];
    proof {
        assert(t@ =~= shift_table());
    }
    t[sc as usize]
}

fn plain_char(sc: u8) -> (r: u8)
    requires
        sc <= SC_MAX,
    ensures
        r == plain_table()[sc as int],
{
    let t: [u8; 58] = [63, 63, 49, 50, 51, 52, 53, 54, 55, 56, 57, 48, 45, 61, 63, 63, 81, 87, 69, 82, 84, 89, 85, 73, 79, 80, 91, 93, 63, 63, 65, 83, 68, 70, 71, 72, 74, 75, 76, 59, 39, 96, 63, 92, 90, 88, 67, 86, 66, 78, 77, 44, 46, 47, 63, 63, 63, 32];
    proof {
        assert(t@ =~= plain_table());
    }
    t[sc as usize]
}

/// What to echo for a key, as values.
pub enum Effect {
    Nothing,
    Echo(u8),
    Erase,
    Line(Seq<u8>),
    Replace(nat, Seq<u8>),
}

/// What the caller does after a key: nothing; echo a typed character; erase
/// one character (a backspace on screen, `08 20 08` on serial); print a
/// newline (`\r\n` on serial) and hand the line buffer (NUL-terminated) to
/// the shell; or erase the given number of characters and print a
/// replacement line.
pub enum KeyEffect {
    Nothing,
    Echo(u8),
    Erase,
    Line(Vec<u8>),
    Replace(usize, Vec<u8>),
}

impl View for KeyEffect {
    type V = Effect;

    open spec fn view(&self) -> Effect {
        match self {
            KeyEffect::Nothing => Effect::Nothing,
            KeyEffect::Echo(c) => Effect::Echo(*c),
            KeyEffect::Erase => Effect::Erase,
            KeyEffect::Line(v) => Effect::Line(v@),
            KeyEffect::Replace(n, v) => Effect::Replace(*n as nat, v@),
        }
    }
}

/// The editor's state as values: the line buffer, Shift held, an extended
/// prefix seen, the history (oldest first) and the browsing position in it
/// (`hist.len()` is the fresh line).
pub struct KbState {
    pub buf: Seq<u8>,
    pub shift: bool,
    pub ext: bool,
    pub hist: Seq<Seq<u8>>,
    pub browse: int,
}

/// The line editor.
pub struct Keyboard {
    pub buffer: Vec<u8>,
    pub shift: bool,
    pub extended: bool,
    pub history: Vec<Vec<u8>>,
    pub browse: usize,
}

impl View for Keyboard {
    type V = KbState;

    open spec fn view(&self) -> KbState {
        KbState {
            buf: self.buffer@,
            shift: self.shift,
            ext: self.extended,
            hist: Seq::new(self.history@.len(), |i: int| self.history@[i]@),
            browse: self.browse as int,
        }
    }
}

/// A stored history line: 1 to 255 bytes, no NUL.
pub open spec fn hist_line_ok(l: Seq<u8>) -> bool {
    0 < l.len() < KEY_BUF && no_nul(l)
}

pub open spec fn kb_wf(s: KbState) -> bool {
    &&& s.buf.len() == KEY_BUF
    &&& has_nul(s.buf)
    &&& s.hist.len() <= HIST_MAX
    &&& 0 <= s.browse <= s.hist.len()
    &&& forall|i: int| 0 <= i < s.hist.len() ==> #[trigger] hist_line_ok(s.hist[i])
}

/// The buffer with its line replaced by `src` (terminator after it, the
/// bytes behind left as they were).
pub open spec fn put_line(buf: Seq<u8>, src: Seq<u8>) -> Seq<u8> {
    src + seq![0u8] + buf.subrange(src.len() + 1int, buf.len() as int)
}

/// Replaces the typed line by `src` and moves the browsing position.
pub open spec fn replace_step(s: KbState, src: Seq<u8>, browse: int) -> (KbState, Effect) {
    (
        KbState { buf: put_line(s.buf, src), browse, ..s },
        Effect::Replace(cstr_len(s.buf) as nat, src),
    )
}

/// History after a line is entered: empty lines are not kept; when full the
/// oldest line is dropped.
pub open spec fn hist_push_spec(h: Seq<Seq<u8>>, line: Seq<u8>) -> Seq<Seq<u8>> {
    if line.len() == 0 {
        h
    } else if h.len() < HIST_MAX {
        h.push(line)
    } else {
        h.drop_first().push(line)
    }
}

/// The key types a character into the line.
pub open spec fn types_char(s: KbState, sc: u8) -> bool {
    &&& !s.ext
    &&& sc <= SC_MAX
    &&& sc != LSHIFT
    &&& sc != RSHIFT
    &&& sc != BACKSPACE
    &&& sc != ENTER
}

/// State and echo after scancode `sc`.
pub open spec fn key_step(s: KbState, sc: u8) -> (KbState, Effect) {
    if sc == EXT_PREFIX {
        (KbState { ext: true, ..s }, Effect::Nothing)
    } else if s.ext {
        let s0 = KbState { ext: false, ..s };
        if sc == UP {
            if s.browse > 0 {
                replace_step(s0, s.hist[s.browse - 1], s.browse - 1)
            } else {
                (s0, Effect::Nothing)
            }
        } else if sc == DOWN {
            if s.browse < s.hist.len() {
                let b = s.browse + 1;
                if b == s.hist.len() {
                    replace_step(s0, Seq::empty(), b)
                } else {
                    replace_step(s0, s.hist[b], b)
                }
            } else {
                (s0, Effect::Nothing)
            }
        } else {
            (s0, Effect::Nothing)
        }
    } else if sc == LSHIFT || sc == RSHIFT {
        (KbState { shift: true, ..s }, Effect::Nothing)
    } else if sc == LSHIFT_REL || sc == RSHIFT_REL {
        (KbState { shift: false, ..s }, Effect::Nothing)
    } else if sc >= 0x80 {
        (s, Effect::Nothing)
    } else if sc == BACKSPACE {
        let n = cstr_len(s.buf);
        (KbState { buf: if n > 0 { s.buf.update(n - 1, 0u8) } else { s.buf }, ..s }, Effect::Erase)
    } else if sc == ENTER {
        let h = hist_push_spec(s.hist, cstr(s.buf));
        (KbState { buf: s.buf.update(0, 0u8), hist: h, browse: h.len() as int, ..s }, Effect::Line(s.buf))
    } else if sc <= SC_MAX {
        let c = if s.shift { shift_table()[sc as int] } else { lower_table()[sc as int] };
        let n = cstr_len(s.buf);
        (KbState { buf: s.buf.update(n, c).update(n + 1, 0u8), ..s }, Effect::Echo(c))
    } else {
        (s, Effect::Nothing)
    }
}

/// Copies the bytes of `v`.
fn copy_bytes(v: &Vec<u8>) -> (r: Vec<u8>)
    ensures
        r@ == v@,
{
    let mut out: Vec<u8> = Vec::new();
    let mut i: usize = 0;
    while i < v.len()
        invariant
            i <= v@.len(),
            out@ == v@.subrange(0, i as int),
        decreases v@.len() - i,
    {
        out.push(v[i]);
        i += 1;
        proof {
            assert(out@ =~= v@.subrange(0, i as int));
        }
    }
    proof {
        assert(out@ =~= v@);
    }
    out
}

/// Copies the C string at the start of `v`.
fn line_of(v: &Vec<u8>) -> (r: Vec<u8>)
    requires
        has_nul(v@),
    ensures
        r@ == cstr(v@),
{
    let n = strlen(v.as_slice());
    let mut out: Vec<u8> = Vec::new();
    let mut i: usize = 0;
    while i < n
        invariant
            i <= n,
            n == cstr_len(v@),
            n < v@.len(),
            out@ == v@.subrange(0, i as int),
        decreases n - i,
    {
        out.push(v[i]);
        i += 1;
        proof {
            assert(out@ =~= v@.subrange(0, i as int));
        }
    }
    out
}

impl Keyboard {
    pub open spec fn wf(&self) -> bool {
        kb_wf(self@)
    }

    /// Empty line, no Shift, empty history.
    pub fn new() -> (k: Keyboard)
        ensures
            k.wf(),
            k@.buf == Seq::new(KEY_BUF as nat, |i: int| 0u8),
            !k@.shift,
            !k@.ext,
            k@.hist.len() == 0,
            k@.browse == 0,
    {
        let mut buffer: Vec<u8> = Vec::new();
        let mut i: usize = 0;
        while i < KEY_BUF
            invariant
                i <= KEY_BUF,
                buffer@ == Seq::new(i as nat, |j: int| 0u8),
            decreases KEY_BUF - i,
        {
            buffer.push(0);
            i += 1;
            proof {
                assert(buffer@ =~= Seq::new(i as nat, |j: int| 0u8));
            }
        }
        let k = Keyboard { buffer, shift: false, extended: false, history: Vec::new(), browse: 0 };
        proof {
            assert(k@.buf[0] == 0);
        }
        k
    }

    /// The line typed so far.
    pub fn line(&self) -> (r: Vec<u8>)
        requires
            self.wf(),
        ensures
            r@ == cstr(self@.buf),
    {
        line_of(&self.buffer)
    }

    /// Number of lines in the history.
    pub fn history_len(&self) -> (r: usize)
        ensures
            r == self@.hist.len(),
    {
        self.history.len()
    }

    /// History line `i` (0 is the oldest).
    pub fn history_line(&self, i: usize) -> (r: Vec<u8>)
        requires
            i < self@.hist.len(),
        ensures
            r@ == self@.hist[i as int],
    {
        copy_bytes(&self.history[i])
    }

    /// Replaces the line with `src`; says to erase the old line and print
    /// the new one.
    fn replace_line(&mut self, src: Vec<u8>) -> (r: KeyEffect)
        requires
            old(self).wf(),
            src@.len() == 0 || hist_line_ok(src@),
        ensures
            final(self)@ == (KbState { buf: put_line(old(self)@.buf, src@), ..old(self)@ }),
            r@ == Effect::Replace(cstr_len(old(self)@.buf) as nat, src@),
    {
        proof {
            lemma_has_nul_len(self.buffer@);
        }
        let cur = strlen(self.buffer.as_slice());
        let ghost b0 = self.buffer@;
        let mut i: usize = 0;
        while i < src.len()
            invariant
                i <= src@.len() < KEY_BUF,
                self.buffer@.len() == KEY_BUF,
                self.buffer@ == src@.subrange(0, i as int) + b0.subrange(i as int, KEY_BUF as int),
                self.shift == old(self).shift,
                self.extended == old(self).extended,
                self.history == old(self).history,
                self.browse == old(self).browse,
                b0 == old(self).buffer@,
                b0.len() == KEY_BUF,
            decreases src@.len() - i,
        {
            self.buffer.set(i, src[i]);
            i += 1;
            proof {
                assert(self.buffer@ =~= src@.subrange(0, i as int) + b0.subrange(i as int, KEY_BUF as int));
            }
        }
        self.buffer.set(i, 0);
        proof {
            assert(self.buffer@ =~= put_line(b0, src@));
            assert(self@.hist =~= old(self)@.hist);
        }
        KeyEffect::Replace(cur, src)
    }

    /// Up arrow: recall the previous history line.
    fn history_up(&mut self) -> (r: KeyEffect)
        requires
            old(self).wf(),
            !old(self).extended,
        ensures
            ({
                let s = old(self)@;
                (final(self)@, r@) == (if s.browse > 0 {
                    replace_step(s, s.hist[s.browse - 1], s.browse - 1)
                } else {
                    (s, Effect::Nothing)
                })
            }),
    {
        if self.browse > 0 {
            self.browse = self.browse - 1;
            let src = copy_bytes(&self.history[self.browse]);
            proof {
                assert(hist_line_ok(old(self)@.hist[self.browse as int]));
            }
            let r = self.replace_line(src);
            proof {
                assert(self@.hist =~= old(self)@.hist);
            }
            r
        } else {
            KeyEffect::Nothing
        }
    }

    /// Down arrow: recall the next history line, or an empty line past the
    /// newest.
    fn history_down(&mut self) -> (r: KeyEffect)
        requires
            old(self).wf(),
            !old(self).extended,
        ensures
            ({
                let s = old(self)@;
                (final(self)@, r@) == (if s.browse < s.hist.len() {
                    let b = s.browse + 1;
                    if b == s.hist.len() {
                        replace_step(s, Seq::empty(), b)
                    } else {
                        replace_step(s, s.hist[b], b)
                    }
                } else {
                    (s, Effect::Nothing)
                })
            }),
    {
        if self.browse < self.history.len() {
            self.browse = self.browse + 1;
            if self.browse == self.history.len() {
                let r = self.replace_line(Vec::new());
                proof {
                    assert(self@.hist =~= old(self)@.hist);
                }
                r
            } else {
                let src = copy_bytes(&self.history[self.browse]);
                proof {
                    assert(hist_line_ok(old(self)@.hist[self.browse as int]));
                }
                let r = self.replace_line(src);
                proof {
                    assert(self@.hist =~= old(self)@.hist);
                }
                r
            }
        } else {
            KeyEffect::Nothing
        }
    }

    /// Stores the typed line in the history (not when it is empty).
    fn hist_push(&mut self)
        requires
            old(self).wf(),
        ensures
            final(self)@ == (KbState { hist: hist_push_spec(old(self)@.hist, cstr(old(self)@.buf)), ..old(self)@ }),
    {
        proof {
            lemma_has_nul_len(self.buffer@);
        }
        let l = line_of(&self.buffer);
        if l.len() == 0 {
            return;
        }
        let ghost h0 = self@.hist;
        if self.history.len() >= HIST_MAX {
            self.history.remove(0);
        }
        self.history.push(l);
        proof {
            let h = hist_push_spec(h0, cstr(old(self)@.buf));
            assert(self@.hist =~= h);
        }
    }

    /// Handles scancode `sc`.
    pub fn key_event(&mut self, sc: u8) -> (r: KeyEffect)
        requires
            old(self).wf(),
            types_char(old(self)@, sc) ==> cstr_len(old(self)@.buf) + 1 < KEY_BUF,
        ensures
            final(self).wf(),
            (final(self)@, r@) == key_step(old(self)@, sc),
    {
        proof {
            lemma_has_nul_len(self.buffer@);
        }
        if sc == EXT_PREFIX {
            self.extended = true;
            return KeyEffect::Nothing;
        }
        if self.extended {
            self.extended = false;
            if sc == UP {
                let r = self.history_up();
                proof { lemma_step_wf(old(self)@, sc); }
                return r;
            }
            if sc == DOWN {
                let r = self.history_down();
                proof { lemma_step_wf(old(self)@, sc); }
                return r;
            }
            return KeyEffect::Nothing;
        }
        if sc == LSHIFT || sc == RSHIFT {
            self.shift = true;
            return KeyEffect::Nothing;
        }
        if sc == LSHIFT_REL || sc == RSHIFT_REL {
            self.shift = false;
            return KeyEffect::Nothing;
        }
        if sc >= 0x80 {
            return KeyEffect::Nothing;
        }
        if sc == BACKSPACE {
            backspace(self.buffer.as_mut_slice());
            proof { lemma_step_wf(old(self)@, sc); }
            return KeyEffect::Erase;
        }
        if sc == ENTER {
            let line = copy_bytes(&self.buffer);
            self.hist_push();
            self.browse = self.history.len();
            self.buffer.set(0, 0);
            proof { lemma_step_wf(old(self)@, sc); }
            return KeyEffect::Line(line);
        }
        if sc <= SC_MAX {
            let c = if self.shift { shift_char(sc) } else { lower_char(sc) };
            append(self.buffer.as_mut_slice(), c);
            proof { lemma_step_wf(old(self)@, sc); }
            return KeyEffect::Echo(c);
        }
        KeyEffect::Nothing
    }
}

/// Every key keeps the editor well formed.
pub proof fn lemma_step_wf(s: KbState, sc: u8)
    requires
        kb_wf(s),
        types_char(s, sc) ==> cstr_len(s.buf) + 1 < KEY_BUF,
    ensures
        kb_wf(key_step(s, sc).0),
{
    lemma_has_nul_len(s.buf);
    let (s1, e) = key_step(s, sc);
    let n = cstr_len(s.buf);
    if sc == EXT_PREFIX {
    } else if s.ext {
        if sc == UP && s.browse > 0 {
            assert(hist_line_ok(s.hist[s.browse - 1]));
            assert(s1.buf[s.hist[s.browse - 1].len() as int] == 0);
        } else if sc == DOWN && s.browse < s.hist.len() {
            if s.browse + 1 < s.hist.len() {
                assert(hist_line_ok(s.hist[s.browse + 1]));
                assert(s1.buf[s.hist[s.browse + 1].len() as int] == 0);
            } else {
                assert(s1.buf[0] == 0);
            }
        }
    } else if sc == LSHIFT || sc == RSHIFT || sc == LSHIFT_REL || sc == RSHIFT_REL || sc >= 0x80 {
    } else if sc == BACKSPACE {
        if n > 0 {
            assert(s1.buf[n - 1] == 0);
        } else {
            assert(s1.buf[n] == 0);
        }
    } else if sc == ENTER {
        assert(s1.buf[0] == 0);
        let l = cstr(s.buf);
        assert forall|i: int| 0 <= i < s1.hist.len() implies #[trigger] hist_line_ok(s1.hist[i]) by {
            if l.len() > 0 {
                if s.hist.len() < HIST_MAX {
                    if i < s.hist.len() {
                        assert(hist_line_ok(s.hist[i]));
                    }
                } else {
                    if i < s.hist.len() - 1 {
                        assert(hist_line_ok(s.hist[i + 1]));
                    }
                }
            } else {
                assert(hist_line_ok(s.hist[i]));
            }
        }
    } else if sc <= SC_MAX {
        assert(s1.buf[n + 1] == 0);
    }
}

proof fn lemma_put_line_cstr(buf: Seq<u8>, src: Seq<u8>)
    requires
        buf.len() == KEY_BUF,
        src.len() < KEY_BUF,
        no_nul(src),
    ensures
        cstr(put_line(buf, src)) == src,
        cstr_len(put_line(buf, src)) == src.len(),
        put_line(buf, src).len() == KEY_BUF,
{
    let b = put_line(buf, src);
    assert(is_cstr_len(b, src.len() as int));
    lemma_cstr_len_unique(b, src.len() as int);
    assert(cstr(b) =~= src);
}

/// Entering a line and then pressing Up brings the same line back: Enter
/// hands the line to the shell, stores it as the newest history line
/// (dropping the oldest when all 16 are taken) and clears the line; Up
/// recalls it; Down from there gives an empty line again.
pub proof fn lemma_enter_then_recall(s: KbState)
    requires
        kb_wf(s),
        !s.ext,
        cstr(s.buf).len() > 0,
    ensures
        ({
            let l = cstr(s.buf);
            let (s1, e1) = key_step(s, ENTER);
            let (s2, e2) = key_step(s1, EXT_PREFIX);
            let (s3, e3) = key_step(s2, UP);
            let (s4, e4) = key_step(s3, EXT_PREFIX);
            let (s5, e5) = key_step(s4, DOWN);
            &&& e1 == Effect::Line(s.buf)
            &&& cstr(s1.buf).len() == 0
            &&& s1.hist.last() == l
            &&& s1.hist.len() == (if s.hist.len() < HIST_MAX { s.hist.len() + 1 } else { HIST_MAX as nat })
            &&& s1.browse == s1.hist.len()
            &&& e3 == Effect::Replace(0, l)
            &&& cstr(s3.buf) == l
            &&& e5 == Effect::Replace(l.len(), Seq::empty())
            &&& cstr(s5.buf).len() == 0
        }),
{
    lemma_has_nul_len(s.buf);
    let l = cstr(s.buf);
    let (s1, e1) = key_step(s, ENTER);
    lemma_step_wf(s, ENTER);
    assert(is_cstr_len(s1.buf, 0));
    lemma_cstr_len_unique(s1.buf, 0);
    let (s2, e2) = key_step(s1, EXT_PREFIX);
    assert(s2.hist[s2.browse - 1] == l);
    assert(no_nul(l));
    lemma_put_line_cstr(s2.buf, l);
    let (s3, e3) = key_step(s2, UP);
    let (s4, e4) = key_step(s3, EXT_PREFIX);
    assert(s4.browse + 1 == s4.hist.len());
    lemma_put_line_cstr(s4.buf, Seq::empty());
}

/// Typing a character and then Backspace leaves the line as it was.
pub proof fn lemma_type_then_erase(s: KbState, sc: u8)
    requires
        kb_wf(s),
        types_char(s, sc),
        cstr_len(s.buf) + 1 < KEY_BUF,
    ensures
        ({
            let (s1, e1) = key_step(s, sc);
            let (s2, e2) = key_step(s1, BACKSPACE);
            &&& e1 == Effect::Echo(if s.shift { shift_table()[sc as int] } else { lower_table()[sc as int] })
            &&& cstr(s1.buf) == cstr(s.buf).push(if s.shift { shift_table()[sc as int] } else { lower_table()[sc as int] })
            &&& e2 == Effect::Erase
            &&& cstr(s2.buf) == cstr(s.buf)
        }),
{
    lemma_has_nul_len(s.buf);
    let n = cstr_len(s.buf);
    let c = if s.shift { shift_table()[sc as int] } else { lower_table()[sc as int] };
    assert(c != 0) by {
        assert(forall|i: int| 0 <= i < 58 ==> lower_table()[i] != 0 && shift_table()[i] != 0);
    }
    let (s1, e1) = key_step(s, sc);
    assert(is_cstr_len(s1.buf, n + 1));
    lemma_cstr_len_unique(s1.buf, n + 1);
    assert(cstr(s1.buf) =~= cstr(s.buf).push(c));
    let (s2, e2) = key_step(s1, BACKSPACE);
    assert(is_cstr_len(s2.buf, n));
    lemma_cstr_len_unique(s2.buf, n);
    assert(cstr(s2.buf) =~= cstr(s.buf));
}

/// The basic line editor: no Shift, no history, upper-case layout.
pub struct BasicKeyboard {
    pub buffer: Vec<u8>,
}

/// Buffer and echo of the basic editor after scancode `sc`.
pub open spec fn basic_step(buf: Seq<u8>, sc: u8) -> (Seq<u8>, Effect) {
    if sc > SC_MAX {
        (buf, Effect::Nothing)
    } else if sc == BACKSPACE {
        let n = cstr_len(buf);
        (if n > 0 { buf.update(n - 1, 0u8) } else { buf }, Effect::Erase)
    } else if sc == ENTER {
        (buf.update(0, 0u8), Effect::Line(buf))
    } else {
        let c = plain_table()[sc as int];
        let n = cstr_len(buf);
        (buf.update(n, c).update(n + 1, 0u8), Effect::Echo(c))
    }
}

impl BasicKeyboard {
    pub open spec fn wf(&self) -> bool {
        self.buffer@.len() == KEY_BUF && has_nul(self.buffer@)
    }

    /// An empty line.
    pub fn new() -> (k: BasicKeyboard)
        ensures
            k.wf(),
            k.buffer@ == Seq::new(KEY_BUF as nat, |i: int| 0u8),
    {
        let mut buffer: Vec<u8> = Vec::new();
        let mut i: usize = 0;
        while i < KEY_BUF
            invariant
                i <= KEY_BUF,
                buffer@ == Seq::new(i as nat, |j: int| 0u8),
            decreases KEY_BUF - i,
        {
            buffer.push(0);
            i += 1;
            proof {
                assert(buffer@ =~= Seq::new(i as nat, |j: int| 0u8));
            }
        }
        let k = BasicKeyboard { buffer };
        proof {
            assert(k.buffer@[0] == 0);
        }
        k
    }

    /// The line typed so far.
    pub fn line(&self) -> (r: Vec<u8>)
        requires
            self.wf(),
        ensures
            r@ == cstr(self.buffer@),
    {
        line_of(&self.buffer)
    }

    /// Handles scancode `sc`: Backspace, Enter, or a key of the layout;
    /// releases and unknown codes are ignored.
    pub fn key_event(&mut self, sc: u8) -> (r: KeyEffect)
        requires
            old(self).wf(),
            sc <= SC_MAX && sc != BACKSPACE && sc != ENTER ==> cstr_len(old(self).buffer@) + 1 < KEY_BUF,
        ensures
            final(self).wf(),
            (final(self).buffer@, r@) == basic_step(old(self).buffer@, sc),
    {
        proof {
            lemma_has_nul_len(self.buffer@);
        }
        if sc > SC_MAX {
            return KeyEffect::Nothing;
        }
        if sc == BACKSPACE {
            backspace(self.buffer.as_mut_slice());
            return KeyEffect::Erase;
        }
        if sc == ENTER {
            let line = copy_bytes(&self.buffer);
            self.buffer.set(0, 0);
            proof {
                assert(self.buffer@[0] == 0);
            }
            return KeyEffect::Line(line);
        }
        let c = plain_char(sc);
        append(self.buffer.as_mut_slice(), c);
        proof {
            let n = cstr_len(old(self).buffer@);
            assert(self.buffer@[n + 1] == 0);
        }
        KeyEffect::Echo(c)
    }
}

/// Law: pressing either Shift key (outside an extended sequence) and then a
/// character key types that key's character from the Shift layout, onto the
/// end of the line; releasing either Shift key instead types it from the
/// plain layout.
pub proof fn lemma_shift_then_key(s: KbState, shift_sc: u8, release_sc: u8, sc: u8)
    requires
        kb_wf(s),
        !s.ext,
        shift_sc == 0x2A || shift_sc == 0x36,
        release_sc == 0xAA || release_sc == 0xB6,
        sc <= 57,
        sc != 0x0E && sc != 0x1C && sc != 0x2A && sc != 0x36,
        cstr_len(s.buf) + 1 < KEY_BUF,
    ensures
        ({
            let (s1, e1) = key_step(s, shift_sc);
            let (s2, e2) = key_step(s1, sc);
            let c = shift_table()[sc as int];
            &&& e1 == Effect::Nothing
            &&& e2 == Effect::Echo(c)
            &&& cstr(s2.buf) == cstr(s.buf).push(c)
        }),
        ({
            let (s1, e1) = key_step(s, release_sc);
            let (s2, e2) = key_step(s1, sc);
            let c = lower_table()[sc as int];
            &&& e1 == Effect::Nothing
            &&& e2 == Effect::Echo(c)
            &&& cstr(s2.buf) == cstr(s.buf).push(c)
        }),
{
    lemma_has_nul_len(s.buf);
    let n = cstr_len(s.buf);
    let c = shift_table()[sc as int];
    let l = lower_table()[sc as int];
    assert(c != 0 && l != 0);
    let b2 = s.buf.update(n, c).update(n + 1, 0u8);
    assert(is_cstr_len(b2, n + 1));
    lemma_cstr_len_unique(b2, n + 1);
    assert(cstr(b2) =~= cstr(s.buf).push(c));
    let b3 = s.buf.update(n, l).update(n + 1, 0u8);
    assert(is_cstr_len(b3, n + 1));
    lemma_cstr_len_unique(b3, n + 1);
    assert(cstr(b3) =~= cstr(s.buf).push(l));
}

} // verus!
