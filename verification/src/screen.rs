//! VGA text-mode console. The screen is `max_rows` x `max_cols` cells of two
//! bytes (character, attribute); `cells` mirrors video memory and `cursor`
//! is the hardware cursor as a byte offset into it. The caller copies the
//! cells to video memory and programs the cursor through the CRT ports.
use vstd::prelude::*;
use crate::string::{has_nul, is_cstr_len, cstr, cstr_len, lemma_has_nul_len};

verus! {

/// Attribute of the overflow marker `E` written in the last cell.
pub const RED_ON_WHITE: u8 = 0xf4;

/// Where video memory is and how big the screen is.
#[derive(Clone, Copy, PartialEq, Eq, Structural)]
pub struct ScreenConfig {
    pub video_addr: u32,
    pub max_rows: i32,
    pub max_cols: i32,
    pub default_attr: u8,
    pub ctrl_port: u16,
    pub data_port: u16,
}

impl ScreenConfig {
    /// The standard 80x25 colour text mode at 0xb8000.
    pub fn vga_default() -> (c: ScreenConfig)
        ensures
            c == (ScreenConfig {
                video_addr: 0xb8000,
                max_rows: 25,
                max_cols: 80,
                default_attr: 0x0f,
                ctrl_port: 0x3d4,
                data_port: 0x3d5,
            }),
    {
        ScreenConfig { video_addr: 0xb8000, max_rows: 25, max_cols: 80, default_attr: 0x0f, ctrl_port: 0x3d4, data_port: 0x3d5 }
    }

    /// A screen of at least one cell whose byte size fits in an `i32`.
    pub open spec fn ok(&self) -> bool {
        &&& 0 < self.max_rows
        &&& 0 < self.max_cols
        &&& 2 * self.max_rows * self.max_cols <= i32::MAX
    }

    /// Bytes of video memory the screen covers.
    pub open spec fn size(&self) -> int {
        2 * self.max_rows * self.max_cols
    }

    /// Byte offset of cell (`col`, `row`).
    pub open spec fn offset(&self, col: int, row: int) -> int {
        2 * (row * self.max_cols + col)
    }
}

proof fn lemma_cfg_bounds(cfg: ScreenConfig)
    requires
        cfg.ok(),
    ensures
        2 * cfg.max_cols <= cfg.size() <= i32::MAX,
        2 * cfg.max_rows <= cfg.size(),
        cfg.size() % 2 == 0,
        cfg.size() == 2 * cfg.max_rows * cfg.max_cols,
{
    assert(2 * cfg.max_cols <= 2 * cfg.max_rows * cfg.max_cols) by (nonlinear_arith)
        requires
            0 < cfg.max_rows,
            0 < cfg.max_cols,
    ;
    assert(2 * cfg.max_rows <= 2 * cfg.max_rows * cfg.max_cols) by (nonlinear_arith)
        requires
            0 < cfg.max_rows,
            0 < cfg.max_cols,
    ;
    let p = cfg.max_rows * cfg.max_cols;
    assert(2 * cfg.max_rows * cfg.max_cols == 2 * p) by (nonlinear_arith)
        requires
            p == cfg.max_rows * cfg.max_cols,
    ;
}

/// The screen scrolled up one line: every line moves up, the last line is
/// zeroed.
pub open spec fn scrolled(cells: Seq<u8>, cols: int) -> Seq<u8> {
    Seq::new(cells.len(), |i: int| if i < cells.len() - 2 * cols { cells[i + 2 * cols] } else { 0u8 })
}

/// Cells, cursor and returned offset after printing `c` at (`col`, `row`)
/// (at the cursor when either is negative) with attribute `attr` (the
/// default when 0). Off-screen positions mark the last cell with a red `E`
/// and change nothing else. `\n` moves to the next line start, 0x08 blanks
/// the cell in place, other bytes are written and advance; running off the
/// bottom scrolls.
pub open spec fn print_char_spec(cfg: ScreenConfig, cells: Seq<u8>, cursor: int, c: u8, col: int, row: int, attr: u8) -> (Seq<u8>, int, int) {
    let a = if attr == 0 { cfg.default_attr } else { attr };
    let lim = cfg.size();
    let w = 2 * cfg.max_cols;
    if col >= cfg.max_cols || row >= cfg.max_rows {
        (cells.update(lim - 2, 69u8).update(lim - 1, RED_ON_WHITE), cursor, cfg.offset(col, row))
    } else {
        let o = if col >= 0 && row >= 0 { cfg.offset(col, row) } else { cursor };
        let (c1, o1) = if c == 10 {
            (cells, cfg.offset(0, o / w + 1))
        } else if c == 8 {
            (cells.update(o, 32u8).update(o + 1, a), o)
        } else {
            (cells.update(o, c).update(o + 1, a), o + 2)
        };
        if o1 >= lim {
            (scrolled(c1, cfg.max_cols as int), o1 - w, o1 - w)
        } else {
            (c1, o1, o1)
        }
    }
}

/// Cells and cursor after printing `msg` from (`col`, `row`) on; each
/// character continues where the previous one left off.
pub open spec fn print_from(cfg: ScreenConfig, cells: Seq<u8>, cursor: int, msg: Seq<u8>, col: int, row: int) -> (Seq<u8>, int)
    decreases msg.len(),
{
    if msg.len() == 0 {
        (cells, cursor)
    } else {
        let (c1, cur1, off) = print_char_spec(cfg, cells, cursor, msg[0], col, row, cfg.default_attr);
        let w = 2 * cfg.max_cols;
        print_from(cfg, c1, cur1, msg.drop_first(), (off % w) / 2, off / w)
    }
}

/// The console.
pub struct Screen {
    pub cfg: ScreenConfig,
    pub cells: Vec<u8>,
    pub cursor: i32,
}

impl Screen {
    pub open spec fn wf(&self) -> bool {
        &&& self.cfg.ok()
        &&& self.cells@.len() == self.cfg.size()
        &&& 0 <= self.cursor < self.cfg.size()
        &&& self.cursor % 2 == 0
    }

    /// Takes over a screen showing `cells` with the cursor at byte offset
    /// `cursor`.
    pub fn screen_init(cfg: ScreenConfig, cells: Vec<u8>, cursor: i32) -> (s: Screen)
        requires
            cfg.ok(),
            cells@.len() == cfg.size(),
            0 <= cursor < cfg.size(),
            cursor % 2 == 0,
        ensures
            s.wf(),
            s.cfg == cfg,
            s.cells@ == cells@,
            s.cursor == cursor,
    {
        Screen { cfg, cells, cursor }
    }

    /// Byte offset of cell (`col`, `row`).
    fn get_offset(&self, col: i32, row: i32) -> (r: i32)
        requires
            self.cfg.ok(),
            0 <= col,
            0 <= row,
            self.cfg.offset(col as int, row as int) <= i32::MAX,
        ensures
            r == self.cfg.offset(col as int, row as int),
    {
        proof {
            assert(0 <= row * self.cfg.max_cols) by (nonlinear_arith)
                requires
                    0 <= row,
                    0 < self.cfg.max_cols,
            ;
        }
        2 * (row * self.cfg.max_cols + col)
    }

    /// Row of a (non-negative) byte offset.
    fn get_offset_row(&self, offset: i32) -> (r: i32)
        requires
            self.cfg.ok(),
            0 <= offset,
        ensures
            r == (offset as int) / (2 * self.cfg.max_cols),
            0 <= r,
    {
        proof {
            lemma_cfg_bounds(self.cfg);
        }
        let w = (2 * self.cfg.max_cols) as u32;
        ((offset as u32) / w) as i32
    }

    /// Column of a (non-negative) byte offset.
    fn get_offset_col(&self, offset: i32) -> (r: i32)
        requires
            self.cfg.ok(),
            0 <= offset,
        ensures
            r == ((offset as int) % (2 * self.cfg.max_cols)) / 2,
            0 <= r < self.cfg.max_cols,
    {
        proof {
            lemma_cfg_bounds(self.cfg);
        }
        let w = (2 * self.cfg.max_cols) as u32;
        (((offset as u32) % w) / 2) as i32
    }

    /// Moves every line up one and zeroes the last line.
    fn scroll(&mut self)
        requires
            old(self).cfg.ok(),
            old(self).cells@.len() == old(self).cfg.size(),
        ensures
            final(self).cells@ == scrolled(old(self).cells@, old(self).cfg.max_cols as int),
            final(self).cfg == old(self).cfg,
            final(self).cursor == old(self).cursor,
    {
        proof {
            lemma_cfg_bounds(self.cfg);
        }
        let lim = self.cells.len();
        let w = (2 * self.cfg.max_cols) as usize;
        proof {
            assert(w <= lim) by (nonlinear_arith)
                requires
                    w == 2 * self.cfg.max_cols,
                    lim == 2 * self.cfg.max_rows * self.cfg.max_cols,
                    0 < self.cfg.max_rows,
                    0 < self.cfg.max_cols,
            ;
        }
        let ghost c0 = self.cells@;
        let mut i: usize = 0;
        while i < lim - w
            invariant
                w <= lim,
                lim == c0.len(),
                self.cells@.len() == lim,
                i <= lim - w,
                forall|k: int| 0 <= k < i ==> #[trigger] self.cells@[k] == c0[k + w],
                forall|k: int| i <= k < lim ==> #[trigger] self.cells@[k] == c0[k],
                self.cfg == old(self).cfg,
                self.cursor == old(self).cursor,
            decreases lim - w - i,
        {
            let b = self.cells[i + w];
            self.cells.set(i, b);
            i += 1;
        }
        while i < lim
            invariant
                w <= lim,
                lim == c0.len(),
                self.cells@.len() == lim,
                lim - w <= i <= lim,
                forall|k: int| 0 <= k < lim - w ==> #[trigger] self.cells@[k] == c0[k + w],
                forall|k: int| lim - w <= k < i ==> #[trigger] self.cells@[k] == 0,
                self.cfg == old(self).cfg,
                self.cursor == old(self).cursor,
            decreases lim - i,
        {
            self.cells.set(i, 0);
            i += 1;
        }
        proof {
            assert(self.cells@ =~= scrolled(c0, self.cfg.max_cols as int));
        }
    }

    /// Prints byte `c` at (`col`, `row`) (at the cursor when either is
    /// negative) and returns the offset where the next character goes.
    fn print_char(&mut self, c: u8, col: i32, row: i32, attr: u8) -> (r: i32)
        requires
            old(self).wf(),
            (0 <= col && 0 <= row && old(self).cfg.offset(col as int, row as int) <= i32::MAX)
                || (col < old(self).cfg.max_cols && row < old(self).cfg.max_rows),
        ensures
            final(self).wf(),
            final(self).cfg == old(self).cfg,
            (final(self).cells@, final(self).cursor as int, r as int) == print_char_spec(
                old(self).cfg, old(self).cells@, old(self).cursor as int, c, col as int, row as int, attr),
            0 <= col && 0 <= row ==> 0 <= r && r % 2 == 0,
    {
        let cfg = self.cfg;
        proof {
            lemma_cfg_bounds(cfg);
        }
        let a = if attr == 0 { cfg.default_attr } else { attr };
        let lim: i32 = 2 * cfg.max_rows * cfg.max_cols;
        let w: i32 = 2 * cfg.max_cols;
        proof {
            assert(w <= lim) by (nonlinear_arith)
                requires
                    w == 2 * cfg.max_cols,
                    lim == 2 * cfg.max_rows * cfg.max_cols,
                    0 < cfg.max_rows,
                    0 < cfg.max_cols,
            ;
        }
        if col >= cfg.max_cols || row >= cfg.max_rows {
            let last = (lim - 2) as usize;
            self.cells.set(last, 69);
            self.cells.set(last + 1, RED_ON_WHITE);
            proof {
                if 0 <= col && 0 <= row {
                    assert(0 <= row * cfg.max_cols) by (nonlinear_arith)
                        requires
                            0 <= row,
                            0 < cfg.max_cols,
                    ;
                }
            }
            return self.get_offset(col, row);
        }
        let mut offset = if col >= 0 && row >= 0 {
            proof {
                assert(cfg.offset(col as int, row as int) + 2 <= lim) by (nonlinear_arith)
                    requires
                        0 <= col < cfg.max_cols,
                        0 <= row < cfg.max_rows,
                        lim == 2 * cfg.max_rows * cfg.max_cols,
                ;
            }
            self.get_offset(col, row)
        } else {
            self.cursor
        };
        proof {
            assert(offset % 2 == 0);
        }
        if c == 10 {
            let r = self.get_offset_row(offset);
            proof {
                assert(r < cfg.max_rows && 0 <= r) by (nonlinear_arith)
                    requires
                        r == offset / w,
                        0 <= offset < lim,
                        w == 2 * cfg.max_cols,
                        lim == 2 * cfg.max_rows * cfg.max_cols,
                        0 < cfg.max_cols,
                ;
                assert(cfg.offset(0, r + 1) <= lim) by (nonlinear_arith)
                    requires
                        0 <= r < cfg.max_rows,
                        lim == 2 * cfg.max_rows * cfg.max_cols,
                        0 < cfg.max_cols,
                ;
            }
            offset = self.get_offset(0, r + 1);
        } else if c == 8 {
            self.cells.set(offset as usize, 32);
            self.cells.set(offset as usize + 1, a);
        } else {
            self.cells.set(offset as usize, c);
            self.cells.set(offset as usize + 1, a);
            offset = offset + 2;
        }
        if offset >= lim {
            self.scroll();
            offset = offset - w;
        }
        self.cursor = offset;
        offset
    }

    /// Prints the NUL-terminated `msg` from (`col`, `row`), or from the
    /// cursor when either is negative.
    pub fn kprint_at(&mut self, msg: &[u8], col: i32, row: i32)
        requires
            old(self).wf(),
            has_nul(msg@),
            col < 0 || row < 0 || old(self).cfg.offset(col as int, row as int) <= i32::MAX,
        ensures
            final(self).wf(),
            final(self).cfg == old(self).cfg,
            ({
                let cfg = old(self).cfg;
                let cur = old(self).cursor as int;
                let w = 2 * cfg.max_cols;
                let (c0, r0) = if col < 0 || row < 0 { ((cur % w) / 2, cur / w) } else { (col as int, row as int) };
                (final(self).cells@, final(self).cursor as int) == print_from(cfg, old(self).cells@, cur, cstr(msg@), c0, r0)
            }),
    {
        proof {
            lemma_has_nul_len(msg@);
            lemma_cfg_bounds(self.cfg);
        }
        let ghost n = cstr_len(msg@);
        let ghost line = cstr(msg@);
        let ghost cfg = self.cfg;
        let mut col = col;
        let mut row = row;
        if col < 0 || row < 0 {
            let o = self.cursor;
            row = self.get_offset_row(o);
            col = self.get_offset_col(o);
            proof {
                lemma_split(o as int, cfg.max_cols as int);
            }
        }
        let ghost goal = print_from(cfg, self.cells@, self.cursor as int, line, col as int, row as int);
        proof {
            assert(line.subrange(0, n) =~= line);
        }
        let mut i: usize = 0;
        while msg[i] != 0
            invariant
                self.wf(),
                self.cfg == cfg,
                is_cstr_len(msg@, n),
                line == msg@.subrange(0, n),
                i <= n,
                0 <= col,
                0 <= row,
                cfg.offset(col as int, row as int) <= i32::MAX,
                print_from(cfg, self.cells@, self.cursor as int, line.subrange(i as int, n), col as int, row as int) == goal,
            decreases n - i,
        {
            let ghost rest = line.subrange(i as int, n);
            let offset = self.print_char(msg[i], col, row, self.cfg.default_attr);
            row = self.get_offset_row(offset);
            col = self.get_offset_col(offset);
            proof {
                lemma_split(offset as int, cfg.max_cols as int);
                assert(rest.drop_first() =~= line.subrange(i + 1, n));
            }
            i += 1;
        }
        proof {
            assert(line.subrange(i as int, n) =~= Seq::<u8>::empty());
        }
    }

    /// Prints the NUL-terminated `msg` at the cursor.
    pub fn kprint(&mut self, msg: &[u8])
        requires
            old(self).wf(),
            has_nul(msg@),
        ensures
            final(self).wf(),
            final(self).cfg == old(self).cfg,
            ({
                let cfg = old(self).cfg;
                let cur = old(self).cursor as int;
                let w = 2 * cfg.max_cols;
                (final(self).cells@, final(self).cursor as int) == print_from(cfg, old(self).cells@, cur, cstr(msg@), (cur % w) / 2, cur / w)
            }),
    {
        self.kprint_at(msg, -1, -1)
    }

    /// Erases the character before the cursor and moves the cursor back
    /// onto it (at the top-left corner the cell under the cursor is blanked).
    pub fn kprint_backspace(&mut self)
        requires
            old(self).wf(),
        ensures
            final(self).wf(),
            final(self).cfg == old(self).cfg,
            ({
                let cfg = old(self).cfg;
                let o = old(self).cursor - 2;
                let w = 2 * cfg.max_cols;
                let (col, row) = if o >= 0 { ((o % w) / 2, o / w) } else { (-1int, 0int) };
                let p = print_char_spec(cfg, old(self).cells@, old(self).cursor as int, 8, col, row, cfg.default_attr);
                final(self).cells@ == p.0 && final(self).cursor == p.1
            }),
    {
        proof {
            lemma_cfg_bounds(self.cfg);
        }
        let offset = self.cursor - 2;
        let (col, row) = if offset >= 0 {
            proof {
                lemma_split(offset as int, self.cfg.max_cols as int);
                assert(offset as int / (2 * self.cfg.max_cols) < self.cfg.max_rows) by (nonlinear_arith)
                    requires
                        0 <= offset < self.cfg.size(),
                        self.cfg.size() == 2 * self.cfg.max_rows * self.cfg.max_cols,
                        0 < self.cfg.max_cols,
                ;
            }
            (self.get_offset_col(offset), self.get_offset_row(offset))
        } else {
            // Row 0, column -1: the cursor itself.
            (-1i32, 0i32)
        };
        self.print_char(8, col, row, self.cfg.default_attr);
    }

    /// Blanks every cell with the default attribute and homes the cursor.
    pub fn clear_screen(&mut self)
        requires
            old(self).wf(),
        ensures
            final(self).wf(),
            final(self).cfg == old(self).cfg,
            final(self).cursor == 0,
            final(self).cells@ == Seq::new(old(self).cells@.len(), |i: int| if i % 2 == 0 { 32u8 } else { old(self).cfg.default_attr }),
    {
        proof {
            lemma_cfg_bounds(self.cfg);
        }
        let n = self.cells.len() / 2;
        let attr = self.cfg.default_attr;
        let ghost len = self.cells@.len();
        let mut i: usize = 0;
        while i < n
            invariant
                len == self.cells@.len(),
                len % 2 == 0,
                n == len / 2,
                2 * n == len,
                len <= usize::MAX,
                i <= n,
                forall|k: int| 0 <= k < 2 * i ==> #[trigger] self.cells@[k] == (if k % 2 == 0 { 32u8 } else { attr }),
                self.cfg == old(self).cfg,
                self.cursor == old(self).cursor,
                attr == self.cfg.default_attr,
            decreases n - i,
        {
            self.cells.set(i * 2, 32);
            self.cells.set(i * 2 + 1, attr);
            i += 1;
        }
        self.cursor = 0;
        proof {
            assert(self.cells@ =~= Seq::new(len, |k: int| if k % 2 == 0 { 32u8 } else { attr }));
        }
    }

    /// Writes the NUL-terminated `msg` at (`col`, `row`) without moving the
    /// cursor or scrolling.
    pub fn screen_write_at(&mut self, msg: &[u8], col: i32, row: i32)
        requires
            old(self).wf(),
            has_nul(msg@),
            0 <= col,
            0 <= row,
            old(self).cfg.offset(col as int, row as int) + 2 * cstr_len(msg@) <= old(self).cfg.size(),
        ensures
            final(self).wf(),
            final(self).cfg == old(self).cfg,
            final(self).cursor == old(self).cursor,
            ({
                let o = old(self).cfg.offset(col as int, row as int);
                let line = cstr(msg@);
                final(self).cells@ == Seq::new(old(self).cells@.len(), |k: int|
                    if o <= k < o + 2 * line.len() {
                        if (k - o) % 2 == 0 { line[(k - o) / 2] } else { old(self).cfg.default_attr }
                    } else {
                        old(self).cells@[k]
                    })
            }),
    {
        proof {
            lemma_has_nul_len(msg@);
            lemma_cfg_bounds(self.cfg);
            assert(0 <= row * self.cfg.max_cols) by (nonlinear_arith)
                requires
                    0 <= row,
                    0 < self.cfg.max_cols,
            ;
        }
        let ghost n = cstr_len(msg@);
        let ghost line = cstr(msg@);
        let ghost c0 = self.cells@;
        let ghost o = self.cfg.offset(col as int, row as int);
        let attr = self.cfg.default_attr;
        let mut i: usize = 0;
        while msg[i] != 0
            invariant
                self.wf(),
                self.cfg == old(self).cfg,
                self.cursor == old(self).cursor,
                attr == self.cfg.default_attr,
                is_cstr_len(msg@, n),
                line == msg@.subrange(0, n),
                0 <= col,
                0 <= row,
                o == self.cfg.offset(col as int, row as int),
                0 <= o,
                o + 2 * n <= self.cfg.size(),
                i <= n,
                c0 == old(self).cells@,
                c0.len() == self.cfg.size(),
                forall|k: int| 0 <= k < c0.len() ==> #[trigger] self.cells@[k] == (
                    if o <= k < o + 2 * i {
                        if (k - o) % 2 == 0 { line[(k - o) / 2] } else { attr }
                    } else {
                        c0[k]
                    }),
            decreases n - i,
        {
            let ch = msg[i];
            let offset = self.get_offset(col + i as i32, row) as usize;
            assert(offset == o + 2 * i);
            self.cells.set(offset, ch);
            self.cells.set(offset + 1, attr);
            proof {
                let i1 = i + 1;
                assert forall|k: int| 0 <= k < c0.len() implies #[trigger] self.cells@[k] == (
                    if o <= k < o + 2 * i1 {
                        if (k - o) % 2 == 0 { line[(k - o) / 2] } else { attr }
                    } else {
                        c0[k]
                    }) by {
                    if k == offset {
                        assert((k - o) / 2 == i);
                    } else if k == offset + 1 {
                        assert((k - o) % 2 == 1);
                    }
                }
            }
            i += 1;
        }
        proof {
            assert(self.cells@ =~= Seq::new(c0.len(), |k: int|
                if o <= k < o + 2 * line.len() {
                    if (k - o) % 2 == 0 { line[(k - o) / 2] } else { attr }
                } else {
                    c0[k]
                }));
        }
    }
}

/// Splitting an even, non-negative offset into column and row gives it back.
proof fn lemma_split(off: int, cols: int)
    requires
        0 <= off,
        off % 2 == 0,
        0 < cols,
    ensures
        0 <= off / (2 * cols),
        0 <= (off % (2 * cols)) / 2 < cols,
        2 * ((off / (2 * cols)) * cols + (off % (2 * cols)) / 2) == off,
{
    let w = 2 * cols;
    let q = off / w;
    let m = off % w;
    vstd::arithmetic::div_mod::lemma_fundamental_div_mod(off, w);
    let z = cols * q;
    assert(w * q == 2 * z) by (nonlinear_arith)
        requires
            w == 2 * cols,
            z == cols * q,
    ;
    assert(m % 2 == 0) by (nonlinear_arith)
        requires
            m == off - 2 * z,
            off % 2 == 0,
    ;
    assert(2 * (q * cols) == w * q) by (nonlinear_arith)
        requires
            w == 2 * cols,
    ;
    assert(0 <= q) by (nonlinear_arith)
        requires
            q == off / w,
            0 <= off,
            0 < w,
    ;
}

/// Printing a character at the cursor and then a backspace puts the cursor
/// back and leaves a blank cell where the character was (away from the
/// bottom-right corner, where the print would scroll).
pub proof fn lemma_print_then_backspace(cfg: ScreenConfig, cells: Seq<u8>, cursor: int, c: u8)
    requires
        cfg.ok(),
        cells.len() == cfg.size(),
        0 <= cursor,
        cursor + 2 < cfg.size(),
        cursor % 2 == 0,
        c != 10,
        c != 8,
    ensures
        ({
            let w = 2 * cfg.max_cols;
            let (c1, cur1, r1) = print_char_spec(cfg, cells, cursor, c, (cursor % w) / 2, cursor / w, cfg.default_attr);
            let o = cur1 - 2;
            let (c2, cur2, r2) = print_char_spec(cfg, c1, cur1, 8, (o % w) / 2, o / w, cfg.default_attr);
            &&& cur1 == cursor + 2
            &&& c1 == cells.update(cursor, c).update(cursor + 1, cfg.default_attr)
            &&& cur2 == cursor
            &&& c2 == cells.update(cursor, 32u8).update(cursor + 1, cfg.default_attr)
        }),
{
    let w = 2 * cfg.max_cols;
    lemma_cfg_bounds(cfg);
    lemma_split(cursor, cfg.max_cols as int);
    assert(cursor / w < cfg.max_rows) by (nonlinear_arith)
        requires
            0 <= cursor < cfg.size(),
            cfg.size() == 2 * cfg.max_rows * cfg.max_cols,
            w == 2 * cfg.max_cols,
            0 < cfg.max_cols,
    ;
    let (c1, cur1, r1) = print_char_spec(cfg, cells, cursor, c, (cursor % w) / 2, cursor / w, cfg.default_attr);
    assert(cur1 == cursor + 2);
    let o = cur1 - 2;
    let (c2, cur2, r2) = print_char_spec(cfg, c1, cur1, 8, (o % w) / 2, o / w, cfg.default_attr);
    assert(c2 =~= cells.update(cursor, 32u8).update(cursor + 1, cfg.default_attr));
}

/// The CRT cursor-location registers (14: high byte, 15: low byte) for a
/// byte offset: the cell index `offset / 2`.
pub fn cursor_bytes(offset: i32) -> (r: (u8, u8))
    requires
        0 <= offset,
    ensures
        r.0 == ((offset / 2) / 256) % 256,
        r.1 == (offset / 2) % 256,
{
    let cell = (offset / 2) as u32;
    let hi = ((cell >> 8) & 0xFF) as u8;
    let lo = (cell & 0xFF) as u8;
    assert(hi == (cell / 256) % 256 && lo == cell % 256) by (bit_vector)
        requires
            hi == ((cell >> 8) & 0xFF) as u8,
            lo == (cell & 0xFF) as u8,
    ;
    (hi, lo)
}

/// Byte offset of the cursor read back from registers 14 (`hi`) and 15
/// (`lo`).
pub fn offset_from_cursor(hi: u8, lo: u8) -> (r: i32)
    ensures
        r == 2 * (hi * 256 + lo),
{
    ((hi as i32) * 256 + lo as i32) * 2
}

} // verus!
