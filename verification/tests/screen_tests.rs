use os_x86::screen::{cursor_bytes, offset_from_cursor, Screen, ScreenConfig, RED_ON_WHITE};

fn blank(cfg: ScreenConfig) -> Screen {
    let n = (2 * cfg.max_rows * cfg.max_cols) as usize;
    Screen::screen_init(cfg, vec![0u8; n], 0)
}

fn small() -> ScreenConfig {
    ScreenConfig { video_addr: 0xb8000, max_rows: 3, max_cols: 4, default_attr: 0x07, ctrl_port: 0x3d4, data_port: 0x3d5 }
}

#[test]
fn vga_default_is_80x25() {
    let c = ScreenConfig::vga_default();
    assert_eq!((c.max_cols, c.max_rows, c.video_addr, c.default_attr), (80, 25, 0xb8000, 0x0f));
}

#[test]
fn kprint_writes_chars_and_moves_cursor() {
    let mut s = blank(ScreenConfig::vga_default());
    s.kprint(b"Hi\0");
    assert_eq!(&s.cells[0..4], &[b'H', 0x0f, b'i', 0x0f]);
    assert_eq!(s.cursor, 4);
    s.kprint(b"\nX\0");
    assert_eq!(s.cursor, 162);
    assert_eq!(s.cells[160], b'X');
}

#[test]
fn kprint_at_position() {
    let mut s = blank(ScreenConfig::vga_default());
    s.kprint_at(b"ok\0", 10, 2);
    assert_eq!(s.cells[2 * (2 * 80 + 10)], b'o');
    assert_eq!(s.cursor, 2 * (2 * 80 + 12));
}

#[test]
fn running_off_the_bottom_scrolls() {
    let mut s = blank(small());
    s.kprint(b"abcdefghijkl\0");
    // 12 cells filled, then a scroll: line 0 is gone, last line blank.
    assert_eq!(s.cursor, 16);
    assert_eq!(s.cells[0], b'e');
    assert_eq!(s.cells[8], b'i');
    assert_eq!(&s.cells[16..24], &[0u8; 8]);
}

#[test]
fn off_screen_position_marks_last_cell() {
    let mut s = blank(small());
    s.kprint_at(b"z\0", 9, 0);
    assert_eq!(s.cells[22], b'E');
    assert_eq!(s.cells[23], RED_ON_WHITE);
    assert_eq!(s.cursor, 0);
}

#[test]
fn print_then_backspace_restores_cursor() {
    let mut s = blank(ScreenConfig::vga_default());
    s.kprint(b"ab\0");
    s.kprint_backspace();
    assert_eq!(s.cursor, 2);
    assert_eq!(&s.cells[2..4], &[b' ', 0x0f]);
    assert_eq!(s.cells[0], b'a');
}

#[test]
fn backspace_at_origin_blanks_in_place() {
    let mut s = blank(ScreenConfig::vga_default());
    s.kprint_backspace();
    assert_eq!(s.cursor, 0);
    assert_eq!(&s.cells[0..2], &[b' ', 0x0f]);
}

#[test]
fn clear_screen_blanks_and_homes() {
    let mut s = blank(small());
    s.kprint(b"abc\0");
    s.clear_screen();
    assert_eq!(s.cursor, 0);
    for i in 0..12 {
        assert_eq!(&s.cells[2 * i..2 * i + 2], &[b' ', 0x07]);
    }
}

#[test]
fn screen_write_at_leaves_cursor() {
    let mut s = blank(ScreenConfig::vga_default());
    s.screen_write_at(b"UP:1s\0", 72, 0);
    assert_eq!(s.cursor, 0);
    assert_eq!(&s.cells[144..154], &[b'U', 15, b'P', 15, b':', 15, b'1', 15, b's', 15]);
}

#[test]
fn cursor_register_bytes() {
    assert_eq!(cursor_bytes(2 * 300), (1, 44));
    assert_eq!(offset_from_cursor(1, 44), 600);
}
