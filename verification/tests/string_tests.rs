use os_x86::string::{append, backspace, hex_to_ascii, int_to_ascii, reverse, strcmp, strlen};

fn cstr(buf: &[u8]) -> &[u8] {
    let n = buf.iter().position(|&b| b == 0).unwrap();
    &buf[..n]
}

#[test]
fn strlen_counts_bytes_before_nul() {
    assert_eq!(strlen(b"hello\0xyz"), 5);
    assert_eq!(strlen(b"\0"), 0);
}

#[test]
fn reverse_reverses_the_c_string_only() {
    let mut b = *b"abc\0zz";
    reverse(&mut b);
    assert_eq!(&b, b"cba\0zz");
}

#[test]
fn int_to_ascii_positive_negative_zero() {
    let mut b = [0xAAu8; 12];
    int_to_ascii(1234, &mut b);
    assert_eq!(cstr(&b), b"1234");
    int_to_ascii(-56, &mut b);
    assert_eq!(cstr(&b), b"-56");
    int_to_ascii(0, &mut b);
    assert_eq!(cstr(&b), b"0");
    int_to_ascii(i32::MAX, &mut b);
    assert_eq!(cstr(&b), b"2147483647");
}

#[test]
fn hex_to_ascii_appends_lowercase_without_leading_zeros() {
    let mut b = [0u8; 16];
    hex_to_ascii(0x1A2B, &mut b);
    assert_eq!(cstr(&b), b"0x1a2b");
    let mut z = [0u8; 16];
    hex_to_ascii(0, &mut z);
    assert_eq!(cstr(&z), b"0x0");
    let mut m = [0u8; 16];
    hex_to_ascii(-1, &mut m);
    assert_eq!(cstr(&m), b"0xffffffff");
    let mut p = *b"A=\0.............";
    hex_to_ascii(0x100, &mut p);
    assert_eq!(cstr(&p), b"A=0x100");
}

#[test]
fn append_then_backspace_restores() {
    let mut b = *b"ab\0\0\0";
    append(&mut b, b'c');
    assert_eq!(cstr(&b), b"abc");
    backspace(&mut b);
    assert_eq!(cstr(&b), b"ab");
    let mut e = [0u8; 4];
    backspace(&mut e);
    assert_eq!(cstr(&e), b"");
}

#[test]
fn strcmp_orders_by_first_difference() {
    assert_eq!(strcmp(b"END\0", b"END\0"), 0);
    assert!(strcmp(b"ABC\0", b"ABD\0") < 0);
    assert!(strcmp(b"ABD\0", b"ABC\0") > 0);
    assert!(strcmp(b"AB\0", b"ABC\0") < 0);
    assert_eq!(strcmp(b"x\0junk", b"x\0other"), 0);
}

#[test]
fn int_to_ascii_keeps_the_bytes_after_the_text() {
    let mut b = [0xAAu8; 16];
    int_to_ascii(-42, &mut b);
    assert_eq!(&b[..4], b"-42\0");
    assert!(b[4..].iter().all(|&c| c == 0xAA));
    let mut c = [0x55u8; 12];
    int_to_ascii(2147483647, &mut c);
    assert_eq!(&c[..11], b"2147483647\0");
    assert_eq!(c[11], 0x55);
}
