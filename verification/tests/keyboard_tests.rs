use os_x86::keyboard::{BasicKeyboard, KeyEffect, Keyboard, BACKSPACE, DOWN, ENTER, EXT_PREFIX, HIST_MAX, LSHIFT, LSHIFT_REL, UP};

// Make codes of a few keys (set 1).
const K_H: u8 = 0x23;
const K_I: u8 = 0x17;
const K_L: u8 = 0x26;
const K_S: u8 = 0x1F;
const K_1: u8 = 0x02;
const K_SPACE: u8 = 0x39;

fn type_keys(k: &mut Keyboard, codes: &[u8]) -> Vec<KeyEffect> {
    codes.iter().map(|&c| k.key_event(c)).collect()
}

#[test]
fn typing_echoes_lowercase_and_builds_the_line() {
    let mut k = Keyboard::new();
    let e = type_keys(&mut k, &[K_L, K_S]);
    assert!(matches!(e[0], KeyEffect::Echo(b'l')));
    assert!(matches!(e[1], KeyEffect::Echo(b's')));
    assert_eq!(k.line(), b"ls".to_vec());
}

#[test]
fn shift_gives_the_shifted_layout() {
    let mut k = Keyboard::new();
    assert!(matches!(k.key_event(LSHIFT), KeyEffect::Nothing));
    assert!(matches!(k.key_event(K_H), KeyEffect::Echo(b'H')));
    assert!(matches!(k.key_event(K_1), KeyEffect::Echo(b'!')));
    assert!(matches!(k.key_event(LSHIFT_REL), KeyEffect::Nothing));
    assert!(matches!(k.key_event(K_I), KeyEffect::Echo(b'i')));
    assert_eq!(k.line(), b"H!i".to_vec());
}

#[test]
fn releases_are_ignored() {
    let mut k = Keyboard::new();
    assert!(matches!(k.key_event(K_H | 0x80), KeyEffect::Nothing));
    assert_eq!(k.line(), Vec::<u8>::new());
}

#[test]
fn type_then_backspace_restores_line() {
    let mut k = Keyboard::new();
    type_keys(&mut k, &[K_H, K_I]);
    assert!(matches!(k.key_event(BACKSPACE), KeyEffect::Erase));
    assert_eq!(k.line(), b"h".to_vec());
    assert!(matches!(k.key_event(BACKSPACE), KeyEffect::Erase));
    assert!(matches!(k.key_event(BACKSPACE), KeyEffect::Erase));
    assert_eq!(k.line(), Vec::<u8>::new());
}

#[test]
fn enter_hands_over_the_line_and_clears_it() {
    let mut k = Keyboard::new();
    type_keys(&mut k, &[K_L, K_S, K_SPACE]);
    match k.key_event(ENTER) {
        KeyEffect::Line(buf) => {
            assert_eq!(buf.len(), 256);
            assert_eq!(&buf[..4], b"ls \0");
        }
        _ => panic!("expected a line"),
    }
    assert_eq!(k.line(), Vec::<u8>::new());
    assert_eq!(k.history_len(), 1);
    assert_eq!(k.history_line(0), b"ls ".to_vec());
}

#[test]
fn empty_lines_are_not_kept() {
    let mut k = Keyboard::new();
    k.key_event(ENTER);
    assert_eq!(k.history_len(), 0);
}

#[test]
fn up_recalls_and_down_returns_to_empty() {
    let mut k = Keyboard::new();
    type_keys(&mut k, &[K_L, K_S, ENTER, K_H, K_I, ENTER]);
    k.key_event(EXT_PREFIX);
    match k.key_event(UP) {
        KeyEffect::Replace(erase, text) => {
            assert_eq!(erase, 0);
            assert_eq!(text, b"hi".to_vec());
        }
        _ => panic!("expected a replacement"),
    }
    k.key_event(EXT_PREFIX);
    k.key_event(UP);
    assert_eq!(k.line(), b"ls".to_vec());
    k.key_event(EXT_PREFIX);
    assert!(matches!(k.key_event(UP), KeyEffect::Nothing));
    k.key_event(EXT_PREFIX);
    k.key_event(DOWN);
    assert_eq!(k.line(), b"hi".to_vec());
    k.key_event(EXT_PREFIX);
    match k.key_event(DOWN) {
        KeyEffect::Replace(erase, text) => {
            assert_eq!(erase, 2);
            assert!(text.is_empty());
        }
        _ => panic!("expected a replacement"),
    }
    assert_eq!(k.line(), Vec::<u8>::new());
    k.key_event(EXT_PREFIX);
    assert!(matches!(k.key_event(DOWN), KeyEffect::Nothing));
}

#[test]
fn history_keeps_the_last_sixteen_lines() {
    let mut k = Keyboard::new();
    for i in 0..(HIST_MAX + 2) {
        let code = [0x02u8, 0x03, 0x04, 0x05, 0x06, 0x07, 0x08, 0x09, 0x0A][i % 9];
        k.key_event(code);
        k.key_event(ENTER);
    }
    assert_eq!(k.history_len(), HIST_MAX);
    assert_eq!(k.history_line(0), b"3".to_vec());
    assert_eq!(k.history_line(HIST_MAX - 1), b"9".to_vec());
}

#[test]
fn basic_keyboard_is_upper_case() {
    let mut k = BasicKeyboard::new();
    assert!(matches!(k.key_event(K_H), KeyEffect::Echo(b'H')));
    assert!(matches!(k.key_event(K_I), KeyEffect::Echo(b'I')));
    assert!(matches!(k.key_event(0x80), KeyEffect::Nothing));
    assert!(matches!(k.key_event(BACKSPACE), KeyEffect::Erase));
    assert_eq!(k.line(), b"H".to_vec());
    match k.key_event(ENTER) {
        KeyEffect::Line(buf) => assert_eq!(&buf[..2], b"H\0"),
        _ => panic!("expected a line"),
    }
    assert_eq!(k.line(), Vec::<u8>::new());
}
