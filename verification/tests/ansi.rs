use heatseeker::ansi::{
    blank_screen, cursor_right, cursor_up, hide_cursor, inverse, parse_cursor_move, red, reset,
    restore_cursor, save_cursor, show_cursor, translate_bytes, translate_char,
};
use heatseeker::screen::Key;
use heatseeker::screen::Key::{
    Backspace, Char, Control, Down, End, Enter, Home, PgDown, PgUp, Resize, ShiftTab, Tab, Up,
};

#[test]
fn translate_bytes_escape() {
    assert_eq!(translate_bytes(&[27u8]), vec![Control('g')]);
}

#[test]
fn translate_bytes_down_arrow() {
    assert_eq!(translate_bytes(b"\x1B[A"), vec![Up]);
}

#[test]
fn translate_bytes_down_arrows() {
    assert_eq!(translate_bytes(b"\x1B[A\x1B[A"), vec![Up, Up]);
}

#[test]
fn translate_bytes_mixed() {
    assert_eq!(translate_bytes(b"\x1BOAa\x1BOA"), vec![Up, Char('a'), Up]);
    assert_eq!(translate_bytes(b"\x1B[Aa\x1B[A"), vec![Up, Char('a'), Up]);
    assert_eq!(translate_bytes(b"\x1BOAa\x1B[A"), vec![Up, Char('a'), Up]);
    assert_eq!(translate_bytes(b"\x1B[Aa\x1BOA"), vec![Up, Char('a'), Up]);
    assert_eq!(translate_bytes(b"a\x1BOAb"), vec![Char('a'), Up, Char('b')]);
    assert_eq!(translate_bytes(b"ab\x1BOA"), vec![Char('a'), Char('b'), Up]);
}

#[test]
fn translate_bytes_chars() {
    assert_eq!(translate_bytes(b"Ab"), vec![Char('A'), Char('b')]);
}

#[test]
fn translate_bytes_paste() {
    const BEGIN_PASTE: &[u8] = b"\x1B[200~";
    const END_PASTE: &[u8] = b"\x1B[201~";

    let input = [BEGIN_PASTE, b"a", END_PASTE].concat();
    assert_eq!(translate_bytes(&input), vec![Char('a')]);

    let input = [b"a", BEGIN_PASTE, b"b", END_PASTE, b"c"].concat();
    assert_eq!(
        translate_bytes(&input),
        vec![Char('a'), Char('b'), Char('c')]
    );

    assert_eq!(translate_bytes(BEGIN_PASTE), vec![]);
    assert_eq!(translate_bytes(END_PASTE), vec![]);

    let input = [b"a", BEGIN_PASTE, b"b"].concat();
    assert_eq!(translate_bytes(&input), vec![Char('a'), Char('b')]);
}

#[test]
fn translate_bytes_every_table_entry() {
    assert_eq!(translate_bytes(b"\x1B[5~"), vec![PgUp]);
    assert_eq!(translate_bytes(b"\x1B[6~"), vec![PgDown]);
    assert_eq!(translate_bytes(b"\x1B[H"), vec![Home]);
    assert_eq!(translate_bytes(b"\x1B[F"), vec![End]);
    assert_eq!(translate_bytes(b"\x1B[Z"), vec![ShiftTab]);
    assert_eq!(translate_bytes(b"\x1B[A"), vec![Up]);
    assert_eq!(translate_bytes(b"\x1BOA"), vec![Up]);
    assert_eq!(translate_bytes(b"\x1B[B"), vec![Down]);
    assert_eq!(translate_bytes(b"\x1BOB"), vec![Down]);
    assert_eq!(translate_bytes(b"\x1B[C"), vec![]);
    assert_eq!(translate_bytes(b"\x1BOC"), vec![]);
    assert_eq!(translate_bytes(b"\x1B[D"), vec![]);
    assert_eq!(translate_bytes(b"\x1BOD"), vec![]);
    assert_eq!(translate_bytes(&[0x9C]), vec![Resize]);
    assert_eq!(translate_bytes(&[]), vec![]);
}

#[test]
fn translate_bytes_unfinished_sequence_is_plain_characters() {
    assert_eq!(translate_bytes(b"\x1B["), vec![Control('g'), Char('[')]);
    assert_eq!(translate_bytes(b"\x1B[20"), vec![Control('g'), Char('['), Char('2'), Char('0')]);
    assert_eq!(translate_bytes(b"\x1B[5"), vec![Control('g'), Char('['), Char('5')]);
}

#[test]
fn translate_bytes_split_sequence_decodes_once_joined() {
    let first: &[u8] = b"\x1B";
    let second: &[u8] = b"[A";
    let joined = [first, second].concat();
    assert_eq!(translate_bytes(&joined), vec![Up]);
    let first: &[u8] = b"\x1B[";
    let second: &[u8] = b"A";
    let joined = [first, second].concat();
    assert_eq!(translate_bytes(&joined), vec![Up]);
}

#[test]
fn translate_bytes_decodes_characters_beyond_ascii() {
    assert_eq!(translate_bytes("é".as_bytes()), vec![Char('é')]);
    assert_eq!(translate_bytes("音".as_bytes()), vec![Char('音')]);
    assert_eq!(translate_bytes("😀".as_bytes()), vec![Char('😀')]);
    assert_eq!(translate_bytes("\u{80}".as_bytes()), vec![Char('\u{80}')]);
    assert_eq!(translate_bytes("\u{7ff}\u{800}".as_bytes()), vec![Char('\u{7ff}'), Char('\u{800}')]);
    assert_eq!(translate_bytes("\u{d7ff}\u{e000}".as_bytes()), vec![Char('\u{d7ff}'), Char('\u{e000}')]);
    assert_eq!(translate_bytes("\u{ffff}\u{10000}".as_bytes()), vec![Char('\u{ffff}'), Char('\u{10000}')]);
    assert_eq!(translate_bytes("\u{10ffff}".as_bytes()), vec![Char('\u{10ffff}')]);
    assert_eq!(
        translate_bytes("a\u{1B}[Aé\rÜ".as_bytes()),
        vec![Char('a'), Up, Char('é'), Enter, Char('Ü')]
    );
    // the second byte of U+00DC is the byte that stands for a resize
    assert_eq!(translate_bytes(&[0xC3, 0x9C, 0x9C]), vec![Char('Ü'), Resize]);
}

#[test]
fn translate_bytes_reads_ill_formed_bytes_one_by_one() {
    assert_eq!(translate_bytes(&[0xC3]), vec![Char('\u{c3}')]);
    assert_eq!(translate_bytes(&[0xE9, 0x9F]), vec![Char('\u{e9}'), Char('\u{9f}')]);
    assert_eq!(translate_bytes(&[0xA9]), vec![Char('\u{a9}')]);
    assert_eq!(translate_bytes(&[0x80]), vec![Control('\u{e0}')]);
    // overlong encodings
    assert_eq!(translate_bytes(&[0xC0, 0xAF]), vec![Char('\u{c0}'), Char('\u{af}')]);
    assert_eq!(translate_bytes(&[0xC1, 0xBF]), vec![Char('\u{c1}'), Char('\u{bf}')]);
    assert_eq!(
        translate_bytes(&[0xE0, 0x9F, 0xBF]),
        vec![Char('\u{e0}'), Char('\u{9f}'), Char('\u{bf}')]
    );
    assert_eq!(
        translate_bytes(&[0xF0, 0x8F, 0xBF, 0xBF]),
        vec![Char('\u{f0}'), Char('\u{8f}'), Char('\u{bf}'), Char('\u{bf}')]
    );
    // a surrogate
    assert_eq!(
        translate_bytes(&[0xED, 0xA0, 0x80]),
        vec![Char('\u{ed}'), Char('\u{a0}'), Control('\u{e0}')]
    );
    // beyond the last code point
    assert_eq!(
        translate_bytes(&[0xF4, 0x90, 0x80, 0x80]),
        vec![Char('\u{f4}'), Char('\u{90}'), Control('\u{e0}'), Control('\u{e0}')]
    );
    assert_eq!(translate_bytes(&[0xF8, 0xFF]), vec![Char('\u{f8}'), Char('\u{ff}')]);
    // a character cut short by an escape sequence
    assert_eq!(translate_bytes(b"\xE9\x1B[A"), vec![Char('\u{e9}'), Up]);
}

#[test]
fn translate_char_classifies_single_characters() {
    assert_eq!(translate_char('\r'), Enter);
    assert_eq!(translate_char('\t'), Tab);
    assert_eq!(translate_char('\u{7f}'), Backspace);
    assert_eq!(translate_char('\u{1b}'), Control('g'));
    assert_eq!(translate_char('\u{1}'), Control('a'));
    assert_eq!(translate_char('\u{3}'), Control('c'));
    assert_eq!(translate_char('\u{7}'), Control('g'));
    assert_eq!(translate_char('\u{1a}'), Control('z'));
    assert_eq!(translate_char('\u{0}'), Control('`'));
    assert_eq!(translate_char('\n'), Control('j'));
    assert_eq!(translate_char('\u{1f}'), Control('\u{7f}'));
    assert_eq!(translate_char('\u{80}'), Control('\u{e0}'));
    assert_eq!(translate_char('\u{81}'), Char('\u{81}'));
    assert_eq!(translate_char(' '), Char(' '));
    assert_eq!(translate_char('a'), Char('a'));
    assert_eq!(translate_char('~'), Char('~'));
    assert_eq!(translate_char('音'), Char('音'));
    assert_eq!(translate_char('\u{100}'), Char('\u{100}'));
}

#[test]
fn escape_sequences_are_byte_exact() {
    assert_eq!(save_cursor(), b"\x1b7");
    assert_eq!(restore_cursor(), b"\x1b8");
    assert_eq!(hide_cursor(), b"\x1b[?25l");
    assert_eq!(show_cursor(), b"\x1b[?25h");
    assert_eq!(inverse(), b"\x1b[7m");
    assert_eq!(red(), b"\x1b[31m");
    assert_eq!(reset(), b"\x1b[0m");
    assert_eq!(blank_screen(), b"\x1b[2J");
}

#[test]
fn cursor_movements_are_byte_exact() {
    let mut buf = [0u8; 16];
    assert_eq!(cursor_up(0, &mut buf), b"\x1b[0A");
    assert_eq!(cursor_up(7, &mut buf), b"\x1b[7A");
    assert_eq!(cursor_up(20, &mut buf), b"\x1b[20A");
    assert_eq!(cursor_up(999, &mut buf), b"\x1b[999A");
    assert_eq!(cursor_up(65535, &mut buf), b"\x1b[65535A");
    assert_eq!(cursor_right(0, &mut buf), b"\x1b[0C");
    assert_eq!(cursor_right(2, &mut buf), b"\x1b[2C");
    assert_eq!(cursor_right(10, &mut buf), b"\x1b[10C");
    assert_eq!(cursor_right(1000, &mut buf), b"\x1b[1000C");
    assert_eq!(cursor_right(65535, &mut buf), b"\x1b[65535C");
}

#[test]
fn cursor_movements_round_trip() {
    for (n, m) in [(0u16, 0u16), (1, 9), (10, 99), (12, 345), (65535, 6), (100, 65535)] {
        let mut up_buf = [0u8; 16];
        let mut right_buf = [0u8; 16];
        let mut wire: Vec<u8> = Vec::new();
        wire.extend_from_slice(cursor_up(n, &mut up_buf));
        wire.extend_from_slice(cursor_right(m, &mut right_buf));

        let (n1, letter1, len1) = parse_cursor_move(&wire).unwrap();
        let (n2, letter2, len2) = parse_cursor_move(&wire[len1..]).unwrap();
        assert_eq!((n1, letter1), (n, b'A'));
        assert_eq!((n2, letter2), (m, b'C'));
        assert_eq!(len1 + len2, wire.len());

        let mut again: Vec<u8> = Vec::new();
        assert_eq!(letter1, b'A');
        again.extend_from_slice(cursor_up(n1, &mut up_buf));
        assert_eq!(letter2, b'C');
        again.extend_from_slice(cursor_right(n2, &mut right_buf));
        assert_eq!(again, wire);
    }
}

#[test]
fn parse_cursor_move_accepts_only_the_written_form() {
    assert_eq!(parse_cursor_move(b"\x1b[12Axyz"), Some((12, b'A', 5)));
    assert_eq!(parse_cursor_move(b"\x1b[0C"), Some((0, b'C', 4)));
    assert_eq!(parse_cursor_move(b"\x1b[65535A"), Some((65535, b'A', 8)));
    assert_eq!(parse_cursor_move(b"\x1b[65536A"), None);
    assert_eq!(parse_cursor_move(b"\x1b[012A"), None);
    assert_eq!(parse_cursor_move(b"\x1b[00A"), None);
    assert_eq!(parse_cursor_move(b"\x1b[A"), None);
    assert_eq!(parse_cursor_move(b"\x1b[12"), None);
    assert_eq!(parse_cursor_move(b"\x1b[123456A"), None);
    assert_eq!(parse_cursor_move(b"\x1bO12A"), None);
    assert_eq!(parse_cursor_move(b"x\x1b[12A"), None);
    assert_eq!(parse_cursor_move(b""), None);
}

#[test]
fn keys_compare_by_variant_and_payload() {
    assert_eq!(Key::Char('a'), Char('a'));
    assert_ne!(Key::Char('a'), Control('a'));
    assert_ne!(Key::Nothing, Key::Resize);
}
