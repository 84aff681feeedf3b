use heatseeker::ansi::translate_bytes;
use heatseeker::input::{
    collect_key_down_units, console_keys, signal_bytes, translate_records, ConsoleRecord,
    KeyDecoder, Signal,
};
use heatseeker::screen::Key;
use heatseeker::screen::Key::{Char, Control, Down, PgUp, Resize, Up};

#[test]
fn split_escape_sequence_yields_one_key_once_both_chunks_arrive() {
    let mut decoder = KeyDecoder::new();
    assert_eq!(decoder.feed(b"\x1B"), vec![]);
    assert!(decoder.has_pending());
    assert_eq!(decoder.feed(b"[A"), vec![Up]);
    assert!(!decoder.has_pending());
    assert_eq!(decoder.finish(), vec![]);

    let mut decoder = KeyDecoder::new();
    assert_eq!(decoder.feed(b"a\x1B["), vec![Char('a')]);
    assert_eq!(decoder.feed(b"5"), vec![]);
    assert_eq!(decoder.feed(b"~b"), vec![PgUp, Char('b')]);
    assert_eq!(decoder.finish(), vec![]);
}

#[test]
fn lone_escape_is_the_cancel_key_when_the_input_pauses() {
    let mut decoder = KeyDecoder::new();
    assert_eq!(decoder.feed(&[0x1B]), vec![]);
    assert_eq!(decoder.finish(), vec![Control('g')]);
    assert!(!decoder.has_pending());
    assert_eq!(decoder.finish(), vec![]);
}

#[test]
fn unfinished_sequence_is_replayed_as_plain_characters() {
    let mut decoder = KeyDecoder::new();
    assert_eq!(decoder.feed(b"\x1B[20"), vec![]);
    assert_eq!(decoder.finish(), vec![Control('g'), Char('['), Char('2'), Char('0')]);

    let mut decoder = KeyDecoder::new();
    assert_eq!(decoder.feed(b"\x1B[2"), vec![]);
    assert_eq!(decoder.feed(b"x"), vec![Control('g'), Char('['), Char('2'), Char('x')]);
    assert_eq!(decoder.finish(), vec![]);

    let mut decoder = KeyDecoder::new();
    assert_eq!(decoder.feed(b"\x1B"), vec![]);
    assert_eq!(decoder.feed(b"\x1B"), vec![Control('g')]);
    assert_eq!(decoder.feed(b"OB"), vec![Down]);
}

#[test]
fn complete_input_is_decoded_at_once() {
    let mut decoder = KeyDecoder::new();
    assert_eq!(decoder.feed(b"ab\x1BOA"), vec![Char('a'), Char('b'), Up]);
    assert_eq!(decoder.feed(b""), vec![]);
    assert_eq!(decoder.feed(b"\x1B[200~p\x1B[201~"), vec![Char('p')]);
    assert_eq!(decoder.feed(&[0x9C, b'\r']), vec![Resize, Key::Enter]);
    assert!(!decoder.has_pending());
}

#[test]
fn any_split_of_the_input_decodes_like_the_whole() {
    let inputs: Vec<&[u8]> = vec![
        b"\x1B[A",
        b"a\x1B[5~b\x1BOBc",
        b"\x1B\x1B[200~x\x1B[201~\x1B",
        b"\x1B[2\x1B[20\x1B[201",
        b"\x1BO\x1B[\x9C\x1B[Z",
        "\u{1B}[A\u{e9}\u{1B}\u{97f3}\u{1B}[\u{1F600}".as_bytes(),
        b"\xC3\x1B[A\xE9\x9F\xF0\x9F\x98\xC3\x9C\x9C\xF0\x9F",
        b"\xE0\x80\x80\xED\xA0\x80\xF4\x90\x80\x80\xC1\xBF\xFF",
    ];
    for input in inputs {
        let whole = translate_bytes(input);
        for cut in 0..=input.len() {
            let mut decoder = KeyDecoder::new();
            let mut keys = decoder.feed(&input[..cut]);
            keys.extend(decoder.feed(&input[cut..]));
            keys.extend(decoder.finish());
            assert_eq!(keys, whole);
        }
        let mut decoder = KeyDecoder::new();
        let mut keys = Vec::new();
        for byte in input {
            keys.extend(decoder.feed(&[*byte]));
        }
        keys.extend(decoder.finish());
        assert_eq!(keys, whole);
    }
}

#[test]
fn split_character_yields_one_key_once_both_chunks_arrive() {
    let text = "aé音😀Üz";
    let whole = translate_bytes(text.as_bytes());
    assert_eq!(
        whole,
        vec![Char('a'), Char('é'), Char('音'), Char('😀'), Char('Ü'), Char('z')]
    );
    let bytes = text.as_bytes();
    for cut in 0..=bytes.len() {
        let mut decoder = KeyDecoder::new();
        let mut keys = decoder.feed(&bytes[..cut]);
        assert_eq!(decoder.has_pending(), !text.is_char_boundary(cut));
        keys.extend(decoder.feed(&bytes[cut..]));
        assert!(!decoder.has_pending());
        assert_eq!(keys, whole);
    }
    let mut decoder = KeyDecoder::new();
    let mut keys = Vec::new();
    for byte in bytes {
        keys.extend(decoder.feed(&[*byte]));
    }
    assert_eq!(keys, whole);
}

#[test]
fn character_that_never_completes_is_replayed_byte_by_byte() {
    let mut decoder = KeyDecoder::new();
    assert_eq!(decoder.feed(&[0xE9]), vec![]);
    assert!(decoder.has_pending());
    assert_eq!(decoder.feed(&[0x9F]), vec![]);
    assert_eq!(decoder.finish(), vec![Char('\u{e9}'), Char('\u{9f}')]);

    let mut decoder = KeyDecoder::new();
    assert_eq!(decoder.feed(&[0xC3]), vec![]);
    assert_eq!(decoder.feed(b"a"), vec![Char('\u{c3}'), Char('a')]);

    // the second byte of a character is not the byte of the resize event
    let mut decoder = KeyDecoder::new();
    assert_eq!(decoder.feed(&[0xC3]), vec![]);
    assert_eq!(decoder.feed(&[0x9C]), vec![Char('Ü')]);
    assert_eq!(decoder.feed(&[0x9C]), vec![Resize]);

    // bytes that begin no character are not held back
    let mut decoder = KeyDecoder::new();
    assert_eq!(decoder.feed(&[0xC0]), vec![Char('\u{c0}')]);
    assert_eq!(decoder.feed(&[0xF5]), vec![Char('\u{f5}')]);
    assert_eq!(decoder.feed(&[0xE0, 0x9F]), vec![Char('\u{e0}'), Char('\u{9f}')]);
    assert_eq!(decoder.feed(&[0xED, 0xA0]), vec![Char('\u{ed}'), Char('\u{a0}')]);
    assert_eq!(decoder.feed(&[0xF4, 0x90]), vec![Char('\u{f4}'), Char('\u{90}')]);
    assert_eq!(decoder.feed(&[0xBF]), vec![Char('\u{bf}')]);
    assert!(!decoder.has_pending());
    assert_eq!(decoder.feed(&[0xF0, 0x9F, 0x98]), vec![]);
    assert_eq!(decoder.feed(&[0x80]), vec![Char('😀')]);
}

#[test]
fn pause_releases_escape_sequences_and_keeps_characters() {
    let mut decoder = KeyDecoder::new();
    assert_eq!(decoder.pause(), vec![]);
    assert_eq!(decoder.feed(&[0x1B]), vec![]);
    assert_eq!(decoder.pause(), vec![Control('g')]);
    assert!(!decoder.has_pending());

    assert_eq!(decoder.feed(b"\x1B[20"), vec![]);
    assert_eq!(decoder.pause(), vec![Control('g'), Char('['), Char('2'), Char('0')]);

    assert_eq!(decoder.feed(&[b'a', 0xE9]), vec![Char('a')]);
    assert_eq!(decoder.pause(), vec![]);
    assert!(decoder.has_pending());
    assert_eq!(decoder.feed(&[0x9F]), vec![]);
    assert_eq!(decoder.pause(), vec![]);
    assert_eq!(decoder.feed(&[0xB3]), vec![Char('音')]);
    assert_eq!(decoder.pause(), vec![]);
    assert!(!decoder.has_pending());

    assert_eq!(decoder.feed(&[0xC3]), vec![]);
    assert_eq!(decoder.pause(), vec![]);
    assert_eq!(decoder.finish(), vec![Char('\u{c3}')]);
}

#[test]
fn signals_arrive_as_keys() {
    assert_eq!(signal_bytes(Signal::WindowChanged), vec![0x9C]);
    assert_eq!(signal_bytes(Signal::Interrupt), vec![0x07]);
    assert_eq!(translate_bytes(&signal_bytes(Signal::WindowChanged)), vec![Resize]);
    assert_eq!(translate_bytes(&signal_bytes(Signal::Interrupt)), vec![Control('g')]);
}

#[test]
fn console_records_become_keys() {
    let records = vec![
        ConsoleRecord::KeyDown(b'a' as u16),
        ConsoleRecord::KeyUp(b'a' as u16),
        ConsoleRecord::Other,
        ConsoleRecord::WindowBufferSize,
        ConsoleRecord::KeyDown(0x1B),
        ConsoleRecord::KeyDown(b'[' as u16),
        ConsoleRecord::KeyDown(b'A' as u16),
        ConsoleRecord::KeyDown(b'\r' as u16),
    ];
    assert_eq!(collect_key_down_units(&records), vec![0x61, 0x1B, 0x5B, 0x41, 0x0D]);
    assert_eq!(
        translate_records(&records),
        Some(vec![Resize, Char('a'), Up, Key::Enter])
    );
    assert_eq!(translate_records(&[]), Some(vec![]));
    assert_eq!(
        translate_records(&[ConsoleRecord::KeyUp(0x61), ConsoleRecord::Other]),
        Some(vec![])
    );
    assert_eq!(
        translate_records(&[ConsoleRecord::WindowBufferSize, ConsoleRecord::WindowBufferSize]),
        Some(vec![Resize, Resize])
    );
    assert_eq!(console_keys(&records, "x"), vec![Resize, Char('x')]);
}

#[test]
fn console_text_is_decoded_from_utf16() {
    // U+1F600 arrives as a surrogate pair
    let records = vec![ConsoleRecord::KeyDown(0xD83D), ConsoleRecord::KeyDown(0xDE00)];
    assert_eq!(translate_records(&records), Some(vec![Char('\u{1F600}')]));
    assert_eq!(
        translate_records(&[ConsoleRecord::KeyDown(0xE9)]),
        Some(vec![Char('\u{e9}')])
    );
    assert_eq!(
        translate_records(&[
            ConsoleRecord::KeyDown(0x97F3),
            ConsoleRecord::KeyDown(b'x' as u16),
            ConsoleRecord::KeyDown(0x1B)
        ]),
        Some(vec![Char('音'), Char('x'), Control('g')])
    );
    // a lone surrogate is not text
    assert_eq!(translate_records(&[ConsoleRecord::KeyDown(0xD83D)]), None);
    assert_eq!(
        translate_records(&[ConsoleRecord::WindowBufferSize, ConsoleRecord::KeyDown(0xDE00)]),
        None
    );
}
