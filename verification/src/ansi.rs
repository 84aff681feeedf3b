//! The terminal byte protocol: the escape sequences that the screen emits,
//! and the decoding of input bytes into key events.

use vstd::array::array_as_slice;
use vstd::prelude::*;
use vstd::slice::slice_subrange;
use vstd::utf8::{char_u32_cast, decode_first_scalar, length_of_first_scalar, valid_first_scalar};
use crate::screen::Key;

verus! {

/// The bytes of `ESC 7`.
pub open spec fn save_cursor_bytes() -> Seq<u8> {
    seq![0x1Bu8, 0x37u8]
}

/// The bytes of `ESC 8`.
pub open spec fn restore_cursor_bytes() -> Seq<u8> {
    seq![0x1Bu8, 0x38u8]
}

/// The bytes of `CSI ? 2 5 l`.
pub open spec fn hide_cursor_bytes() -> Seq<u8> {
    seq![0x1Bu8, 0x5Bu8, 0x3Fu8, 0x32u8, 0x35u8, 0x6Cu8]
}

/// The bytes of `CSI ? 2 5 h`.
pub open spec fn show_cursor_bytes() -> Seq<u8> {
    seq![0x1Bu8, 0x5Bu8, 0x3Fu8, 0x32u8, 0x35u8, 0x68u8]
}

/// The bytes of `CSI 7 m`.
pub open spec fn inverse_bytes() -> Seq<u8> {
    seq![0x1Bu8, 0x5Bu8, 0x37u8, 0x6Du8]
}

/// The bytes of `CSI 3 1 m`.
pub open spec fn red_bytes() -> Seq<u8> {
    seq![0x1Bu8, 0x5Bu8, 0x33u8, 0x31u8, 0x6Du8]
}

/// The bytes of `CSI 0 m`.
pub open spec fn reset_bytes() -> Seq<u8> {
    seq![0x1Bu8, 0x5Bu8, 0x30u8, 0x6Du8]
}

/// The bytes of `CSI 2 J`.
pub open spec fn clear_bytes() -> Seq<u8> {
    seq![0x1Bu8, 0x5Bu8, 0x32u8, 0x4Au8]
}

/// Saves the cursor position: `ESC 7`.
pub fn save_cursor() -> (r: &'static [u8])
    ensures
        r@ == save_cursor_bytes(),
{
    let r: &'static [u8] = &[0x1B, 0x37];
    r
}

/// Restores the saved cursor position: `ESC 8`.
pub fn restore_cursor() -> (r: &'static [u8])
    ensures
        r@ == restore_cursor_bytes(),
{
    let r: &'static [u8] = &[0x1B, 0x38];
    r
}

/// Hides the cursor: `CSI ? 2 5 l`.
pub fn hide_cursor() -> (r: &'static [u8])
    ensures
        r@ == hide_cursor_bytes(),
{
    let r: &'static [u8] = &[0x1B, 0x5B, 0x3F, 0x32, 0x35, 0x6C];
    r
}

/// Shows the cursor: `CSI ? 2 5 h`.
pub fn show_cursor() -> (r: &'static [u8])
    ensures
        r@ == show_cursor_bytes(),
{
    let r: &'static [u8] = &[0x1B, 0x5B, 0x3F, 0x32, 0x35, 0x68];
    r
}

/// Selects inverse video: `CSI 7 m`.
pub fn inverse() -> (r: &'static [u8])
    ensures
        r@ == inverse_bytes(),
{
    let r: &'static [u8] = &[0x1B, 0x5B, 0x37, 0x6D];
    r
}

/// Selects a red foreground: `CSI 3 1 m`.
pub fn red() -> (r: &'static [u8])
    ensures
        r@ == red_bytes(),
{
    let r: &'static [u8] = &[0x1B, 0x5B, 0x33, 0x31, 0x6D];
    r
}

/// Resets all attributes: `CSI 0 m`.
pub fn reset() -> (r: &'static [u8])
    ensures
        r@ == reset_bytes(),
{
    let r: &'static [u8] = &[0x1B, 0x5B, 0x30, 0x6D];
    r
}

/// Clears the whole screen: `CSI 2 J`.
pub fn blank_screen() -> (r: &'static [u8])
    ensures
        r@ == clear_bytes(),
{
    let r: &'static [u8] = &[0x1B, 0x5B, 0x32, 0x4A];
    r
}

/// The key that a single input character stands for: carriage return is
/// Enter, tab is Tab, delete is Backspace, a bare escape is Control-G, any
/// other control code is the Control key with the letter 96 above it, and
/// everything else is the character itself.
pub open spec fn key_of_char(c: char) -> Key {
    let n = c as u32;
    if n == 13 {
        Key::Enter
    } else if n == 9 {
        Key::Tab
    } else if n == 127 {
        Key::Backspace
    } else if n == 27 {
        Key::Control('g')
    } else if n < 32 || n == 128 {
        Key::Control((n + 96) as char)
    } else {
        Key::Char(c)
    }
}

/// The key that a single input character stands for.
pub fn translate_char(c: char) -> (key: Key)
    ensures
        key == key_of_char(c),
{
    let numeric_char = c as u32;
    if c == '\r' {
        Key::Enter
    } else if numeric_char == 9 {
        Key::Tab
    } else if numeric_char == 127 {
        Key::Backspace
    } else if numeric_char == 27 {
        Key::Control('g')
    } else if numeric_char & 96 == 0 && numeric_char <= 128u32 {
        assert(numeric_char < 32 || numeric_char == 128) by (bit_vector)
            requires
                numeric_char & 96 == 0 && numeric_char <= 128u32,
        ;
        let c = c as u8;
        Key::Control((c + 96u8) as char)
    } else {
        assert(!(numeric_char < 32 || numeric_char == 128)) by (bit_vector)
            requires
                !(numeric_char & 96 == 0 && numeric_char <= 128u32),
        ;
        Key::Char(c)
    }
}

/// The number of entries in the table of input sequences.
pub const SEQUENCE_COUNT: usize = 16;

/// The table of multi-byte input sequences, by index: the bytes of each
/// sequence and the key it stands for, if any. Arrow keys come in their
/// classic and their application-mode form; left and right arrows and the
/// bracketed-paste markers are recognized and dropped; the last entry is the
/// byte that stands for a change of the window size.
pub open spec fn sequence(k: int) -> (Seq<u8>, Option<Key>) {
    if k == 0 {
        (seq![0x1Bu8, 0x5Bu8, 0x35u8, 0x7Eu8], Some(Key::PgUp))
    } else if k == 1 {
        (seq![0x1Bu8, 0x5Bu8, 0x36u8, 0x7Eu8], Some(Key::PgDown))
    } else if k == 2 {
        (seq![0x1Bu8, 0x5Bu8, 0x48u8], Some(Key::Home))
    } else if k == 3 {
        (seq![0x1Bu8, 0x5Bu8, 0x46u8], Some(Key::End))
    } else if k == 4 {
        (seq![0x1Bu8, 0x5Bu8, 0x5Au8], Some(Key::ShiftTab))
    } else if k == 5 {
        (seq![0x1Bu8, 0x5Bu8, 0x41u8], Some(Key::Up))
    } else if k == 6 {
        (seq![0x1Bu8, 0x4Fu8, 0x41u8], Some(Key::Up))
    } else if k == 7 {
        (seq![0x1Bu8, 0x5Bu8, 0x42u8], Some(Key::Down))
    } else if k == 8 {
        (seq![0x1Bu8, 0x4Fu8, 0x42u8], Some(Key::Down))
    } else if k == 9 {
        (seq![0x1Bu8, 0x5Bu8, 0x43u8], None)
    } else if k == 10 {
        (seq![0x1Bu8, 0x4Fu8, 0x43u8], None)
    } else if k == 11 {
        (seq![0x1Bu8, 0x5Bu8, 0x44u8], None)
    } else if k == 12 {
        (seq![0x1Bu8, 0x4Fu8, 0x44u8], None)
    } else if k == 13 {
        (seq![0x1Bu8, 0x5Bu8, 0x32u8, 0x30u8, 0x30u8, 0x7Eu8], None)
    } else if k == 14 {
        (seq![0x1Bu8, 0x5Bu8, 0x32u8, 0x30u8, 0x31u8, 0x7Eu8], None)
    } else {
        (seq![0x9Cu8], Some(Key::Resize))
    }
}

/// The table entry at index `k`.
pub(crate) fn sequence_at(k: usize) -> (r: (&'static [u8], Option<Key>))
    requires
        k < SEQUENCE_COUNT,
    ensures
        r.0@ == sequence(k as int).0,
        r.1 == sequence(k as int).1,
{
    let (bytes, key): (&'static [u8], Option<Key>) = if k == 0 {
        (&[0x1B, 0x5B, 0x35, 0x7E], Some(Key::PgUp))
    } else if k == 1 {
        (&[0x1B, 0x5B, 0x36, 0x7E], Some(Key::PgDown))
    } else if k == 2 {
        (&[0x1B, 0x5B, 0x48], Some(Key::Home))
    } else if k == 3 {
        (&[0x1B, 0x5B, 0x46], Some(Key::End))
    } else if k == 4 {
        (&[0x1B, 0x5B, 0x5A], Some(Key::ShiftTab))
    } else if k == 5 {
        (&[0x1B, 0x5B, 0x41], Some(Key::Up))
    } else if k == 6 {
        (&[0x1B, 0x4F, 0x41], Some(Key::Up))
    } else if k == 7 {
        (&[0x1B, 0x5B, 0x42], Some(Key::Down))
    } else if k == 8 {
        (&[0x1B, 0x4F, 0x42], Some(Key::Down))
    } else if k == 9 {
        (&[0x1B, 0x5B, 0x43], None)
    } else if k == 10 {
        (&[0x1B, 0x4F, 0x43], None)
    } else if k == 11 {
        (&[0x1B, 0x5B, 0x44], None)
    } else if k == 12 {
        (&[0x1B, 0x4F, 0x44], None)
    } else if k == 13 {
        (&[0x1B, 0x5B, 0x32, 0x30, 0x30, 0x7E], None)
    } else if k == 14 {
        (&[0x1B, 0x5B, 0x32, 0x30, 0x31, 0x7E], None)
    } else {
        (&[0x9C], Some(Key::Resize))
    };
    (bytes, key)
}

/// The index of the first table entry from `k` on whose sequence `bytes`
/// begins with, or `SEQUENCE_COUNT` where there is none.
pub open spec fn first_entry(bytes: Seq<u8>, k: int) -> int
    decreases SEQUENCE_COUNT - k,
{
    if k >= SEQUENCE_COUNT {
        SEQUENCE_COUNT as int
    } else if sequence(k).0.is_prefix_of(bytes) {
        k
    } else {
        first_entry(bytes, k + 1)
    }
}

/// What `first_entry` finds: an entry whose sequence `bytes` begins with,
/// before which no entry from `from` on has such a sequence.
pub proof fn lemma_first_entry(bytes: Seq<u8>, from: int)
    requires
        0 <= from <= SEQUENCE_COUNT,
    ensures
        from <= first_entry(bytes, from) <= SEQUENCE_COUNT,
        first_entry(bytes, from) < SEQUENCE_COUNT ==> sequence(
            first_entry(bytes, from),
        ).0.is_prefix_of(bytes),
        forall|m: int|
            from <= m < first_entry(bytes, from) ==> !(#[trigger] sequence(m)).0.is_prefix_of(bytes),
    decreases SEQUENCE_COUNT - from,
{
    if from < SEQUENCE_COUNT && !sequence(from).0.is_prefix_of(bytes) {
        lemma_first_entry(bytes, from + 1);
    }
}

/// The key that a single input byte stands for.
pub open spec fn key_of_byte(b: u8) -> Key {
    key_of_char(b as char)
}

/// `bytes` begins with the well-formed UTF-8 encoding of a character beyond
/// ASCII, which takes two to four bytes.
pub open spec fn begins_with_wide_char(bytes: Seq<u8>) -> bool {
    bytes.len() > 0 && bytes[0] >= 0x80 && valid_first_scalar(bytes)
}

/// The keys that a buffer of input bytes stands for. At each position, a
/// table sequence that the remaining bytes begin with is consumed whole and
/// yields its key, if it has one. Where no sequence matches, the UTF-8
/// encoding of a character beyond ASCII is consumed whole and yields that
/// character; and where there is none either, one byte is consumed and
/// yields the key of that byte.
pub open spec fn decode(bytes: Seq<u8>) -> Seq<Key>
    decreases bytes.len(),
    via decode_terminates
{
    if bytes.len() == 0 {
        Seq::empty()
    } else {
        let k = first_entry(bytes, 0);
        if k < SEQUENCE_COUNT {
            let rest = decode(bytes.skip(sequence(k).0.len() as int));
            match sequence(k).1 {
                Some(key) => seq![key] + rest,
                None => rest,
            }
        } else if begins_with_wide_char(bytes) {
            seq![Key::Char(decode_first_scalar(bytes) as char)] + decode(
                bytes.skip(length_of_first_scalar(bytes)),
            )
        } else {
            seq![key_of_byte(bytes[0])] + decode(bytes.skip(1))
        }
    }
}

#[via_fn]
proof fn decode_terminates(bytes: Seq<u8>) {
    lemma_first_entry(bytes, 0);
    lemma_sequence_len(first_entry(bytes, 0));
    if begins_with_wide_char(bytes) {
        lemma_wide_char_len(bytes);
    }
}

/// The encoding of a character beyond ASCII takes two to four bytes, all of
/// which are there.
pub proof fn lemma_wide_char_len(bytes: Seq<u8>)
    requires
        begins_with_wide_char(bytes),
    ensures
        2 <= length_of_first_scalar(bytes) <= 4,
        length_of_first_scalar(bytes) <= bytes.len(),
        bytes[0] >= 0xC0,
{
}

/// `char::from_u32` of std: the character with the given scalar value, or
/// `None` where the value is a surrogate or lies beyond the last code point.
pub assume_specification[ char::from_u32 ](i: u32) -> (r: Option<char>)
    ensures
        r is Some <==> (i <= 0xD7FF || (0xE000 <= i <= 0x10FFFF)),
        r matches Some(c) ==> c as u32 == i,
;

/// The character beyond ASCII whose UTF-8 encoding the bytes from `from` on
/// begin with, and the number of bytes that it takes.
pub(crate) fn wide_char_at(bytes: &[u8], from: usize) -> (r: Option<(char, usize)>)
    requires
        from < bytes@.len(),
    ensures
        match r {
            Some((c, len)) => begins_with_wide_char(bytes@.skip(from as int)) && c
                == decode_first_scalar(bytes@.skip(from as int)) as char && len
                == length_of_first_scalar(bytes@.skip(from as int)) && from + len <= bytes@.len(),
            None => !begins_with_wide_char(bytes@.skip(from as int)),
        },
{
    let total = bytes.len();
    let left = total - from;
    let b0 = bytes[from];
    let ghost rest = bytes@.skip(from as int);
    proof {
        assert(rest[0] == b0);
    }
    if b0 < 0xC0 || b0 > 0xF7 {
        return None;
    }
    let width: usize = if b0 <= 0xDF {
        2
    } else if b0 <= 0xEF {
        3
    } else {
        4
    };
    if left < width {
        return None;
    }
    let b1 = bytes[from + 1];
    proof {
        assert(rest[1] == b1);
    }
    if b1 < 0x80 || b1 > 0xBF {
        return None;
    }
    let codepoint: u32;
    if width == 2 {
        codepoint = (((b0 & 0x1F) as u32) << 6) | ((b1 & 0x3F) as u32);
        assert(codepoint <= 0x7FF) by (bit_vector)
            requires
                codepoint == (((b0 & 0x1F) as u32) << 6) | ((b1 & 0x3F) as u32),
        ;
        if codepoint < 0x80 {
            return None;
        }
    } else {
        let b2 = bytes[from + 2];
        proof {
            assert(rest[2] == b2);
        }
        if b2 < 0x80 || b2 > 0xBF {
            return None;
        }
        if width == 3 {
            codepoint = (((b0 & 0x0F) as u32) << 12) | (((b1 & 0x3F) as u32) << 6) | ((b2
                & 0x3F) as u32);
            assert(codepoint <= 0xFFFF) by (bit_vector)
                requires
                    codepoint == (((b0 & 0x0F) as u32) << 12) | (((b1 & 0x3F) as u32) << 6) | ((b2
                        & 0x3F) as u32),
            ;
            if codepoint < 0x800 || (0xD800 <= codepoint && codepoint <= 0xDFFF) {
                return None;
            }
        } else {
            let b3 = bytes[from + 3];
            proof {
                assert(rest[3] == b3);
            }
            if b3 < 0x80 || b3 > 0xBF {
                return None;
            }
            codepoint = (((b0 & 0x07) as u32) << 18) | (((b1 & 0x3F) as u32) << 12) | (((b2
                & 0x3F) as u32) << 6) | ((b3 & 0x3F) as u32);
            if codepoint < 0x10000 || codepoint > 0x10FFFF {
                return None;
            }
        }
    }
    proof {
        assert(codepoint == decode_first_scalar(rest));
        assert(begins_with_wide_char(rest));
    }
    match char::from_u32(codepoint) {
        Some(c) => {
            proof {
                char_u32_cast(c, codepoint);
            }
            Some((c, width))
        },
        None => None,
    }
}

/// Every table sequence holds at least one byte, and at most six.
pub proof fn lemma_sequence_len(k: int)
    ensures
        1 <= sequence(k).0.len() <= 6,
{
}

/// Whether the bytes of `bytes` from `from` on begin with `prefix`.
fn starts_with(bytes: &[u8], from: usize, prefix: &[u8]) -> (r: bool)
    requires
        from <= bytes@.len(),
    ensures
        r == prefix@.is_prefix_of(bytes@.skip(from as int)),
{
    let len = bytes.len();
    if prefix.len() > len - from {
        return false;
    }
    let mut j: usize = 0;
    while j < prefix.len()
        invariant
            len == bytes@.len(),
            from <= bytes@.len(),
            prefix@.len() <= bytes@.len() - from,
            j <= prefix@.len(),
            forall|m: int| 0 <= m < j ==> prefix@[m] == bytes@[from + m],
        decreases prefix@.len() - j,
    {
        if prefix[j] != bytes[from + j] {
            proof {
                let rest = bytes@.skip(from as int);
                assert(rest.subrange(0, prefix@.len() as int)[j as int] == bytes@[from + j]);
            }
            return false;
        }
        j += 1;
    }
    proof {
        let rest = bytes@.skip(from as int);
        assert(prefix@ =~= rest.subrange(0, prefix@.len() as int));
    }
    true
}

/// The index of the first table entry whose sequence the bytes from `from`
/// on begin with.
pub(crate) fn match_sequence(bytes: &[u8], from: usize) -> (r: Option<usize>)
    requires
        from <= bytes@.len(),
    ensures
        match r {
            Some(k) => k < SEQUENCE_COUNT && k == first_entry(bytes@.skip(from as int), 0),
            None => first_entry(bytes@.skip(from as int), 0) == SEQUENCE_COUNT,
        },
{
    let ghost rest = bytes@.skip(from as int);
    let mut k: usize = 0;
    while k < SEQUENCE_COUNT
        invariant
            from <= bytes@.len(),
            rest == bytes@.skip(from as int),
            k <= SEQUENCE_COUNT,
            first_entry(rest, 0) == first_entry(rest, k as int),
        decreases SEQUENCE_COUNT - k,
    {
        let (seq, _) = sequence_at(k);
        if starts_with(bytes, from, seq) {
            return Some(k);
        }
        k += 1;
    }
    None
}

/// The keys that a buffer of input bytes stands for.
pub fn translate_bytes(bytes: &[u8]) -> (keys: Vec<Key>)
    ensures
        keys@ == decode(bytes@),
{
    let mut result: Vec<Key> = Vec::new();
    let mut i: usize = 0;
    proof {
        assert(bytes@.skip(0) == bytes@);
    }
    while i < bytes.len()
        invariant
            i <= bytes@.len(),
            result@ + decode(bytes@.skip(i as int)) == decode(bytes@),
        decreases bytes@.len() - i,
    {
        let ghost rest = bytes@.skip(i as int);
        let ghost before = result@;
        match match_sequence(bytes, i) {
            Some(k) => {
                let (seq, key) = sequence_at(k);
                if let Some(k) = key {
                    result.push(k);
                }
                proof {
                    lemma_sequence_len(k as int);
                    lemma_first_entry(rest, 0);
                    assert(rest.skip(seq@.len() as int) == bytes@.skip(i + seq@.len()));
                    assert(result@ + decode(bytes@.skip(i + seq@.len())) == before + decode(rest));
                }
                i += seq.len();
            },
            None => match wide_char_at(bytes, i) {
                Some((c, len)) => {
                    result.push(Key::Char(c));
                    proof {
                        lemma_wide_char_len(rest);
                        assert(rest.skip(len as int) == bytes@.skip(i + len));
                        assert(result@ + decode(bytes@.skip(i + len)) == before + decode(rest));
                    }
                    i += len;
                },
                None => {
                    result.push(translate_char(bytes[i] as char));
                    proof {
                        assert(rest.skip(1) == bytes@.skip(i + 1));
                        assert(result@ + decode(bytes@.skip(i + 1)) == before + decode(rest));
                    }
                    i += 1;
                },
            },
        }
    }
    proof {
        assert(decode(bytes@.skip(i as int)) == Seq::<Key>::empty());
        assert(result@ + Seq::<Key>::empty() == result@);
    }
    result
}

/// The decimal digits of `n` as ASCII bytes, without leading zeros.
pub open spec fn decimal_digits(n: nat) -> Seq<u8>
    decreases n,
{
    if n < 10 {
        seq![(48 + n) as u8]
    } else {
        decimal_digits(n / 10).push((48 + n % 10) as u8)
    }
}

/// A 16-bit number has at most five decimal digits.
pub proof fn lemma_decimal_digits_len(n: nat)
    requires
        n <= 0xFFFF,
    ensures
        1 <= decimal_digits(n).len() <= 5,
{
    reveal_with_fuel(decimal_digits, 6);
}

/// `itoa::Buffer::format` on a `u64`: the decimal representation of the
/// number in ASCII digits, without sign or leading zeros.
#[verifier::external_body]
pub(crate) fn format_decimal(n: u64) -> (digits: Vec<u8>)
    ensures
        digits@ == decimal_digits(n as nat),
{
    let mut buffer = itoa::Buffer::new();
    buffer.format(n).as_bytes().to_vec()
}

/// The bytes that move the cursor by `n` cells in the direction that
/// `letter` names: `CSI`, the decimal digits of `n`, and the letter.
pub open spec fn cursor_move(n: u16, letter: u8) -> Seq<u8> {
    seq![0x1Bu8, 0x5Bu8] + decimal_digits(n as nat) + seq![letter]
}

/// Writes a cursor movement into `buf` and returns how many bytes it takes.
fn write_cursor_move(lines: u16, letter: u8, buf: &mut [u8; 16]) -> (len: usize)
    ensures
        len <= 16,
        final(buf)@.subrange(0, len as int) == cursor_move(lines, letter),
{
    let s = format_decimal(lines as u64);
    proof {
        lemma_decimal_digits_len(lines as nat);
    }
    let len = 2 + s.len() + 1;
    buf[0] = 27;
    buf[1] = 0x5B;
    let mut j: usize = 0;
    while j < s.len()
        invariant
            j <= s@.len() <= 5,
            buf@[0] == 27,
            buf@[1] == 0x5B,
            forall|m: int| 0 <= m < j ==> buf@[2 + m] == s@[m],
        decreases s@.len() - j,
    {
        buf[2 + j] = s[j];
        j += 1;
    }
    buf[2 + s.len()] = letter;
    proof {
        assert(buf@.subrange(0, len as int) =~= cursor_move(lines, letter));
    }
    len
}

/// Moves the cursor up by `lines`: writes `CSI {lines} A` into `buf` and
/// returns the written part.
pub fn cursor_up(lines: u16, buf: &mut [u8; 16]) -> (r: &[u8])
    ensures
        r@ == cursor_move(lines, 0x41),
{
    let len = write_cursor_move(lines, 0x41, buf);
    slice_subrange(array_as_slice(buf), 0, len)
}

/// Moves the cursor right by `lines` columns: writes `CSI {lines} C` into
/// `buf` and returns the written part.
pub fn cursor_right(lines: u16, buf: &mut [u8; 16]) -> (r: &[u8])
    ensures
        r@ == cursor_move(lines, 0x43),
{
    let len = write_cursor_move(lines, 0x43, buf);
    slice_subrange(array_as_slice(buf), 0, len)
}

/// Whether a byte is an ASCII decimal digit.
pub open spec fn is_digit(b: u8) -> bool {
    48 <= b <= 57
}

/// The number that a string of decimal digits stands for.
pub open spec fn decimal_value(digits: Seq<u8>) -> nat
    decreases digits.len(),
{
    if digits.len() == 0 {
        0
    } else {
        decimal_value(digits.drop_last()) * 10 + (digits.last() - 48) as nat
    }
}

/// A string of decimal digits in the form in which numbers are written: at
/// least one digit, and no leading zero before another digit.
pub open spec fn is_canonical(digits: Seq<u8>) -> bool {
    &&& digits.len() >= 1
    &&& forall|j: int| 0 <= j < digits.len() ==> is_digit(#[trigger] digits[j])
    &&& digits.len() > 1 ==> digits[0] != 48
}

/// The digits of a number are canonical, and their value is the number.
pub proof fn lemma_decimal_round_trip(n: nat)
    ensures
        is_canonical(decimal_digits(n)),
        decimal_value(decimal_digits(n)) == n,
        n >= 1 ==> decimal_digits(n)[0] != 48,
    decreases n,
{
    if n < 10 {
        let d = decimal_digits(n);
        assert(d.drop_last().len() == 0);
        assert(decimal_value(d) == decimal_value(d.drop_last()) * 10 + (d.last() - 48) as nat);
    } else {
        lemma_decimal_round_trip(n / 10);
        let init = decimal_digits(n / 10);
        let d = init.push((48 + n % 10) as u8);
        assert(d.drop_last() == init);
        assert(d[0] == init[0]);
    }
}

/// A canonical string of digits that does not begin with a zero stands for
/// a positive number.
proof fn lemma_canonical_positive(digits: Seq<u8>)
    requires
        is_canonical(digits),
        digits[0] != 48,
    ensures
        decimal_value(digits) >= 1,
    decreases digits.len(),
{
    if digits.len() > 1 {
        let init = digits.drop_last();
        assert(init[0] == digits[0]);
        assert forall|j: int| 0 <= j < init.len() implies is_digit(#[trigger] init[j]) by {
            assert(init[j] == digits[j]);
        }
        lemma_canonical_positive(init);
    } else {
        assert(digits.drop_last().len() == 0);
        assert(is_digit(digits[0]));
    }
}

/// Writing out the value of a canonical string of digits gives the string
/// back.
pub proof fn lemma_digits_round_trip(digits: Seq<u8>)
    requires
        is_canonical(digits),
    ensures
        decimal_digits(decimal_value(digits)) == digits,
    decreases digits.len(),
{
    let init = digits.drop_last();
    let last = digits.last();
    assert(is_digit(digits[digits.len() - 1]));
    if digits.len() == 1 {
        assert(init.len() == 0);
        assert(decimal_value(init) == 0);
        assert(decimal_digits(decimal_value(digits)) =~= digits);
    } else {
        assert(init[0] == digits[0]);
        assert forall|j: int| 0 <= j < init.len() implies is_digit(#[trigger] init[j]) by {
            assert(init[j] == digits[j]);
        }
        lemma_canonical_positive(init);
        lemma_digits_round_trip(init);
        let v = decimal_value(init);
        let d = (last - 48) as nat;
        assert(decimal_value(digits) == v * 10 + d);
        assert((v * 10 + d) / 10 == v && (v * 10 + d) % 10 == d);
        assert(decimal_digits(v * 10 + d) == decimal_digits(v).push((48 + d) as u8));
        assert(init.push(last) =~= digits);
    }
}

/// A string of `k` digits stands for a number below ten to the `k`; here for
/// the lengths up to five.
proof fn lemma_decimal_value_bound(digits: Seq<u8>)
    requires
        forall|j: int| 0 <= j < digits.len() ==> is_digit(#[trigger] digits[j]),
        digits.len() <= 6,
    ensures
        digits.len() == 0 ==> decimal_value(digits) == 0,
        digits.len() == 1 ==> decimal_value(digits) <= 9,
        digits.len() == 2 ==> decimal_value(digits) <= 99,
        digits.len() == 3 ==> decimal_value(digits) <= 999,
        digits.len() == 4 ==> decimal_value(digits) <= 9999,
        digits.len() == 5 ==> decimal_value(digits) <= 99999,
        digits.len() == 6 ==> decimal_value(digits) <= 999999,
    decreases digits.len(),
{
    if digits.len() > 0 {
        let init = digits.drop_last();
        assert forall|j: int| 0 <= j < init.len() implies is_digit(#[trigger] init[j]) by {
            assert(init[j] == digits[j]);
        }
        assert(is_digit(digits[digits.len() - 1]));
        lemma_decimal_value_bound(init);
    }
}

/// The shape of a buffer that begins with a cursor movement: `ESC`, `[`, the
/// digits of the count, then the letter.
pub proof fn lemma_cursor_move_shape(bytes: Seq<u8>, n: u16, letter: u8, len: int)
    requires
        0 <= len <= bytes.len(),
        bytes.take(len) == cursor_move(n, letter),
    ensures
        len == decimal_digits(n as nat).len() + 3,
        1 <= decimal_digits(n as nat).len() <= 5,
        bytes[0] == 0x1B,
        bytes[1] == 0x5B,
        bytes.subrange(2, len - 1) == decimal_digits(n as nat),
        bytes[len - 1] == letter,
{
    let digits = decimal_digits(n as nat);
    let code = cursor_move(n, letter);
    lemma_decimal_digits_len(n as nat);
    assert(code.len() == digits.len() + 3);
    assert(bytes.take(len).len() == len);
    assert(bytes[0] == bytes.take(len)[0]);
    assert(bytes[1] == bytes.take(len)[1]);
    assert(bytes[len - 1] == bytes.take(len)[len - 1]);
    assert(code[0] == 0x1B);
    assert(code[1] == 0x5B);
    assert(code[len - 1] == letter);
    assert forall|j: int| 0 <= j < digits.len() implies bytes.subrange(2, len - 1)[j]
        == digits[j] by {
        assert(bytes[2 + j] == bytes.take(len)[2 + j]);
        assert(code[2 + j] == digits[j]);
    }
    assert(bytes.subrange(2, len - 1) =~= digits);
}

/// Cursor movements are uniquely decodable: where two of them, each ending
/// in a letter that is no digit, both begin the same buffer, they are the
/// same movement.
pub proof fn lemma_cursor_move_unique(
    bytes: Seq<u8>,
    n1: u16,
    letter1: u8,
    len1: int,
    n2: u16,
    letter2: u8,
    len2: int,
)
    requires
        0 <= len1 <= bytes.len(),
        0 <= len2 <= bytes.len(),
        !is_digit(letter1),
        !is_digit(letter2),
        bytes.take(len1) == cursor_move(n1, letter1),
        bytes.take(len2) == cursor_move(n2, letter2),
    ensures
        n1 == n2,
        letter1 == letter2,
        len1 == len2,
{
    lemma_cursor_move_shape(bytes, n1, letter1, len1);
    lemma_cursor_move_shape(bytes, n2, letter2, len2);
    lemma_decimal_round_trip(n1 as nat);
    lemma_decimal_round_trip(n2 as nat);
    let d1 = decimal_digits(n1 as nat);
    let d2 = decimal_digits(n2 as nat);
    if len1 < len2 {
        // The letter of the first would be a digit of the second.
        assert(bytes.subrange(2, len2 - 1)[len1 - 3] == bytes[len1 - 1]);
        assert(is_digit(d2[len1 - 3]));
    } else if len2 < len1 {
        assert(bytes.subrange(2, len1 - 1)[len2 - 3] == bytes[len2 - 1]);
        assert(is_digit(d1[len2 - 3]));
    }
}

/// The first `len` bytes of `bytes` are the movement of the cursor by `n`
/// cells in the direction that `letter`, which is no digit, names.
pub open spec fn begins_with_move(bytes: Seq<u8>, n: u16, letter: u8, len: int) -> bool {
    0 <= len <= bytes.len() && !is_digit(letter) && bytes.take(len) == cursor_move(n, letter)
}

/// Reads a cursor movement from the front of `bytes`: the count, the letter
/// that names the direction, and the number of bytes read. `None` where
/// `bytes` does not begin with a cursor movement as `cursor_up` and
/// `cursor_right` write them, with a 16-bit count in canonical digits and a
/// letter that is no digit.
pub fn parse_cursor_move(bytes: &[u8]) -> (r: Option<(u16, u8, usize)>)
    ensures
        r matches Some((n, letter, len)) ==> begins_with_move(bytes@, n, letter, len as int),
        r is None ==> forall|n: u16, letter: u8, len: int|
            !#[trigger] begins_with_move(bytes@, n, letter, len),
{
    let ghost b = bytes@;
    let total = bytes.len();
    if total < 4 || bytes[0] != 0x1B || bytes[1] != 0x5B {
        proof {
            assert forall|n: u16, letter: u8, len: int| !#[trigger] begins_with_move(
                b,
                n,
                letter,
                len,
            ) by {
                if begins_with_move(b, n, letter, len) {
                    lemma_cursor_move_shape(b, n, letter, len);
                }
            }
        }
        return None;
    }
    let mut value: u32 = 0;
    let mut i: usize = 2;
    while i < total && i < 8 && 48 <= bytes[i] && bytes[i] <= 57
        invariant
            b == bytes@,
            total == b.len(),
            2 <= i <= total,
            i <= 8,
            forall|j: int| 2 <= j < i ==> is_digit(#[trigger] b[j]),
            value == decimal_value(b.subrange(2, i as int)),
            value <= 999999,
        decreases 8 - i,
    {
        proof {
            let grown = b.subrange(2, i + 1);
            assert(grown.drop_last() == b.subrange(2, i as int));
            assert(grown.last() == b[i as int]);
            assert forall|j: int| 0 <= j < grown.len() implies is_digit(#[trigger] grown[j]) by {
                assert(grown[j] == b[2 + j]);
            }
            lemma_decimal_value_bound(grown);
        }
        value = value * 10 + (bytes[i] - 48) as u32;
        i += 1;
    }
    let count = i - 2;
    let ghost digits = b.subrange(2, i as int);
    proof {
        assert forall|j: int| 0 <= j < digits.len() implies is_digit(#[trigger] digits[j]) by {
            assert(digits[j] == b[2 + j]);
        }
    }
    if count == 0 || count > 5 || i >= total || value > 65535 || (count > 1 && bytes[2] == 48) {
        proof {
            assert forall|n: u16, letter: u8, len: int| !#[trigger] begins_with_move(
                b,
                n,
                letter,
                len,
            ) by {
                if begins_with_move(b, n, letter, len) {
                    lemma_cursor_move_shape(b, n, letter, len);
                    lemma_decimal_round_trip(n as nat);
                    let d = decimal_digits(n as nat);
                    // The scan stops exactly at the letter.
                    if i < len - 1 {
                        assert(b.subrange(2, len - 1)[i - 2] == b[i as int]);
                        assert(is_digit(d[i - 2]));
                    }
                    if i > len - 1 {
                        assert(is_digit(b[len - 1]));
                    }
                    assert(digits == d);
                    assert(digits[0] == b[2]);
                }
            }
        }
        return None;
    }
    proof {
        assert(digits[0] == b[2]);
        lemma_digits_round_trip(digits);
        assert(b.take(i + 1) =~= cursor_move(value as u16, b[i as int]));
    }
    Some((value as u16, bytes[i], i + 1))
}

/// The wire format of cursor movements is exact. Whatever movements are
/// read, one after the other, from a buffer that holds a cursor-up by `n`
/// followed by a cursor-right by `m`, they are these two, they use up the
/// buffer, and writing them again yields the buffer byte for byte.
pub proof fn lemma_cursor_moves_round_trip(
    n: u16,
    m: u16,
    n1: u16,
    letter1: u8,
    len1: int,
    n2: u16,
    letter2: u8,
    len2: int,
)
    requires
        begins_with_move(cursor_move(n, 0x41) + cursor_move(m, 0x43), n1, letter1, len1),
        begins_with_move(
            (cursor_move(n, 0x41) + cursor_move(m, 0x43)).skip(len1),
            n2,
            letter2,
            len2,
        ),
    ensures
        n1 == n && letter1 == 0x41,
        n2 == m && letter2 == 0x43,
        len1 + len2 == (cursor_move(n, 0x41) + cursor_move(m, 0x43)).len(),
        cursor_move(n1, letter1) + cursor_move(n2, letter2) == cursor_move(n, 0x41) + cursor_move(
            m,
            0x43,
        ),
{
    let up = cursor_move(n, 0x41);
    let right = cursor_move(m, 0x43);
    let bytes = up + right;
    assert(bytes.take(up.len() as int) =~= up);
    lemma_cursor_move_unique(bytes, n, 0x41, up.len() as int, n1, letter1, len1);
    assert(bytes.skip(len1) =~= right);
    assert(right.take(right.len() as int) =~= right);
    lemma_cursor_move_unique(right, m, 0x43, right.len() as int, n2, letter2, len2);
}

/// A buffer that holds a cursor-up followed by a cursor-right begins with a
/// movement, and so does what follows it: reading them cannot fail.
pub proof fn lemma_cursor_moves_readable(n: u16, m: u16)
    ensures
        begins_with_move(
            cursor_move(n, 0x41) + cursor_move(m, 0x43),
            n,
            0x41,
            cursor_move(n, 0x41).len() as int,
        ),
        begins_with_move(
            (cursor_move(n, 0x41) + cursor_move(m, 0x43)).skip(cursor_move(n, 0x41).len() as int),
            m,
            0x43,
            cursor_move(m, 0x43).len() as int,
        ),
{
    let up = cursor_move(n, 0x41);
    let right = cursor_move(m, 0x43);
    let bytes = up + right;
    assert(bytes.take(up.len() as int) =~= up);
    assert(bytes.skip(up.len() as int) =~= right);
    assert(right.take(right.len() as int) =~= right);
}

/// No table sequence begins another: at any position of the input at most
/// one entry applies, so the first match is also the longest and the only
/// one.
pub proof fn lemma_sequences_prefix_free(j: int, k: int)
    requires
        0 <= j < SEQUENCE_COUNT,
        0 <= k < SEQUENCE_COUNT,
        j != k,
    ensures
        !sequence(j).0.is_prefix_of(sequence(k).0),
{
    let a = sequence(j).0;
    let b = sequence(k).0;
    if a.is_prefix_of(b) {
        assert(a.len() <= b.len());
        assert(a =~= b.subrange(0, a.len() as int));
        assert(a[0] == b.subrange(0, a.len() as int)[0]);
        if a.len() >= 3 {
            assert(a[1] == b.subrange(0, a.len() as int)[1]);
            assert(a[2] == b.subrange(0, a.len() as int)[2]);
        }
        if a.len() >= 4 {
            assert(a[3] == b.subrange(0, a.len() as int)[3]);
        }
        if a.len() >= 6 {
            assert(a[4] == b.subrange(0, a.len() as int)[4]);
            assert(a[5] == b.subrange(0, a.len() as int)[5]);
        }
    }
}

/// Where two table sequences both begin the same input, they are the same
/// entry.
pub proof fn lemma_matching_entry_unique(bytes: Seq<u8>, j: int, k: int)
    requires
        0 <= j < SEQUENCE_COUNT,
        0 <= k < SEQUENCE_COUNT,
        sequence(j).0.is_prefix_of(bytes),
        sequence(k).0.is_prefix_of(bytes),
    ensures
        j == k,
{
    let a = sequence(j).0;
    let b = sequence(k).0;
    if j != k {
        if a.len() <= b.len() {
            assert(a =~= b.subrange(0, a.len() as int)) by {
                assert forall|m: int| 0 <= m < a.len() implies a[m] == b[m] by {
                    assert(a[m] == bytes.subrange(0, a.len() as int)[m]);
                    assert(b[m] == bytes.subrange(0, b.len() as int)[m]);
                }
            }
            lemma_sequences_prefix_free(j, k);
        } else {
            assert(b =~= a.subrange(0, b.len() as int)) by {
                assert forall|m: int| 0 <= m < b.len() implies a[m] == b[m] by {
                    assert(a[m] == bytes.subrange(0, a.len() as int)[m]);
                    assert(b[m] == bytes.subrange(0, b.len() as int)[m]);
                }
            }
            lemma_sequences_prefix_free(k, j);
        }
    }
}

} // verus!
