//! Input as it arrives: chunks of bytes whose boundaries may split an escape
//! sequence or a character, signals, and the records of a native console.

use vstd::prelude::*;
use vstd::string::StringSliceAdditionalSpecFns;
use vstd::utf8::{
    char_u32_cast, decode_first_scalar, encode_scalar, encode_utf8, encode_utf8_first_scalar,
    length_of_first_scalar,
};
use crate::ansi::{
    begins_with_wide_char, decode, first_entry, key_of_byte, lemma_first_entry,
    lemma_matching_entry_unique, lemma_sequence_len, lemma_wide_char_len, match_sequence,
    sequence, sequence_at, translate_bytes, translate_char, wide_char_at, SEQUENCE_COUNT,
};
use crate::screen::Key;

verus! {

/// `bytes` is the beginning of a table sequence, and not yet all of it: more
/// input may complete the sequence.
pub open spec fn is_partial_sequence(bytes: Seq<u8>) -> bool {
    bytes.len() > 0 && exists|k: int|
        0 <= k < SEQUENCE_COUNT && bytes.len() < (#[trigger] sequence(k)).0.len()
            && bytes.is_prefix_of(sequence(k).0)
}

/// Whether `second` can follow the leading byte `first` in a well-formed
/// UTF-8 encoding: a continuation byte, from the narrower range that keeps
/// the encoding from being overlong, a surrogate, or beyond the last code
/// point.
pub open spec fn second_byte_fits(first: u8, second: u8) -> bool {
    if first == 0xE0 {
        0xA0 <= second <= 0xBF
    } else if first == 0xED {
        0x80 <= second <= 0x9F
    } else if first == 0xF0 {
        0x90 <= second <= 0xBF
    } else if first == 0xF4 {
        0x80 <= second <= 0x8F
    } else {
        0x80 <= second <= 0xBF
    }
}

/// `bytes` is the beginning, and not yet all, of the UTF-8 encoding of a
/// character beyond ASCII, as the table of well-formed UTF-8 byte sequences
/// has them: more input may complete the character.
pub open spec fn is_partial_char(bytes: Seq<u8>) -> bool {
    ||| bytes.len() == 1 && 0xC2 <= bytes[0] <= 0xF4
    ||| bytes.len() == 2 && 0xE0 <= bytes[0] <= 0xF4 && second_byte_fits(bytes[0], bytes[1])
    ||| bytes.len() == 3 && 0xF0 <= bytes[0] <= 0xF4 && second_byte_fits(bytes[0], bytes[1])
        && 0x80 <= bytes[2] <= 0xBF
}

/// `bytes` is the beginning, and not yet all, of a token: of a table
/// sequence or of a character beyond ASCII.
pub open spec fn is_partial_token(bytes: Seq<u8>) -> bool {
    is_partial_sequence(bytes) || is_partial_char(bytes)
}

/// The number of bytes at the front of `bytes` whose decoding no further
/// input can change: all the tokens before the first one that is the
/// beginning of a token with nothing after it.
pub open spec fn settled_len(bytes: Seq<u8>) -> nat
    decreases bytes.len(),
    via settled_len_terminates
{
    if bytes.len() == 0 {
        0
    } else {
        let k = first_entry(bytes, 0);
        if k < SEQUENCE_COUNT {
            sequence(k).0.len() + settled_len(bytes.skip(sequence(k).0.len() as int))
        } else if begins_with_wide_char(bytes) {
            length_of_first_scalar(bytes) as nat + settled_len(
                bytes.skip(length_of_first_scalar(bytes)),
            )
        } else if is_partial_token(bytes) {
            0
        } else {
            1 + settled_len(bytes.skip(1))
        }
    }
}

#[via_fn]
proof fn settled_len_terminates(bytes: Seq<u8>) {
    lemma_first_entry(bytes, 0);
    lemma_sequence_len(first_entry(bytes, 0));
    if begins_with_wide_char(bytes) {
        lemma_wide_char_len(bytes);
    }
}

/// The length of the token with which a buffer begins, where that token is
/// all there: the length of the table sequence, of the character beyond
/// ASCII, or one.
pub open spec fn token_len(bytes: Seq<u8>) -> int {
    let k = first_entry(bytes, 0);
    if k < SEQUENCE_COUNT {
        sequence(k).0.len() as int
    } else if begins_with_wide_char(bytes) {
        length_of_first_scalar(bytes)
    } else {
        1
    }
}

/// The keys of the token with which a buffer begins.
pub open spec fn token_keys(bytes: Seq<u8>) -> Seq<Key> {
    let k = first_entry(bytes, 0);
    if k < SEQUENCE_COUNT {
        entry_keys(k)
    } else if begins_with_wide_char(bytes) {
        seq![Key::Char(decode_first_scalar(bytes) as char)]
    } else {
        seq![key_of_byte(bytes[0])]
    }
}

/// The token with which a non-empty buffer begins is at least one byte
/// long, and no longer than the buffer.
pub proof fn lemma_token_len(bytes: Seq<u8>)
    requires
        bytes.len() > 0,
    ensures
        1 <= token_len(bytes) <= bytes.len(),
        token_len(bytes) <= 6,
{
    lemma_first_entry(bytes, 0);
    lemma_sequence_len(first_entry(bytes, 0));
    if begins_with_wide_char(bytes) {
        lemma_wide_char_len(bytes);
    }
}

/// The settled part of a buffer is a part of the buffer, and what follows
/// it is the beginning of a token.
pub proof fn lemma_settled_len_bound(bytes: Seq<u8>)
    ensures
        settled_len(bytes) <= bytes.len(),
        settled_len(bytes) < bytes.len() ==> is_partial_token(
            bytes.skip(settled_len(bytes) as int),
        ),
    decreases bytes.len(),
{
    if bytes.len() > 0 {
        lemma_token_len(bytes);
        let k = first_entry(bytes, 0);
        if k >= SEQUENCE_COUNT && !begins_with_wide_char(bytes) && is_partial_token(bytes) {
            assert(bytes.skip(0) == bytes);
        } else {
            let len = token_len(bytes);
            lemma_settled_len_bound(bytes.skip(len));
            assert(bytes.skip(len).skip(settled_len(bytes.skip(len)) as int) == bytes.skip(
                len + settled_len(bytes.skip(len)),
            ));
        }
    }
}

/// Where a table sequence begins a buffer, `first_entry` finds it.
pub proof fn lemma_first_entry_is(bytes: Seq<u8>, k: int)
    requires
        0 <= k < SEQUENCE_COUNT,
        sequence(k).0.is_prefix_of(bytes),
    ensures
        first_entry(bytes, 0) == k,
{
    lemma_first_entry(bytes, 0);
    let j = first_entry(bytes, 0);
    if j < SEQUENCE_COUNT {
        lemma_matching_entry_unique(bytes, j, k);
    } else {
        assert(!sequence(k).0.is_prefix_of(bytes));
    }
}

/// A prefix of a prefix is a prefix of the whole, and a prefix of a buffer
/// that is no longer than a part of it is a prefix of that part.
proof fn lemma_prefix_of_longer(a: Seq<u8>, x: Seq<u8>, y: Seq<u8>)
    ensures
        a.is_prefix_of(x) ==> a.is_prefix_of(x + y),
        a.is_prefix_of(x + y) && a.len() <= x.len() ==> a.is_prefix_of(x),
        a.is_prefix_of(x + y) && a.len() > x.len() ==> x.is_prefix_of(a),
{
    if a.is_prefix_of(x) {
        assert(a =~= (x + y).subrange(0, a.len() as int)) by {
            assert forall|i: int| 0 <= i < a.len() implies a[i] == (x + y)[i] by {
                assert(a[i] == x.subrange(0, a.len() as int)[i]);
            }
        }
    }
    if a.is_prefix_of(x + y) {
        assert forall|i: int| 0 <= i < a.len() implies a[i] == (x + y)[i] by {
            assert(a[i] == (x + y).subrange(0, a.len() as int)[i]);
        }
        if a.len() <= x.len() {
            assert(a =~= x.subrange(0, a.len() as int));
        } else {
            assert(x =~= a.subrange(0, x.len() as int)) by {
                assert forall|i: int| 0 <= i < x.len() implies x[i] == a[i] by {
                    assert((x + y)[i] == x[i]);
                }
            }
        }
    }
}

/// The keys that the table entry `k` yields: its key, or nothing.
pub open spec fn entry_keys(k: int) -> Seq<Key> {
    match sequence(k).1 {
        Some(key) => seq![key],
        None => Seq::empty(),
    }
}

/// A buffer decodes to the keys of its first token, followed by the keys of
/// what comes after that token.
proof fn lemma_decode_token(x: Seq<u8>)
    requires
        x.len() > 0,
    ensures
        decode(x) == token_keys(x) + decode(x.skip(token_len(x))),
{
    lemma_first_entry(x, 0);
    let k = first_entry(x, 0);
    lemma_sequence_len(k);
    if k < SEQUENCE_COUNT {
        match sequence(k).1 {
            Some(key) => {},
            None => {
                assert(Seq::<Key>::empty() + decode(x.skip(sequence(k).0.len() as int)) == decode(
                    x.skip(sequence(k).0.len() as int),
                ));
            },
        }
    }
}

/// Every table sequence begins with the escape byte or is the byte of the
/// resize event; neither of them begins the encoding of a character.
proof fn lemma_sequence_first_byte(k: int)
    requires
        0 <= k < SEQUENCE_COUNT,
    ensures
        sequence(k).0[0] == 0x1B || sequence(k).0[0] == 0x9C,
{
}

/// Whether a buffer begins with the encoding of a character depends on the
/// bytes of that encoding alone.
proof fn lemma_wide_char_is_local(a: Seq<u8>, b: Seq<u8>)
    requires
        begins_with_wide_char(a),
        b.len() >= length_of_first_scalar(a),
        forall|j: int| 0 <= j < length_of_first_scalar(a) ==> a[j] == b[j],
    ensures
        begins_with_wide_char(b),
        decode_first_scalar(b) == decode_first_scalar(a),
        length_of_first_scalar(b) == length_of_first_scalar(a),
{
    lemma_wide_char_len(a);
    assert(a[0] == b[0]);
    assert(a[1] == b[1]);
    if length_of_first_scalar(a) >= 3 {
        assert(a[2] == b[2]);
    }
    if length_of_first_scalar(a) >= 4 {
        assert(a[3] == b[3]);
    }
}

/// No table sequence begins a buffer that begins with the encoding of a
/// character.
proof fn lemma_wide_char_is_no_sequence(x: Seq<u8>)
    requires
        begins_with_wide_char(x),
    ensures
        first_entry(x, 0) == SEQUENCE_COUNT,
{
    lemma_first_entry(x, 0);
    lemma_wide_char_len(x);
    let k = first_entry(x, 0);
    if k < SEQUENCE_COUNT {
        lemma_sequence_first_byte(k);
        lemma_sequence_len(k);
        assert(sequence(k).0[0] == x.subrange(0, sequence(k).0.len() as int)[0]);
    }
}

/// The beginning of the encoding of a character, cut off before its end, is
/// a partial character.
proof fn lemma_cut_wide_char_is_partial(x: Seq<u8>, y: Seq<u8>)
    requires
        begins_with_wide_char(x + y),
        0 < x.len() < length_of_first_scalar(x + y),
    ensures
        is_partial_char(x),
{
    let whole = x + y;
    lemma_wide_char_len(whole);
    let b0 = whole[0];
    let b1 = whole[1];
    assert(x[0] == b0);
    if x.len() >= 2 {
        assert(x[1] == b1);
    }
    if length_of_first_scalar(whole) == 2 {
        assert((((b0 & 0x1F) as u32) << 6) | ((b1 & 0x3F) as u32) >= 0x80 ==> b0 >= 0xC2)
            by (bit_vector)
            requires
                0xC0 <= b0 <= 0xDF,
        ;
    } else if length_of_first_scalar(whole) == 3 {
        let b2 = whole[2];
        let cp = (((b0 & 0x0F) as u32) << 12) | (((b1 & 0x3F) as u32) << 6) | ((b2 & 0x3F) as u32);
        assert(cp >= 0x800 && !(0xD800 <= cp <= 0xDFFF) ==> second_byte_fits(b0, b1))
            by (bit_vector)
            requires
                0xE0 <= b0 <= 0xEF,
                0x80 <= b1 <= 0xBF,
                0x80 <= b2 <= 0xBF,
                cp == (((b0 & 0x0F) as u32) << 12) | (((b1 & 0x3F) as u32) << 6) | ((b2
                    & 0x3F) as u32),
        ;
    } else {
        let b2 = whole[2];
        let b3 = whole[3];
        if x.len() >= 3 {
            assert(x[2] == b2);
        }
        let cp = (((b0 & 0x07) as u32) << 18) | (((b1 & 0x3F) as u32) << 12) | (((b2
            & 0x3F) as u32) << 6) | ((b3 & 0x3F) as u32);
        assert(0x10000 <= cp <= 0x10FFFF ==> b0 <= 0xF4 && second_byte_fits(b0, b1))
            by (bit_vector)
            requires
                0xF0 <= b0 <= 0xF7,
                0x80 <= b1 <= 0xBF,
                0x80 <= b2 <= 0xBF,
                0x80 <= b3 <= 0xBF,
                cp == (((b0 & 0x07) as u32) << 18) | (((b1 & 0x3F) as u32) << 12) | (((b2
                    & 0x3F) as u32) << 6) | ((b3 & 0x3F) as u32),
        ;
    }
}

/// The token with which a buffer begins stays its first token when more
/// input follows, unless the buffer is the beginning of a token.
proof fn lemma_token_with_more(bytes: Seq<u8>, more: Seq<u8>)
    requires
        bytes.len() > 0,
        first_entry(bytes, 0) < SEQUENCE_COUNT || begins_with_wide_char(bytes)
            || !is_partial_token(bytes),
    ensures
        token_len(bytes + more) == token_len(bytes),
        token_keys(bytes + more) == token_keys(bytes),
{
    let whole = bytes + more;
    lemma_first_entry(bytes, 0);
    let k = first_entry(bytes, 0);
    if k < SEQUENCE_COUNT {
        lemma_prefix_of_longer(sequence(k).0, bytes, more);
        lemma_first_entry_is(whole, k);
    } else if begins_with_wide_char(bytes) {
        lemma_wide_char_len(bytes);
        assert forall|j: int| 0 <= j < length_of_first_scalar(bytes) implies bytes[j]
            == whole[j] by {}
        lemma_wide_char_is_local(bytes, whole);
        lemma_wide_char_is_no_sequence(whole);
    } else {
        // no table sequence begins the longer buffer
        lemma_first_entry(whole, 0);
        let j = first_entry(whole, 0);
        if j < SEQUENCE_COUNT {
            lemma_prefix_of_longer(sequence(j).0, bytes, more);
            if sequence(j).0.len() <= bytes.len() {
                assert(sequence(j).0.is_prefix_of(bytes));
            } else {
                assert(bytes.is_prefix_of(sequence(j).0));
            }
        }
        // and no character does
        if begins_with_wide_char(whole) {
            lemma_wide_char_len(whole);
            if length_of_first_scalar(whole) <= bytes.len() {
                assert forall|j: int| 0 <= j < length_of_first_scalar(whole) implies whole[j]
                    == bytes[j] by {}
                lemma_wide_char_is_local(whole, bytes);
            } else {
                lemma_cut_wide_char_is_partial(bytes, more);
            }
        }
        assert(whole[0] == bytes[0]);
    }
}

/// The token with which a buffer begins is the first token of every
/// beginning of the buffer that holds it.
proof fn lemma_token_with_less(x: Seq<u8>, y: Seq<u8>)
    requires
        x.len() > 0,
        token_len(x + y) <= x.len(),
    ensures
        token_len(x) == token_len(x + y),
        token_keys(x) == token_keys(x + y),
{
    let whole = x + y;
    lemma_first_entry(whole, 0);
    lemma_first_entry(x, 0);
    let k = first_entry(whole, 0);
    if k < SEQUENCE_COUNT {
        lemma_prefix_of_longer(sequence(k).0, x, y);
        lemma_first_entry_is(x, k);
    } else {
        let i = first_entry(x, 0);
        if i < SEQUENCE_COUNT {
            lemma_prefix_of_longer(sequence(i).0, x, y);
        }
        if begins_with_wide_char(whole) {
            lemma_wide_char_len(whole);
            assert forall|j: int| 0 <= j < length_of_first_scalar(whole) implies whole[j]
                == x[j] by {}
            lemma_wide_char_is_local(whole, x);
        } else if begins_with_wide_char(x) {
            lemma_wide_char_len(x);
            assert forall|j: int| 0 <= j < length_of_first_scalar(x) implies x[j]
                == whole[j] by {}
            lemma_wide_char_is_local(x, whole);
        }
        assert(whole[0] == x[0]);
    }
}

/// Resynchronization: the keys decoded from the settled part of a buffer
/// stand, whatever input follows. The whole input decodes to those keys,
/// followed by what the unsettled rest and the further input decode to
/// together.
pub proof fn lemma_settled_keys_stand(bytes: Seq<u8>, more: Seq<u8>)
    ensures
        decode(bytes + more) == decode(bytes.take(settled_len(bytes) as int)) + decode(
            bytes.skip(settled_len(bytes) as int) + more,
        ),
    decreases bytes.len(),
{
    let n = settled_len(bytes) as int;
    lemma_settled_len_bound(bytes);
    if n == 0 {
        assert(bytes.take(0) =~= Seq::<u8>::empty());
        assert(bytes.skip(0) + more =~= bytes + more);
        assert(decode(Seq::<u8>::empty()) == Seq::<Key>::empty());
        assert(Seq::<Key>::empty() + decode(bytes + more) == decode(bytes + more));
    } else {
        lemma_token_len(bytes);
        let len = token_len(bytes);
        let rest = bytes.skip(len);
        let m = settled_len(rest) as int;
        assert(n == len + m);
        lemma_settled_len_bound(rest);
        lemma_settled_keys_stand(rest, more);
        let shorter = bytes.take(n);
        assert(shorter + rest.skip(m) =~= bytes);
        assert((bytes + more).skip(len) =~= rest + more);
        assert(shorter.skip(len) =~= rest.take(m));
        assert(rest.skip(m) =~= bytes.skip(n));
        let head = token_keys(bytes);
        lemma_token_with_more(bytes, more);
        lemma_decode_token(bytes + more);
        lemma_token_with_less(shorter, rest.skip(m));
        lemma_decode_token(shorter);
        assert(decode(bytes + more) == head + decode(rest + more));
        assert(decode(shorter) == head + decode(rest.take(m)));
        assert(head + (decode(rest.take(m)) + decode(rest.skip(m) + more)) == head + decode(
            rest.take(m),
        ) + decode(rest.skip(m) + more));
    }
}

/// A buffer decodes to the keys of its settled part followed by the keys of
/// the rest.
pub proof fn lemma_decode_splits_at_settled(bytes: Seq<u8>)
    ensures
        decode(bytes) == decode(bytes.take(settled_len(bytes) as int)) + decode(
            bytes.skip(settled_len(bytes) as int),
        ),
{
    lemma_settled_keys_stand(bytes, Seq::<u8>::empty());
    assert(bytes + Seq::<u8>::empty() =~= bytes);
    assert(bytes.skip(settled_len(bytes) as int) + Seq::<u8>::empty() =~= bytes.skip(
        settled_len(bytes) as int,
    ));
}

/// Sequences that agree once the same sequence is put behind them are the
/// same.
proof fn lemma_append_cancel(a: Seq<Key>, b: Seq<Key>, c: Seq<Key>)
    requires
        a + c == b + c,
    ensures
        a == b,
{
    assert((a + c).len() == a.len() + c.len());
    assert((b + c).len() == b.len() + c.len());
    assert forall|i: int| 0 <= i < a.len() implies a[i] == b[i] by {
        assert((a + c)[i] == a[i]);
        assert((b + c)[i] == b[i]);
    }
    assert(a =~= b);
}

/// Whether the bytes from `from` on are the beginning, and not all, of
/// `entry`.
fn begins_entry(bytes: &[u8], from: usize, entry: &[u8]) -> (r: bool)
    requires
        from <= bytes@.len(),
    ensures
        r == (bytes@.skip(from as int).len() < entry@.len() && bytes@.skip(
            from as int,
        ).is_prefix_of(entry@)),
{
    let len = bytes.len();
    let rest_len = len - from;
    if rest_len >= entry.len() {
        return false;
    }
    let ghost rest = bytes@.skip(from as int);
    let mut j: usize = 0;
    while j < rest_len
        invariant
            len == bytes@.len(),
            from <= len,
            rest_len == len - from,
            rest_len < entry@.len(),
            rest == bytes@.skip(from as int),
            j <= rest_len,
            forall|m: int| 0 <= m < j ==> rest[m] == entry@[m],
        decreases rest_len - j,
    {
        if bytes[from + j] != entry[j] {
            proof {
                assert(rest[j as int] != entry@.subrange(0, rest.len() as int)[j as int]);
            }
            return false;
        }
        j += 1;
    }
    proof {
        assert(rest =~= entry@.subrange(0, rest.len() as int));
    }
    true
}

/// Whether the bytes from `from` on are the beginning, and not all, of a
/// table sequence.
fn is_partial(bytes: &[u8], from: usize) -> (r: bool)
    requires
        from < bytes@.len(),
    ensures
        r == is_partial_sequence(bytes@.skip(from as int)),
{
    let ghost rest = bytes@.skip(from as int);
    let mut k: usize = 0;
    while k < SEQUENCE_COUNT
        invariant
            from < bytes@.len(),
            rest == bytes@.skip(from as int),
            k <= SEQUENCE_COUNT,
            forall|m: int|
                0 <= m < k ==> !(rest.len() < (#[trigger] sequence(m)).0.len() && rest.is_prefix_of(
                    sequence(m).0,
                )),
        decreases SEQUENCE_COUNT - k,
    {
        let (entry, _) = sequence_at(k);
        if begins_entry(bytes, from, entry) {
            return true;
        }
        k += 1;
    }
    false
}

/// Whether the bytes from `from` on are the beginning, and not all, of the
/// encoding of a character beyond ASCII.
fn is_partial_char_at(bytes: &[u8], from: usize) -> (r: bool)
    requires
        from < bytes@.len(),
    ensures
        r == is_partial_char(bytes@.skip(from as int)),
{
    let len = bytes.len();
    let left = len - from;
    let ghost rest = bytes@.skip(from as int);
    if left > 3 {
        return false;
    }
    let b0 = bytes[from];
    proof {
        assert(rest[0] == b0);
    }
    if left == 1 {
        return 0xC2 <= b0 && b0 <= 0xF4;
    }
    let b1 = bytes[from + 1];
    proof {
        assert(rest[1] == b1);
    }
    let second_fits = if b0 == 0xE0 {
        0xA0 <= b1 && b1 <= 0xBF
    } else if b0 == 0xED {
        0x80 <= b1 && b1 <= 0x9F
    } else if b0 == 0xF0 {
        0x90 <= b1 && b1 <= 0xBF
    } else if b0 == 0xF4 {
        0x80 <= b1 && b1 <= 0x8F
    } else {
        0x80 <= b1 && b1 <= 0xBF
    };
    if left == 2 {
        return 0xE0 <= b0 && b0 <= 0xF4 && second_fits;
    }
    let b2 = bytes[from + 2];
    proof {
        assert(rest[2] == b2);
    }
    0xF0 <= b0 && b0 <= 0xF4 && second_fits && 0x80 <= b2 && b2 <= 0xBF
}

/// A decoder of input that arrives in chunks. It holds back the bytes at
/// the end of a chunk that may be the beginning of an escape sequence or of
/// a character, until more input completes the token or shows that it is
/// none.
pub struct KeyDecoder {
    pending: Vec<u8>,
}

impl View for KeyDecoder {
    type V = Seq<u8>;

    /// The bytes that are held back.
    closed spec fn view(&self) -> Seq<u8> {
        self.pending@
    }
}

impl KeyDecoder {
    /// A decoder that holds nothing back.
    pub fn new() -> (decoder: KeyDecoder)
        ensures
            decoder@ == Seq::<u8>::empty(),
    {
        KeyDecoder { pending: Vec::new() }
    }

    /// Whether bytes are held back.
    pub fn has_pending(&self) -> (r: bool)
        ensures
            r == (self@.len() > 0),
    {
        self.pending.len() > 0
    }

    /// Takes the next chunk of input and returns the keys that are settled:
    /// those of the bytes held back so far and of the chunk, up to the
    /// point from which on the input may be the beginning of a token. The
    /// bytes from that point on are held back.
    pub fn feed(&mut self, chunk: &[u8]) -> (keys: Vec<Key>)
        ensures
            keys@ == decode(
                (old(self)@ + chunk@).take(settled_len(old(self)@ + chunk@) as int),
            ),
            final(self)@ == (old(self)@ + chunk@).skip(settled_len(old(self)@ + chunk@) as int),
            keys@ + decode(final(self)@) == decode(old(self)@ + chunk@),
            final(self)@.len() == 0 || is_partial_token(final(self)@),
    {
        let ghost all = old(self)@ + chunk@;
        let mut c: usize = 0;
        while c < chunk.len()
            invariant
                c <= chunk@.len(),
                self.pending@ == old(self)@ + chunk@.take(c as int),
            decreases chunk@.len() - c,
        {
            self.pending.push(chunk[c]);
            proof {
                assert(old(self)@ + chunk@.take(c as int).push(chunk@[c as int]) == old(self)@
                    + chunk@.take(c + 1));
            }
            c += 1;
        }
        proof {
            assert(chunk@.take(c as int) == chunk@);
            assert(all.skip(0) == all);
        }
        let mut keys: Vec<Key> = Vec::new();
        let mut i: usize = 0;
        while i < self.pending.len()
            invariant
                self.pending@ == all,
                i <= all.len(),
                i + settled_len(all.skip(i as int)) == settled_len(all),
                keys@ + decode(all.skip(i as int)) == decode(all),
            ensures
                settled_len(all.skip(i as int)) == 0,
            decreases all.len() - i,
        {
            let ghost rest = all.skip(i as int);
            let ghost before = keys@;
            match match_sequence(self.pending.as_slice(), i) {
                Some(k) => {
                    let (entry, key) = sequence_at(k);
                    if let Some(k) = key {
                        keys.push(k);
                    }
                    proof {
                        lemma_sequence_len(k as int);
                        lemma_first_entry(rest, 0);
                        assert(rest.skip(entry@.len() as int) == all.skip(i + entry@.len()));
                        assert(keys@ + decode(all.skip(i + entry@.len())) == before + decode(
                            rest,
                        ));
                    }
                    i += entry.len();
                },
                None => match wide_char_at(self.pending.as_slice(), i) {
                    Some((c, len)) => {
                        keys.push(Key::Char(c));
                        proof {
                            lemma_wide_char_len(rest);
                            assert(rest.skip(len as int) == all.skip(i + len));
                            assert(keys@ + decode(all.skip(i + len)) == before + decode(rest));
                        }
                        i += len;
                    },
                    None => {
                        if is_partial(self.pending.as_slice(), i) || is_partial_char_at(
                            self.pending.as_slice(),
                            i,
                        ) {
                            proof {
                                assert(settled_len(rest) == 0);
                            }
                            break;
                        }
                        keys.push(translate_char(self.pending[i] as char));
                        proof {
                            assert(rest.skip(1) == all.skip(i + 1));
                            assert(keys@ + decode(all.skip(i + 1)) == before + decode(rest));
                        }
                        i += 1;
                    },
                },
            }
        }
        proof {
            assert(settled_len(all.skip(i as int)) == 0);
            lemma_settled_len_bound(all);
            lemma_decode_splits_at_settled(all);
            lemma_append_cancel(keys@, decode(all.take(i as int)), decode(all.skip(i as int)));
        }
        let rest = self.pending.split_off(i);
        self.pending = rest;
        keys
    }

    /// The input pauses: no more bytes wait to be read. An escape sequence
    /// that was held back is not going to be completed, since terminals send
    /// sequences in one piece; its bytes are decoded as they stand, so that a
    /// lone escape becomes the key that cancels. The beginning of a
    /// character stays held back until the rest of it arrives.
    pub fn pause(&mut self) -> (keys: Vec<Key>)
        ensures
            is_partial_char(old(self)@) ==> keys@ == Seq::<Key>::empty() && final(self)@ == old(
                self,
            )@,
            !is_partial_char(old(self)@) ==> keys@ == decode(old(self)@) && final(self)@
                == Seq::<u8>::empty(),
    {
        if self.pending.len() > 0 {
            proof {
                assert(self.pending@.skip(0) == self.pending@);
            }
            if is_partial_char_at(self.pending.as_slice(), 0) {
                return Vec::new();
            }
        }
        self.finish()
    }

    /// The input has ended: returns the keys of the bytes that were held
    /// back, decoded as they stand, so that nothing is dropped.
    pub fn finish(&mut self) -> (keys: Vec<Key>)
        ensures
            keys@ == decode(old(self)@),
            final(self)@ == Seq::<u8>::empty(),
    {
        let keys = translate_bytes(self.pending.as_slice());
        self.pending.clear();
        keys
    }
}

/// Decoding in chunks yields what decoding at once yields: the keys returned
/// for a first chunk, those returned for a second, and those returned at the
/// end are together the keys of the two chunks joined, wherever the input
/// was split.
pub proof fn lemma_chunks_decode_like_the_whole(first: Seq<u8>, second: Seq<u8>)
    ensures
        ({
            let held = first.skip(settled_len(first) as int);
            let joined = held + second;
            decode(first.take(settled_len(first) as int)) + decode(
                joined.take(settled_len(joined) as int),
            ) + decode(joined.skip(settled_len(joined) as int)) == decode(first + second)
        }),
{
    let held = first.skip(settled_len(first) as int);
    let joined = held + second;
    lemma_settled_keys_stand(first, second);
    lemma_decode_splits_at_settled(joined);
    let a = decode(first.take(settled_len(first) as int));
    let b = decode(joined.take(settled_len(joined) as int));
    let c = decode(joined.skip(settled_len(joined) as int));
    assert(a + b + c == a + (b + c));
}

/// What can interrupt the input from outside.
#[derive(Debug, PartialEq, Eq, Copy, Clone, Structural)]
pub enum Signal {
    /// The window has changed its size.
    WindowChanged,
    /// The user asked to interrupt the program.
    Interrupt,
}

/// The chunk of input that stands for a signal, so that signals arrive
/// through the same queue as the keys: a change of the window size decodes
/// to the resize event, an interrupt to the key that cancels.
pub fn signal_bytes(signal: Signal) -> (chunk: Vec<u8>)
    ensures
        chunk@ == match signal {
            Signal::WindowChanged => seq![0x9Cu8],
            Signal::Interrupt => seq![0x07u8],
        },
        decode(chunk@) == match signal {
            Signal::WindowChanged => seq![Key::Resize],
            Signal::Interrupt => seq![Key::Control('g')],
        },
{
    let mut chunk: Vec<u8> = Vec::new();
    match signal {
        Signal::WindowChanged => {
            chunk.push(0x9C);
            proof {
                assert(sequence(15).0 =~= chunk@.subrange(0, 1));
                lemma_first_entry_is(chunk@, 15);
                lemma_decode_token(chunk@);
                assert(chunk@.skip(1).len() == 0);
            }
        },
        Signal::Interrupt => {
            chunk.push(0x07);
            proof {
                lemma_first_entry(chunk@, 0);
                assert(first_entry(chunk@, 0) == SEQUENCE_COUNT) by {
                    let k = first_entry(chunk@, 0);
                    if k < SEQUENCE_COUNT {
                        assert(sequence(k).0[0] == chunk@.subrange(
                            0,
                            sequence(k).0.len() as int,
                        )[0]);
                    }
                }
                lemma_decode_token(chunk@);
                assert(chunk@.skip(1).len() == 0);
            }
        },
    }
    chunk
}

/// A record of input from a native console.
#[derive(Debug, PartialEq, Eq, Copy, Clone, Structural)]
pub enum ConsoleRecord {
    /// A key went down; with it comes one unit of UTF-16 text.
    KeyDown(u16),
    /// A key went up.
    KeyUp(u16),
    /// The buffer of the window has changed its size.
    WindowBufferSize,
    /// Any other record.
    Other,
}

/// The text that units of UTF-16 stand for, as `String::from_utf16` of std
/// decodes it; `None` where the units are not well-formed UTF-16.
pub uninterp spec fn utf16_text(units: Seq<u16>) -> Option<Seq<char>>;

/// `String::from_utf16` of std: decodes well-formed UTF-16 into a string and
/// fails on anything else.
#[verifier::external_body]
fn decode_utf16(units: &Vec<u16>) -> (r: Option<String>)
    ensures
        match r {
            Some(text) => utf16_text(units@) == Some(text@),
            None => utf16_text(units@) is None,
        },
{
    match String::from_utf16(units) {
        Ok(text) => Some(text),
        Err(_) => None,
    }
}

/// The units of text of the keys that went down, in the order of the
/// records.
pub open spec fn key_down_units(records: Seq<ConsoleRecord>) -> Seq<u16>
    decreases records.len(),
{
    if records.len() == 0 {
        Seq::empty()
    } else {
        match records.last() {
            ConsoleRecord::KeyDown(unit) => key_down_units(records.drop_last()).push(unit),
            _ => key_down_units(records.drop_last()),
        }
    }
}

/// One resize event for each record of a change of the window buffer.
pub open spec fn resize_events(records: Seq<ConsoleRecord>) -> Seq<Key>
    decreases records.len(),
{
    if records.len() == 0 {
        Seq::empty()
    } else {
        match records.last() {
            ConsoleRecord::WindowBufferSize => resize_events(records.drop_last()).push(
                Key::Resize,
            ),
            _ => resize_events(records.drop_last()),
        }
    }
}

/// The keys of a batch of console records whose key-down units stand for
/// `text`: the resize events first, then the keys that the text decodes to.
pub open spec fn console_keys_of(records: Seq<ConsoleRecord>, text: Seq<char>) -> Seq<Key> {
    resize_events(records) + decode(encode_utf8(text))
}

/// The units of text of the keys that went down.
pub fn collect_key_down_units(records: &[ConsoleRecord]) -> (units: Vec<u16>)
    ensures
        units@ == key_down_units(records@),
{
    let mut units: Vec<u16> = Vec::new();
    let mut i: usize = 0;
    proof {
        assert(records@.take(0) == Seq::<ConsoleRecord>::empty());
    }
    while i < records.len()
        invariant
            i <= records@.len(),
            units@ == key_down_units(records@.take(i as int)),
        decreases records@.len() - i,
    {
        proof {
            assert(records@.take(i + 1).drop_last() == records@.take(i as int));
            assert(records@.take(i + 1).last() == records@[i as int]);
        }
        match records[i] {
            ConsoleRecord::KeyDown(unit) => {
                units.push(unit);
            },
            _ => {},
        }
        i += 1;
    }
    proof {
        assert(records@.take(i as int) == records@);
    }
    units
}

/// The keys of a batch of console records, given the text that its key-down
/// units stand for.
pub fn console_keys(records: &[ConsoleRecord], text: &str) -> (keys: Vec<Key>)
    ensures
        keys@ == console_keys_of(records@, text@),
{
    let mut keys: Vec<Key> = Vec::new();
    let mut i: usize = 0;
    proof {
        assert(records@.take(0) == Seq::<ConsoleRecord>::empty());
    }
    while i < records.len()
        invariant
            i <= records@.len(),
            keys@ == resize_events(records@.take(i as int)),
        decreases records@.len() - i,
    {
        proof {
            assert(records@.take(i + 1).drop_last() == records@.take(i as int));
            assert(records@.take(i + 1).last() == records@[i as int]);
        }
        match records[i] {
            ConsoleRecord::WindowBufferSize => {
                keys.push(Key::Resize);
            },
            _ => {},
        }
        i += 1;
    }
    proof {
        assert(records@.take(i as int) == records@);
    }
    let mut decoded = translate_bytes(text.as_bytes());
    keys.append(&mut decoded);
    keys
}

/// The keys of a batch of console records: the text of the keys that went
/// down is put together from its UTF-16 units and decoded like the input of
/// a terminal. `None` where the units are not well-formed UTF-16.
pub fn translate_records(records: &[ConsoleRecord]) -> (r: Option<Vec<Key>>)
    ensures
        match r {
            Some(keys) => utf16_text(key_down_units(records@)) is Some && keys@
                == console_keys_of(records@, utf16_text(key_down_units(records@))->0),
            None => utf16_text(key_down_units(records@)) is None,
        },
{
    let units = collect_key_down_units(records);
    match decode_utf16(&units) {
        Some(text) => Some(console_keys(records, text.as_str())),
        None => None,
    }
}

/// A character beyond ASCII that is typed or pasted arrives as itself: the
/// bytes of its UTF-8 encoding decode to the one key of that character.
pub proof fn lemma_wide_char_arrives_as_itself(c: char)
    requires
        c as u32 >= 0x80,
    ensures
        decode(encode_utf8(seq![c])) == seq![Key::Char(c)],
{
    let bytes = encode_utf8(seq![c]);
    encode_utf8_first_scalar(seq![c]);
    char_u32_cast(c, decode_first_scalar(bytes));
    assert(seq![c].drop_first() =~= Seq::<char>::empty());
    assert(encode_utf8(Seq::<char>::empty()) =~= Seq::<u8>::empty());
    assert(bytes =~= encode_scalar(c as u32));
    assert(bytes.len() == length_of_first_scalar(bytes));
    assert(bytes[0] >= 0x80) by {
        if bytes[0] < 0x80 {
            assert(decode_first_scalar(bytes) == (bytes[0] & 0x7F) as u32);
            let b = bytes[0];
            assert((b & 0x7F) as u32 <= 0x7F) by (bit_vector);
        }
    }
    lemma_wide_char_is_no_sequence(bytes);
    lemma_decode_token(bytes);
    assert(bytes.skip(bytes.len() as int).len() == 0);
}

} // verus!
