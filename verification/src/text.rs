//! Text as bytes.

use vstd::prelude::*;
use vstd::utf8::*;
use crate::bytes::{ByteClass, all_in, lower_bytes, lowered};

verus! {

/// The UTF-8 bytes of a text.
pub open spec fn utf8(text: Seq<char>) -> Seq<u8> {
    encode_utf8(text)
}

/// Whether every byte is ASCII.
pub open spec fn is_ascii(bytes: Seq<u8>) -> bool {
    forall|i: int| 0 <= i < bytes.len() ==> bytes[i] < 0x80
}

/// The text whose UTF-8 encoding is `bytes`, by `String::from_utf8`: there is one exactly when
/// the bytes are well-formed UTF-8, and encoding it gives the bytes back.
#[verifier::external_body]
pub(crate) fn decode_text(bytes: Vec<u8>) -> (text: Option<String>)
    ensures
        text is Some <==> valid_utf8(bytes@),
        text matches Some(t) ==> utf8(t@) == bytes@,
{
    String::from_utf8(bytes).ok()
}

/// ASCII bytes are well-formed UTF-8.
pub proof fn lemma_ascii_is_utf8(bytes: Seq<u8>)
    requires
        is_ascii(bytes),
    ensures
        valid_utf8(bytes),
    decreases bytes.len(),
{
    broadcast use utf8_byte_ranges_bitwise;
    if bytes.len() > 0 {
        let rest = pop_first_scalar(bytes);
        assert(is_leading_byte_width_1(bytes[0]));
        assert(valid_first_scalar(bytes));
        assert(rest =~= bytes.subrange(1, bytes.len() as int));
        lemma_ascii_is_utf8(rest);
    }
}

/// What stands before and after an ASCII byte of a text is text.
pub proof fn lemma_text_around(bytes: Seq<u8>, i: int)
    requires
        valid_utf8(bytes),
        0 <= i < bytes.len(),
        bytes[i] < 0x80,
    ensures
        valid_utf8(bytes.take(i)),
        valid_utf8(bytes.skip(i + 1)),
{
    is_char_boundary_iff_not_is_continuation_byte(bytes, i);
    valid_utf8_split(bytes, i);
    let tail = bytes.subrange(i, bytes.len() as int);
    assert(bytes.take(i) =~= bytes.subrange(0, i));
    assert(tail[0] == bytes[i]);
    assert(pop_first_scalar(tail) =~= bytes.skip(i + 1));
}

/// A text is determined by its UTF-8 bytes.
pub proof fn lemma_utf8_injective(a: Seq<char>, b: Seq<char>)
    ensures
        utf8(a) == utf8(b) <==> a == b,
{
    encode_utf8_decode_utf8(a);
    encode_utf8_decode_utf8(b);
}

/// The bytes of an ASCII literal are its characters.
pub proof fn lemma_ascii_literal(text: Seq<char>)
    requires
        is_ascii_chars(text),
    ensures
        utf8(text) =~= Seq::new(text.len(), |i: int| text[i] as u8),
{
    is_ascii_chars_encode_utf8(text);
}

/// The text of ASCII bytes.
pub fn ascii_text(bytes: &[u8]) -> (text: String)
    requires
        is_ascii(bytes@),
    ensures
        utf8(text@) == bytes@,
{
    proof {
        lemma_ascii_is_utf8(bytes@);
    }
    match decode_text(vstd::slice::slice_to_vec(bytes)) {
        Some(text) => text,
        None => String::new(),
    }
}

/// Whether two byte strings are equal.
pub fn same_bytes(a: &[u8], b: &[u8]) -> (same: bool)
    ensures
        same == (a@ == b@),
{
    if a.len() != b.len() {
        return false;
    }
    let mut i: usize = 0;
    while i < a.len()
        invariant
            a@.len() == b@.len(),
            i <= a@.len(),
            forall|j: int| 0 <= j < i ==> a@[j] == b@[j],
        decreases a@.len() - i,
    {
        if a[i] != b[i] {
            assert(a@ != b@);
            return false;
        }
        i += 1;
    }
    assert(a@ =~= b@);
    true
}

/// Whether a byte string begins with another one.
pub fn starts_with(s: &[u8], prefix: &[u8]) -> (starts: bool)
    ensures
        starts == prefix@.is_prefix_of(s@),
{
    if s.len() < prefix.len() {
        return false;
    }
    let head: &[u8] = &s[0..prefix.len()];
    assert(prefix@.is_prefix_of(s@) <==> head@ =~= prefix@);
    same_bytes(head, prefix)
}

/// Whether two texts are equal.
pub fn same_text(a: &str, b: &str) -> (same: bool)
    ensures
        same == (a@ == b@),
        same == (utf8(a@) == utf8(b@)),
{
    proof {
        lemma_utf8_injective(a@, b@);
    }
    same_bytes(a.as_bytes(), b.as_bytes())
}

/// Appends the bytes of `tail` to `out`.
pub fn append(out: &mut Vec<u8>, tail: &[u8])
    ensures
        final(out)@ == old(out)@ + tail@,
{
    let mut i: usize = 0;
    while i < tail.len()
        invariant
            i <= tail@.len(),
            out@ == old(out)@ + tail@.subrange(0, i as int),
        decreases tail@.len() - i,
    {
        out.push(tail[i]);
        i += 1;
        assert(tail@.subrange(0, i as int) =~= tail@.subrange(0, i - 1).push(tail@[i - 1]));
    }
    assert(tail@.subrange(0, i as int) =~= tail@);
}

/// The text in lower case.
pub fn lowered_text(s: &[u8]) -> (text: String)
    requires
        is_ascii(s@),
    ensures
        utf8(text@) == lowered(s@),
{
    let lower: Vec<u8> = lower_bytes(s);
    assert(is_ascii(lower@));
    ascii_text(lower.as_slice())
}

/// The text of a token in lower case.
pub fn token_text(bytes: &[u8]) -> (text: String)
    requires
        all_in(bytes@, ByteClass::Token),
    ensures
        utf8(text@) == lowered(bytes@),
{
    assert forall|i: int| 0 <= i < bytes@.len() implies #[trigger] bytes@[i] < 0x80 by {
        assert(ByteClass::Token.has(bytes@[i]));
    }
    lowered_text(bytes)
}

/// The text of a token.
pub fn plain_token(bytes: &[u8]) -> (text: String)
    requires
        all_in(bytes@, ByteClass::Token),
    ensures
        utf8(text@) == bytes@,
{
    assert forall|i: int| 0 <= i < bytes@.len() implies #[trigger] bytes@[i] < 0x80 by {
        assert(ByteClass::Token.has(bytes@[i]));
    }
    ascii_text(bytes)
}

} // verus!
