//! Chunk lines, byte by byte.

use vstd::prelude::*;
use vstd::utf8::valid_utf8;
use crate::bytes::{
    ByteClass, all_in, first_in, first_out, is_token, lemma_first_in, lemma_first_in_unique,
    lemma_first_out, lemma_first_out_unique, lowered,
};
use crate::chunk::{
    Quoting, extension, extensions, is_canonical_extension, lemma_parsed_bounded,
    lemma_segments_accept_alike, parsed_in_segments, quote_end, unescaped, value,
};
use crate::hex::{hexadecimal, lemma_hexadecimal_below, lemma_sixteen_digits_fit};
use crate::text::lemma_ascii_is_utf8;
use crate::types::{ChunkModel, ExtensionModel, Fault};

verus! {

/// Whether a text is at least one visible byte and holds none of the delimiters
/// `"(),/:;<=>?@[\]{}`.
pub open spec fn is_word(s: Seq<u8>) -> bool {
    &&& s.len() >= 1
    &&& forall|i: int|
        0 <= i < s.len() ==> 0x21 <= #[trigger] s[i] <= 0x7e && s[i] != 0x22 && s[i] != 0x28 && s[i]
            != 0x29 && s[i] != 0x2c && s[i] != 0x2f && s[i] != 0x3a && s[i] != 0x3b && s[i] != 0x3c
            && s[i] != 0x3d && s[i] != 0x3e && s[i] != 0x3f && s[i] != 0x40 && s[i] != 0x5b && s[i]
            != 0x5c && s[i] != 0x5d && s[i] != 0x7b && s[i] != 0x7d
}

/// The value of an extension on the wire.
pub enum WireValue {
    Absent,
    Word(Seq<u8>),
    /// A quoted string, byte by byte.
    Quoted(Seq<QuotedByte>),
}

/// A byte of a quoted string, with a backslash before it or without.
pub struct QuotedByte {
    pub escaped: bool,
    pub byte: u8,
}

/// An extension on the wire.
pub struct WireExtension {
    pub name: Seq<u8>,
    pub value: WireValue,
}

/// What a quoted string holds: the bytes without the backslashes before them.
pub open spec fn unquoted(bytes: Seq<QuotedByte>) -> Seq<u8> {
    Seq::new(bytes.len(), |i: int| bytes[i].byte)
}

/// The bytes between the quotes.
pub open spec fn in_quotes(bytes: Seq<QuotedByte>) -> Seq<u8>
    decreases bytes.len(),
{
    if bytes.len() == 0 {
        Seq::empty()
    } else if bytes[0].escaped {
        seq![0x5cu8, bytes[0].byte] + in_quotes(bytes.skip(1))
    } else {
        seq![bytes[0].byte] + in_quotes(bytes.skip(1))
    }
}

/// Whether quotes and backslashes have a backslash before them, and no byte is a control byte.
pub open spec fn is_quoting(bytes: Seq<QuotedByte>) -> bool {
    forall|i: int|
        0 <= i < bytes.len() ==> {
            let b = #[trigger] bytes[i];
            (b.escaped || b.byte != 0x22 && b.byte != 0x5c) && 0x20 <= b.byte && b.byte != 0x7f
        }
}

/// Whether an extension has a name of one to 64 bytes, and a value that is absent, a word, or a
/// quoted string: of printable ASCII bytes where only those are taken, else of any text.
pub open spec fn is_extension(e: WireExtension, quoting: Quoting) -> bool {
    &&& is_word(e.name)
    &&& e.name.len() <= 64
    &&& match e.value {
        WireValue::Absent => true,
        WireValue::Word(word) => is_word(word),
        WireValue::Quoted(bytes) => is_quoting(bytes) && if quoting is PrintableOnly {
            forall|i: int| 0 <= i < bytes.len() ==> (#[trigger] bytes[i]).byte <= 0x7e
        } else {
            valid_utf8(unquoted(bytes))
        },
    }
}

/// The bytes of an extension.
pub open spec fn extension_bytes(e: WireExtension) -> Seq<u8> {
    match e.value {
        WireValue::Absent => e.name,
        WireValue::Word(word) => e.name + seq![0x3du8] + word,
        WireValue::Quoted(text) => e.name + seq![0x3du8, 0x22u8] + in_quotes(text) + seq![0x22u8],
    }
}

/// The bytes of extensions, each behind a semicolon.
pub open spec fn extensions_bytes(list: Seq<WireExtension>) -> Seq<u8>
    decreases list.len(),
{
    if list.len() == 0 {
        Seq::empty()
    } else {
        seq![0x3bu8] + extension_bytes(list[0]) + extensions_bytes(list.skip(1))
    }
}

/// What an extension says.
pub open spec fn extension_said(e: WireExtension) -> ExtensionModel {
    ExtensionModel {
        name: lowered(e.name),
        value: match e.value {
            WireValue::Absent => None,
            WireValue::Word(word) => Some(word),
            WireValue::Quoted(bytes) => Some(unquoted(bytes)),
        },
    }
}

/// What extensions say.
pub open spec fn extensions_said(list: Seq<WireExtension>) -> Seq<ExtensionModel> {
    Seq::new(list.len(), |i: int| extension_said(list[i]))
}

proof fn lemma_word_ends(word: Seq<u8>, tail: Seq<u8>)
    requires
        is_word(word),
        tail.len() == 0 || tail[0] == 0x3b || tail[0] == 0x3d,
    ensures
        first_out(word + tail, ByteClass::Token) == word.len(),
        (word + tail).subrange(0, word.len() as int) == word,
{
    let s = word + tail;
    let n = word.len() as int;
    assert forall|j: int| 0 <= j < n implies ByteClass::Token.has(#[trigger] s[j]) by {
        assert(s[j] == word[j]);
    }
    if tail.len() > 0 {
        assert(s[n] == tail[0]);
    }
    lemma_first_out_unique(s, ByteClass::Token, n);
    assert(s.subrange(0, n) =~= word);
}

proof fn lemma_quotes_end(s: Seq<u8>, i: int, bytes: Seq<QuotedByte>, tail: Seq<u8>)
    requires
        0 <= i <= s.len(),
        s.skip(i) == in_quotes(bytes) + seq![0x22u8] + tail,
        is_quoting(bytes),
    ensures
        quote_end(s, i) == Some(i + in_quotes(bytes).len()),
        unescaped(s, i, i + in_quotes(bytes).len()) == unquoted(bytes),
        forall|j: int|
            i <= j < i + in_quotes(bytes).len() ==> 0x20 <= #[trigger] s[j] && s[j] != 0x7f,
        forall|j: int|
            (forall|k: int| 0 <= k < bytes.len() ==> (#[trigger] bytes[k]).byte <= 0x7e) && i <= j
                < i + in_quotes(bytes).len() ==> #[trigger] s[j] <= 0x7e,
    decreases bytes.len(),
{
    let rest = s.skip(i);
    let m = in_quotes(bytes).len() as int;
    let text = unquoted(bytes);
    assert(rest.len() == s.len() - i);
    if bytes.len() == 0 {
        assert(rest[0] == 0x22);
        assert(s[i] == rest[0]);
        assert(unescaped(s, i, i + m) =~= text);
    } else {
        let later = bytes.skip(1);
        let b = bytes[0];
        let ascii = forall|k: int| 0 <= k < bytes.len() ==> (#[trigger] bytes[k]).byte <= 0x7e;
        assert(ascii ==> forall|k: int|
            0 <= k < later.len() ==> (#[trigger] later[k]).byte <= 0x7e) by {
            if ascii {
                assert forall|k: int| 0 <= k < later.len() implies (#[trigger] later[k]).byte
                    <= 0x7e by {
                    assert(later[k] == bytes[k + 1]);
                }
            }
        }
        assert forall|k: int| 0 <= k < later.len() implies {
            let b = #[trigger] later[k];
            (b.escaped || b.byte != 0x22 && b.byte != 0x5c) && 0x20 <= b.byte && b.byte != 0x7f
        } by {
            assert(later[k] == bytes[k + 1]);
        }
        assert((b.escaped || b.byte != 0x22 && b.byte != 0x5c) && 0x20 <= b.byte && b.byte != 0x7f);
        assert(text =~= seq![b.byte] + unquoted(later));
        if b.escaped {
            assert(rest =~= seq![0x5cu8, b.byte] + (in_quotes(later) + seq![0x22u8] + tail));
            assert(s[i] == rest[0]);
            assert(s[i + 1] == rest[1]);
            assert(s.skip(i + 2) =~= in_quotes(later) + seq![0x22u8] + tail) by {
                assert(s.skip(i + 2) =~= rest.skip(2));
            }
            lemma_quotes_end(s, i + 2, later, tail);
            assert(m == in_quotes(later).len() + 2);
            assert(unescaped(s, i, i + m) == seq![s[i + 1]] + unescaped(s, i + 2, i + m));
        } else {
            assert(rest =~= seq![b.byte] + (in_quotes(later) + seq![0x22u8] + tail));
            assert(s[i] == rest[0]);
            assert(s.skip(i + 1) =~= in_quotes(later) + seq![0x22u8] + tail) by {
                assert(s.skip(i + 1) =~= rest.skip(1));
            }
            lemma_quotes_end(s, i + 1, later, tail);
            assert(m == in_quotes(later).len() + 1);
            assert(unescaped(s, i, i + m) == seq![s[i]] + unescaped(s, i + 1, i + m));
        }
        if ascii {
            assert(b.byte <= 0x7e);
        }
    }
}

proof fn lemma_value_read(e: WireExtension, tail: Seq<u8>, quoting: Quoting)
    requires
        is_extension(e, quoting),
        tail.len() == 0 || tail[0] == 0x3b,
    ensures
        match e.value {
            WireValue::Absent => true,
            WireValue::Word(word) => value(word + tail, quoting) == Ok::<(Seq<u8>, int), Fault>(
                (word, word.len() as int),
            ),
            WireValue::Quoted(bytes) => value(
                seq![0x22u8] + in_quotes(bytes) + seq![0x22u8] + tail,
                quoting,
            ) == Ok::<(Seq<u8>, int), Fault>((unquoted(bytes), in_quotes(bytes).len() as int + 2)),
        },
{
    match e.value {
        WireValue::Absent => {},
        WireValue::Word(word) => {
            lemma_word_ends(word, tail);
            let s = word + tail;
            assert(s[0] == word[0]);
            if tail.len() > 0 {
                assert(s[word.len() as int] == tail[0]);
            }
        },
        WireValue::Quoted(bytes) => {
            let s = seq![0x22u8] + in_quotes(bytes) + seq![0x22u8] + tail;
            let end = 1 + in_quotes(bytes).len() as int;
            assert(s.skip(1) =~= in_quotes(bytes) + seq![0x22u8] + tail);
            lemma_quotes_end(s, 1, bytes, tail);
            if quoting is PrintableOnly {
                let inner = s.subrange(1, end);
                assert(forall|k: int| 0 <= k < bytes.len() ==> (#[trigger] bytes[k]).byte <= 0x7e);
                assert forall|j: int| 0 <= j < inner.len() implies ByteClass::Printable.has(
                    #[trigger] inner[j],
                ) by {
                    assert(inner[j] == s[j + 1]);
                }
            }
            if tail.len() > 0 {
                assert(s[end + 1] == tail[0]);
            }
            assert(s.len() == end + 1 + tail.len());
        },
    }
}

proof fn lemma_extension_read(e: WireExtension, tail: Seq<u8>, quoting: Quoting)
    requires
        is_extension(e, quoting),
        tail.len() == 0 || tail[0] == 0x3b,
    ensures
        extension(extension_bytes(e) + tail, quoting) == Ok::<(ExtensionModel, int), Fault>(
            (extension_said(e), extension_bytes(e).len() as int),
        ),
{
    let s = extension_bytes(e) + tail;
    let n = e.name.len() as int;
    lemma_value_read(e, tail, quoting);
    match e.value {
        WireValue::Absent => {
            lemma_word_ends(e.name, tail);
            if tail.len() > 0 {
                assert(s[n] == tail[0]);
            }
        },
        WireValue::Word(word) => {
            let more = seq![0x3du8] + word + tail;
            assert(s =~= e.name + more);
            lemma_word_ends(e.name, more);
            assert(s[n] == 0x3d);
            assert(s.skip(n + 1) =~= word + tail);
        },
        WireValue::Quoted(bytes) => {
            let more = seq![0x3du8, 0x22u8] + in_quotes(bytes) + seq![0x22u8] + tail;
            assert(s =~= e.name + more);
            lemma_word_ends(e.name, more);
            assert(s[n] == 0x3d);
            assert(s.skip(n + 1) =~= seq![0x22u8] + in_quotes(bytes) + seq![0x22u8] + tail);
        },
    }
}

proof fn lemma_extensions_read(list: Seq<WireExtension>, k: int, quoting: Quoting)
    requires
        0 <= k < list.len() <= 16,
        forall|i: int| 0 <= i < list.len() ==> is_extension(#[trigger] list[i], quoting),
    ensures
        extensions(
            extensions_bytes(list.skip(k)).skip(1),
            extensions_said(list.take(k)),
            quoting,
        ) == Ok::<Seq<ExtensionModel>, Fault>(extensions_said(list)),
    decreases list.len() - k,
{
    let left = list.skip(k);
    let e = list[k];
    assert(left[0] == e);
    assert(left.skip(1) =~= list.skip(k + 1));
    let tail = extensions_bytes(list.skip(k + 1));
    let text = extensions_bytes(left).skip(1);
    let n = extension_bytes(e).len() as int;
    assert(text =~= extension_bytes(e) + tail);
    assert(is_extension(e, quoting));
    let found = extensions_said(list.take(k));
    assert(found.push(extension_said(e)) =~= extensions_said(list.take(k + 1)));
    if k + 1 < list.len() {
        assert(tail[0] == 0x3b);
        lemma_extension_read(e, tail, quoting);
        lemma_extensions_read(list, k + 1, quoting);
        assert(text.skip(n + 1) =~= tail.skip(1));
    } else {
        assert(list.skip(k + 1) =~= Seq::<WireExtension>::empty());
        assert(tail.len() == 0);
        lemma_extension_read(e, tail, quoting);
        assert(list.take(k + 1) =~= list);
    }
}

/// The bytes of extensions are no control bytes.
proof fn lemma_extensions_open(list: Seq<WireExtension>, quoting: Quoting)
    requires
        forall|i: int| 0 <= i < list.len() ==> is_extension(#[trigger] list[i], quoting),
    ensures
        forall|j: int|
            0 <= j < extensions_bytes(list).len() ==> 0x20 <= #[trigger] extensions_bytes(list)[j]
                && extensions_bytes(list)[j] != 0x7f,
    decreases list.len(),
{
    if list.len() > 0 {
        let later = list.skip(1);
        assert forall|i: int| 0 <= i < later.len() implies is_extension(
            #[trigger] later[i],
            quoting,
        ) by {
            assert(later[i] == list[i + 1]);
        }
        lemma_extensions_open(later, quoting);
        let e = list[0];
        assert(is_extension(e, quoting));
        let text = extension_bytes(e);
        assert forall|j: int| 0 <= j < text.len() implies 0x20 <= #[trigger] text[j] && text[j] != 0x7f by {
            let n = e.name.len() as int;
            if j < n {
                assert(text[j] == e.name[j]);
            } else {
                match e.value {
                    WireValue::Absent => {},
                    WireValue::Word(word) => {
                        if j > n {
                            assert(text[j] == word[j - n - 1]);
                        }
                    },
                    WireValue::Quoted(bytes) => {
                        let quoted = in_quotes(bytes) + seq![0x22u8];
                        let none = Seq::<u8>::empty();
                        assert(quoted.skip(0) =~= in_quotes(bytes) + seq![0x22u8] + none);
                        lemma_quotes_end(quoted, 0, bytes, none);
                        if j >= n + 2 {
                            assert(text[j] == quoted[j - n - 2]);
                        }
                    },
                }
            }
        }
        let whole = extensions_bytes(list);
        assert forall|j: int| 0 <= j < whole.len() implies 0x20 <= #[trigger] whole[j] && whole[j] != 0x7f by {
            if 1 <= j < 1 + text.len() {
                assert(whole[j] == text[j - 1]);
            } else if j >= 1 + text.len() {
                assert(whole[j] == extensions_bytes(later)[j - 1 - text.len()]);
            }
        }
    }
}

/// Whether a text is one to sixteen hexadecimal digits.
pub open spec fn is_size(digits: Seq<u8>) -> bool {
    &&& 1 <= digits.len() <= 16
    &&& forall|i: int|
        0 <= i < digits.len() ==> 0x30 <= #[trigger] digits[i] <= 0x39 || 0x41 <= digits[i] <= 0x46
            || 0x61 <= digits[i] <= 0x66
}

/// A chunk line is hexadecimal digits for a size of at most 16777216, and up to 16 extensions,
/// in up to 1024 bytes: it says the size, and of each extension the name in lower case and the
/// value, in their order. The line ends with its line ending and nothing after it matters. That
/// holds in whatever way the line is parsed.
pub proof fn lemma_chunk_line_is_read(
    digits: Seq<u8>,
    list: Seq<WireExtension>,
    rest: Seq<u8>,
    quoting: Quoting,
)
    requires
        is_size(digits),
        list.len() <= 16,
        forall|i: int| 0 <= i < list.len() ==> is_extension(#[trigger] list[i], quoting),
        digits.len() + extensions_bytes(list).len() <= 1024,
    ensures
        ({
            let line = digits + extensions_bytes(list);
            let input = line + seq![0x0du8, 0x0au8] + rest;
            let read = Ok::<ChunkModel, Fault>(
                ChunkModel {
                    size: hexadecimal(digits) as int,
                    extensions: extensions_said(list),
                    bytes_consumed: line.len() as int + 2,
                },
            );
            &&& hexadecimal(digits) <= 16777216 ==> crate::chunk::parsed(input, quoting) == read
                && parsed_in_segments(input) == read
            &&& hexadecimal(digits) > 16777216 ==> (crate::chunk::parsed(
                input,
                quoting,
            ) matches Err(Fault::LimitExceeded { limit, max, .. }) && limit == "chunk_size"@ && max
                == 16777216) && parsed_in_segments(input) is Err
        }),
{
    let line = digits + extensions_bytes(list);
    let input = line + seq![0x0du8, 0x0au8] + rest;
    lemma_chunk_line_found(digits, list, rest, quoting);
    assert forall|i: int| 0 <= i < list.len() implies is_extension(
        #[trigger] list[i],
        Quoting::TextFirst,
    ) by {
        assert(is_extension(list[i], quoting));
        if let WireValue::Quoted(bytes) = list[i].value {
            if quoting is PrintableOnly {
                let text = unquoted(bytes);
                assert forall|k: int| 0 <= k < text.len() implies text[k] < 0x80 by {
                    assert(bytes[k].byte <= 0x7e);
                }
                lemma_ascii_is_utf8(text);
            }
        }
    }
    lemma_chunk_line_found(digits, list, rest, Quoting::TextFirst);
    lemma_segments_accept_alike(input);
}

proof fn lemma_chunk_line_found(
    digits: Seq<u8>,
    list: Seq<WireExtension>,
    rest: Seq<u8>,
    quoting: Quoting,
)
    requires
        is_size(digits),
        list.len() <= 16,
        forall|i: int| 0 <= i < list.len() ==> is_extension(#[trigger] list[i], quoting),
        digits.len() + extensions_bytes(list).len() <= 1024,
    ensures
        ({
            let line = digits + extensions_bytes(list);
            let input = line + seq![0x0du8, 0x0au8] + rest;
            let read = Ok::<ChunkModel, Fault>(
                ChunkModel {
                    size: hexadecimal(digits) as int,
                    extensions: extensions_said(list),
                    bytes_consumed: line.len() as int + 2,
                },
            );
            &&& hexadecimal(digits) <= 16777216 ==> crate::chunk::parsed(input, quoting) == read
            &&& hexadecimal(digits) > 16777216 ==> (crate::chunk::parsed(
                input,
                quoting,
            ) matches Err(Fault::LimitExceeded { limit, max, .. }) && limit == "chunk_size"@ && max
                == 16777216)
        }),
{
    let line = digits + extensions_bytes(list);
    let input = line + seq![0x0du8, 0x0au8] + rest;
    let n = line.len() as int;
    let d = digits.len() as int;
    lemma_extensions_open(list, quoting);
    assert forall|j: int| 0 <= j < n implies !ByteClass::Control.has(#[trigger] input[j]) by {
        assert(input[j] == line[j]);
        if j < d {
            assert(line[j] == digits[j]);
        } else {
            assert(line[j] == extensions_bytes(list)[j - d]);
        }
    }
    assert(input[n] == 0x0d);
    assert(input[n + 1] == 0x0a);
    lemma_first_in_unique(input, ByteClass::Control, n);
    assert(input.subrange(0, n) =~= line);
    let semicolon = ByteClass::Only(';' as u8);
    assert forall|j: int| 0 <= j < d implies !semicolon.has(#[trigger] line[j]) by {
        assert(line[j] == digits[j]);
    }
    if list.len() > 0 {
        assert(line[d] == extensions_bytes(list)[0]);
    }
    lemma_first_in_unique(line, semicolon, d);
    assert(line.subrange(0, d) =~= digits);
    assert(all_in(digits, ByteClass::Hex)) by {
        assert forall|j: int| 0 <= j < d implies ByteClass::Hex.has(#[trigger] digits[j]) by {}
    }
    lemma_hexadecimal_below(digits);
    lemma_sixteen_digits_fit(digits.len());
    if list.len() > 0 {
        assert(list.skip(0) =~= list);
        assert(list.take(0) =~= Seq::<WireExtension>::empty());
        assert(extensions_said(list.take(0)) =~= Seq::<ExtensionModel>::empty());
        lemma_extensions_read(list, 0, quoting);
        assert(line.skip(d + 1) =~= extensions_bytes(list).skip(1));
    } else {
        assert(extensions_said(list) =~= Seq::<ExtensionModel>::empty());
    }
}

/// What an accepted chunk line looks like: one to sixteen hexadecimal digits that stand for the
/// size, at most 16777216, and then the line ending, or a semicolon and extensions; no control
/// byte before the line ending, which comes within 1024 bytes.
pub proof fn lemma_chunk_line_parts(input: Seq<u8>, quoting: Quoting)
    ensures
        crate::chunk::parsed(input, quoting) matches Ok(chunk) ==> {
            let n = chunk.bytes_consumed - 2;
            &&& 1 <= n <= 1024
            &&& n + 2 <= input.len()
            &&& input[n] == 0x0d
            &&& input[n + 1] == 0x0a
            &&& forall|j: int| 0 <= j < n ==> 0x20 <= #[trigger] input[j] && input[j] != 0x7f
            &&& chunk.size <= 16777216
            &&& exists|d: int|
                {
                    &&& 1 <= d <= 16
                    &&& d <= n
                    &&& is_size(#[trigger] input.take(d))
                    &&& hexadecimal(input.take(d)) == chunk.size
                    &&& d == n && chunk.extensions.len() == 0 || d < n && input[d] == 0x3b
                        && 1 <= chunk.extensions.len() <= 16
                }
            &&& forall|i: int|
                0 <= i < chunk.extensions.len() ==> is_word((#[trigger] chunk.extensions[i]).name)
                    && chunk.extensions[i].name.len() <= 64
        },
        parsed_in_segments(input) is Ok ==> parsed_in_segments(input) == crate::chunk::parsed(
            input,
            Quoting::TextFirst,
        ),
{
    lemma_segments_accept_alike(input);
    if crate::chunk::parsed(input, quoting) is Ok {
        let chunk = crate::chunk::parsed(input, quoting)->Ok_0;
        lemma_parsed_bounded(input, quoting);
        lemma_first_in(input, ByteClass::Control);
        let n = first_in(input, ByteClass::Control);
        assert forall|j: int| 0 <= j < n implies 0x20 <= #[trigger] input[j] && input[j] != 0x7f by {
            assert(!ByteClass::Control.has(input[j]));
        }
        let line = input.subrange(0, n);
        let semicolon = ByteClass::Only(';' as u8);
        lemma_first_in(line, semicolon);
        let d = first_in(line, semicolon);
        let digits = line.subrange(0, d);
        assert(digits =~= input.take(d));
        lemma_hexadecimal_below(digits);
        lemma_sixteen_digits_fit(digits.len());
        assert(is_size(digits)) by {
            assert forall|i: int| 0 <= i < digits.len() implies 0x30 <= #[trigger] digits[i]
                <= 0x39 || 0x41 <= digits[i] <= 0x46 || 0x61 <= digits[i] <= 0x66 by {
                assert(ByteClass::Hex.has(digits[i]));
            }
        }
        if d < n {
            assert(line[d] == input[d]);
            lemma_some_extension(line.skip(d + 1), Seq::empty(), quoting);
        }
        assert(hexadecimal(input.take(d)) == chunk.size);
        assert forall|i: int| 0 <= i < chunk.extensions.len() implies is_word(
            (#[trigger] chunk.extensions[i]).name,
        ) && chunk.extensions[i].name.len() <= 64 by {
            let name = chunk.extensions[i].name;
            assert(is_canonical_extension(chunk.extensions[i]));
            assert forall|j: int| 0 <= j < name.len() implies ByteClass::Token.has(
                #[trigger] name[j],
            ) by {}
        }
    }
}

proof fn lemma_some_extension(text: Seq<u8>, found: Seq<ExtensionModel>, quoting: Quoting)
    ensures
        extensions(text, found, quoting) matches Ok(all) ==> all.len() > found.len(),
    decreases text.len(),
{
    if found.len() != 16 {
        if let Ok((next, used)) = extension(text, quoting) {
            if 0 <= used < text.len() {
                lemma_some_extension(text.skip(used + 1), found.push(next), quoting);
            }
        }
    }
}

/// A chunk line whose size is not one to sixteen hexadecimal digits is refused for it, whatever
/// its extensions are.
pub proof fn lemma_size_is_refused(size: Seq<u8>, more: Seq<u8>, rest: Seq<u8>, quoting: Quoting)
    requires
        !is_size(size),
        forall|i: int|
            0 <= i < size.len() ==> 0x20 <= #[trigger] size[i] && size[i] != 0x7f && size[i] != 0x3b,
        forall|i: int| 0 <= i < more.len() ==> 0x20 <= #[trigger] more[i] && more[i] != 0x7f,
        more.len() > 0 ==> more[0] == 0x3b,
        size.len() + more.len() <= 1024,
    ensures
        ({
            let input = size + more + seq![0x0du8, 0x0au8] + rest;
            let refused = Err::<ChunkModel, Fault>(Fault::InvalidChunk { reason: "invalid_size"@ });
            crate::chunk::parsed(input, quoting) == refused && parsed_in_segments(input) == refused
        }),
{
    let line = size + more;
    let input = line + seq![0x0du8, 0x0au8] + rest;
    let n = line.len() as int;
    let d = size.len() as int;
    assert forall|j: int| 0 <= j < n implies !ByteClass::Control.has(#[trigger] input[j]) by {
        assert(input[j] == line[j]);
        if j < d {
            assert(line[j] == size[j]);
        } else {
            assert(line[j] == more[j - d]);
        }
    }
    assert(input[n] == 0x0d);
    assert(input[n + 1] == 0x0a);
    lemma_first_in_unique(input, ByteClass::Control, n);
    assert(input.subrange(0, n) =~= line);
    let semicolon = ByteClass::Only(';' as u8);
    assert forall|j: int| 0 <= j < d implies !semicolon.has(#[trigger] line[j]) by {
        assert(line[j] == size[j]);
    }
    if more.len() > 0 {
        assert(line[d] == more[0]);
    }
    lemma_first_in_unique(line, semicolon, d);
    assert(line.subrange(0, d) =~= size);
    if 1 <= size.len() <= 16 && all_in(size, ByteClass::Hex) {
        assert forall|i: int| 0 <= i < size.len() implies 0x30 <= #[trigger] size[i] <= 0x39 || 0x41
            <= size[i] <= 0x46 || 0x61 <= size[i] <= 0x66 by {
            assert(ByteClass::Hex.has(size[i]));
        }
        assert(is_size(size));
    }
}

/// A chunk line that does not end: it is incomplete while it may go on, too long after 1024
/// bytes, and refused at the first control byte that is not the CR LF of its end.
pub proof fn lemma_chunk_line_not_ended(input: Seq<u8>, n: int, quoting: Quoting)
    requires
        0 <= n <= input.len(),
        forall|i: int| 0 <= i < n ==> 0x20 <= #[trigger] input[i] && input[i] != 0x7f,
        n < input.len() ==> input[n] < 0x20 || input[n] == 0x7f,
        !(n + 1 < input.len() && input[n] == 0x0d && input[n + 1] == 0x0a) || n > 1024,
    ensures
        ({
            let refused = Err::<ChunkModel, Fault>(
                if n > 1024 {
                    Fault::LimitExceeded { limit: "chunk_line_bytes"@, max: 1024, actual: 1025 }
                } else if n == input.len() {
                    Fault::Incomplete
                } else {
                    Fault::InvalidChunk { reason: "invalid_line_ending_or_control"@ }
                },
            );
            crate::chunk::parsed(input, quoting) == refused && parsed_in_segments(input) == refused
        }),
{
    assert forall|j: int| 0 <= j < n implies !ByteClass::Control.has(#[trigger] input[j]) by {}
    lemma_first_in_unique(input, ByteClass::Control, n);
}

proof fn lemma_extensions_reach(
    list: Seq<WireExtension>,
    k: int,
    more: Seq<u8>,
    quoting: Quoting,
)
    requires
        0 <= k < list.len() <= 16,
        forall|i: int| 0 <= i < list.len() ==> is_extension(#[trigger] list[i], quoting),
    ensures
        extensions(
            extensions_bytes(list.skip(k)).skip(1) + (seq![0x3bu8] + more),
            extensions_said(list.take(k)),
            quoting,
        ) == extensions(more, extensions_said(list), quoting),
    decreases list.len() - k,
{
    let left = list.skip(k);
    let e = list[k];
    assert(left[0] == e);
    assert(left.skip(1) =~= list.skip(k + 1));
    let tail = extensions_bytes(list.skip(k + 1)) + (seq![0x3bu8] + more);
    let text = extensions_bytes(left).skip(1) + (seq![0x3bu8] + more);
    let n = extension_bytes(e).len() as int;
    assert(text =~= extension_bytes(e) + tail);
    assert(is_extension(e, quoting));
    let found = extensions_said(list.take(k));
    assert(found.push(extension_said(e)) =~= extensions_said(list.take(k + 1)));
    if k + 1 < list.len() {
        assert(tail[0] == 0x3b);
        lemma_extension_read(e, tail, quoting);
        lemma_extensions_reach(list, k + 1, more, quoting);
        assert(text.skip(n + 1) =~= extensions_bytes(list.skip(k + 1)).skip(1) + (seq![0x3bu8]
            + more));
    } else {
        assert(list.skip(k + 1) =~= Seq::<WireExtension>::empty());
        assert(extensions_bytes(list.skip(k + 1)).len() == 0);
        assert(tail =~= seq![0x3bu8] + more);
        lemma_extension_read(e, tail, quoting);
        assert(list.take(k + 1) =~= list);
        assert(text.skip(n + 1) =~= more);
    }
}

/// The first extension with something wrong in it is what the refusal of a chunk line tells of: it
/// has no name or one of over 64 bytes, its name is not followed by an equals sign or its end, its
/// value is neither a word nor quoted, or its quotes do not end. A seventeenth extension is one
/// too many.
pub proof fn lemma_extension_is_refused(
    digits: Seq<u8>,
    list: Seq<WireExtension>,
    more: Seq<u8>,
    name: Seq<u8>,
    quoting: Quoting,
)
    requires
        list.len() <= 16,
        forall|i: int| 0 <= i < list.len() ==> is_extension(#[trigger] list[i], quoting),
        is_size(digits),
        hexadecimal(digits) <= 16777216,
        digits.len() + extensions_bytes(list).len() + 1 + more.len() <= 1024,
        forall|i: int| 0 <= i < more.len() ==> 0x20 <= #[trigger] more[i] && more[i] != 0x7f,
    ensures
        ({
            let line = digits + extensions_bytes(list) + (seq![0x3bu8] + more);
            let read = crate::chunk::parsed(line + seq![0x0du8, 0x0au8], quoting);
            let told = |reason: Seq<char>|
                Err::<ChunkModel, Fault>(Fault::InvalidChunk { reason });
            &&& list.len() == 16 ==> read == Err::<ChunkModel, Fault>(
                Fault::LimitExceeded { limit: "chunk_extensions"@, max: 16, actual: 17 },
            )
            &&& list.len() < 16 && (more.len() == 0 || !is_word(more.take(1))) ==> read == told(
                "invalid_extension_name"@,
            )
            &&& list.len() < 16 && is_word(name) && name.len() > 64 && name.is_prefix_of(more)
                ==> read == told("invalid_extension_name"@)
            &&& list.len() < 16 && is_word(name) && name.len() <= 64 && name.is_prefix_of(more)
                && more.len() > name.len() && more[name.len() as int] != 0x3d
                && more[name.len() as int] != 0x3b && !is_word(
                seq![more[name.len() as int]],
            ) ==> read == told("invalid_extension_name"@)
            &&& list.len() < 16 && is_word(name) && name.len() <= 64 && (more == name + seq![0x3du8]
                || (more.len() > name.len() + 1 && more.take(name.len() as int + 1) == name + seq![
                0x3du8,
            ] && more[name.len() as int + 1] != 0x22 && !is_word(
                seq![more[name.len() as int + 1]],
            ))) ==> read == told("invalid_extension_value"@)
            &&& list.len() < 16 && is_word(name) && name.len() <= 64 && name.len() + 2 <= more.len()
                && more.take(name.len() as int + 2) == name + seq![0x3du8, 0x22u8] && (forall|i: int|
                name.len() + 2 <= i < more.len() ==> #[trigger] more[i] != 0x22) ==> read == told(
                "invalid_quoted_string"@,
            )
        }),
{
    let line = digits + extensions_bytes(list) + (seq![0x3bu8] + more);
    let input = line + seq![0x0du8, 0x0au8];
    lemma_extensions_at(digits, list, more, quoting);
    let n = name.len() as int;
    lemma_first_out(more, ByteClass::Token);
    let end = first_out(more, ByteClass::Token);
    assert forall|b: u8| #[trigger] is_word(seq![b]) == is_token(b) by {
        if is_word(seq![b]) {
            assert(seq![b][0] == b);
        }
        if is_token(b) {
            assert forall|i: int| 0 <= i < seq![b].len() implies #[trigger] seq![b][i] == b by {}
        }
    }
    if more.len() > 0 {
        assert(more.take(1) =~= seq![more[0]]);
        if !is_word(more.take(1)) {
            assert(!ByteClass::Token.has(more[0]));
            lemma_first_out_unique(more, ByteClass::Token, 0);
        }
    }
    if is_word(name) && n <= more.len() && more.take(n) == name {
        assert forall|j: int| 0 <= j < n implies ByteClass::Token.has(#[trigger] more[j]) by {
            assert(more.take(n)[j] == name[j]);
        }
        if end < n {
            assert(!ByteClass::Token.has(more[end]));
        }
        if n < more.len() && !is_token(more[n]) {
            lemma_first_out_unique(more, ByteClass::Token, n);
        }
        if n < more.len() {
            assert(is_word(seq![more[n]]) == is_token(more[n]));
        }
    }
    if name.is_prefix_of(more) {
        assert(more.take(n) =~= name);
    }
    let rest = more.skip(n + 1);
    if more == name + seq![0x3du8] {
        assert(more.take(n) =~= name);
        assert(more[n] == 0x3d);
        assert(rest.len() == 0);
        lemma_first_out_unique(rest, ByteClass::Token, 0);
    }
    if n + 1 < more.len() && more.take(n + 1) == name + seq![0x3du8] {
        assert(more.take(n) =~= name) by {
            assert forall|j: int| 0 <= j < n implies more.take(n)[j] == name[j] by {
                assert(more.take(n + 1)[j] == more[j]);
            }
        }
        assert(more.take(n + 1)[n] == 0x3d);
        assert(rest[0] == more[n + 1]);
        assert(is_word(seq![more[n + 1]]) == is_token(more[n + 1]));
        if !is_token(rest[0]) {
            lemma_first_out_unique(rest, ByteClass::Token, 0);
        }
    }
    if n + 2 <= more.len() && more.take(n + 2) == name + seq![0x3du8, 0x22u8] && (forall|i: int|
        n + 2 <= i < more.len() ==> #[trigger] more[i] != 0x22) {
        assert(more.take(n) =~= name) by {
            assert forall|j: int| 0 <= j < n implies more.take(n)[j] == name[j] by {
                assert(more.take(n + 2)[j] == more[j]);
            }
        }
        assert(more.take(n + 2)[n] == 0x3d);
        assert(more.take(n + 2)[n + 1] == 0x22);
        assert(rest[0] == 0x22);
        assert forall|j: int| 1 <= j < rest.len() implies #[trigger] rest[j] != 0x22 by {
            assert(rest[j] == more[n + 1 + j]);
        }
        lemma_never_ends(rest, 1);
    }
}

proof fn lemma_never_ends(text: Seq<u8>, i: int)
    requires
        1 <= i,
        forall|j: int| 1 <= j < text.len() ==> #[trigger] text[j] != 0x22,
    ensures
        quote_end(text, i) is None,
    decreases text.len() + 1 - i,
{
    if i < text.len() {
        assert(text[i] != 0x22);
        if text[i] == '\\' as u8 {
            lemma_never_ends(text, i + 2);
        } else {
            lemma_never_ends(text, i + 1);
        }
    }
}

proof fn lemma_extensions_at(
    digits: Seq<u8>,
    list: Seq<WireExtension>,
    more: Seq<u8>,
    quoting: Quoting,
)
    requires
        list.len() <= 16,
        forall|i: int| 0 <= i < list.len() ==> is_extension(#[trigger] list[i], quoting),
        is_size(digits),
        hexadecimal(digits) <= 16777216,
        digits.len() + extensions_bytes(list).len() + 1 + more.len() <= 1024,
        forall|i: int| 0 <= i < more.len() ==> 0x20 <= #[trigger] more[i] && more[i] != 0x7f,
    ensures
        ({
            let line = digits + extensions_bytes(list) + (seq![0x3bu8] + more);
            extensions(more, extensions_said(list), quoting) matches Err(fault)
                ==> crate::chunk::parsed(line + seq![0x0du8, 0x0au8], quoting) == Err::<
                ChunkModel,
                Fault,
            >(fault)
        }),
{
    let bytes = extensions_bytes(list);
    let line = digits + bytes + (seq![0x3bu8] + more);
    let input = line + seq![0x0du8, 0x0au8];
    let n = line.len() as int;
    let d = digits.len() as int;
    lemma_extensions_open(list, quoting);
    assert forall|j: int| 0 <= j < n implies !ByteClass::Control.has(#[trigger] input[j]) by {
        assert(input[j] == line[j]);
        if j < d {
            assert(line[j] == digits[j]);
        } else if j < d + bytes.len() {
            assert(line[j] == bytes[j - d]);
        } else if j > d + bytes.len() {
            assert(line[j] == more[j - d - bytes.len() - 1]);
        }
    }
    assert(input[n] == 0x0d);
    assert(input[n + 1] == 0x0a);
    lemma_first_in_unique(input, ByteClass::Control, n);
    assert(input.subrange(0, n) =~= line);
    let semicolon = ByteClass::Only(';' as u8);
    assert forall|j: int| 0 <= j < d implies !semicolon.has(#[trigger] line[j]) by {
        assert(line[j] == digits[j]);
    }
    if list.len() > 0 {
        assert(line[d] == bytes[0]);
    }
    assert(line[d] == 0x3b);
    lemma_first_in_unique(line, semicolon, d);
    assert(line.subrange(0, d) =~= digits);
    assert(all_in(digits, ByteClass::Hex)) by {
        assert forall|j: int| 0 <= j < d implies ByteClass::Hex.has(#[trigger] digits[j]) by {}
    }
    lemma_hexadecimal_below(digits);
    lemma_sixteen_digits_fit(digits.len());
    if list.len() > 0 {
        assert(list.skip(0) =~= list);
        assert(list.take(0) =~= Seq::<WireExtension>::empty());
        assert(extensions_said(list.take(0)) =~= Seq::<ExtensionModel>::empty());
        lemma_extensions_reach(list, 0, more, quoting);
        assert(line.skip(d + 1) =~= bytes.skip(1) + (seq![0x3bu8] + more));
    } else {
        assert(extensions_said(list) =~= Seq::<ExtensionModel>::empty());
        assert(line.skip(d + 1) =~= more);
    }
}

} // verus!
