//! Parsing the line that begins a chunk.

use vstd::prelude::*;
use vstd::utf8::valid_utf8;
use crate::bytes::{
    ByteClass, all_in, any_in, first_from, first_in, first_out, lemma_first_from,
    lemma_first_from_unique, lemma_first_in, lemma_first_in_unique, lemma_first_out,
    lemma_first_out_unique, lowered,
};
use crate::decimal::clamped;
use crate::hex::hexadecimal;
use crate::text::{is_ascii, lemma_ascii_is_utf8};
use crate::types::{
    ChunkExtension, ChunkModel, ExtensionModel, Fault, Result, Verdict, extensions_of,
};

verus! {

pub const LINE_MAX: usize = 1_024;

pub const SIZE_MAX: u64 = 16_777_216;

pub const EXTENSION_MAX: usize = 16;

pub const EXTENSION_NAME_MAX: usize = 64;

pub open spec fn chunk_fault(reason: Seq<char>) -> Fault {
    Fault::InvalidChunk { reason }
}

/// Where the line ends: at the first control byte, which has to begin a line ending.
pub open spec fn framed(input: Seq<u8>) -> Verdict<int> {
    let end = first_in(input, ByteClass::Control);
    if end > LINE_MAX {
        Err(
            Fault::LimitExceeded {
                limit: "chunk_line_bytes"@,
                max: LINE_MAX as int,
                actual: LINE_MAX + 1,
            },
        )
    } else if end >= input.len() {
        Err(Fault::Incomplete)
    } else if input[end] == '\r' as u8 && end + 1 < input.len() && input[end + 1] == '\n' as u8 {
        Ok(end)
    } else {
        Err(chunk_fault("invalid_line_ending_or_control"@))
    }
}

/// The size of a chunk. What a size that is too large is reported as depends on whether it is cut
/// down to a machine size or held at the greatest one.
pub open spec fn sized(text: Seq<u8>, cut: bool) -> Verdict<u64> {
    let size = hexadecimal(text) as u64;
    if !(1 <= text.len() <= 16) || !all_in(text, ByteClass::Hex) {
        Err(chunk_fault("invalid_size"@))
    } else if size > SIZE_MAX {
        Err(
            Fault::LimitExceeded {
                limit: "chunk_size"@,
                max: SIZE_MAX as int,
                actual: if cut {
                    (size as usize) as int
                } else {
                    clamped(size as int)
                },
            },
        )
    } else {
        Ok(size)
    }
}

/// What a quoted string may hold, and when what follows it is looked at.
pub enum Quoting {
    /// The string has to be text, which is seen before what follows it.
    TextFirst,
    /// The string has to be text, which is seen after what follows it.
    EndFirst,
    /// The string may hold only printable ASCII bytes.
    PrintableOnly,
}

/// The index of the quote that ends a quoted string whose contents have been read up to `i`.
pub open spec fn quote_end(text: Seq<u8>, i: int) -> Option<int>
    decreases text.len() + 1 - i,
{
    if i >= text.len() {
        None
    } else if text[i] == '\\' as u8 {
        quote_end(text, i + 2)
    } else if text[i] == '"' as u8 {
        Some(i)
    } else {
        quote_end(text, i + 1)
    }
}

/// The contents of a quoted string between `i` and `end`, each escaped byte for itself.
pub open spec fn unescaped(text: Seq<u8>, i: int, end: int) -> Seq<u8>
    decreases end + 1 - i,
{
    if i >= end {
        Seq::empty()
    } else if text[i] == '\\' as u8 {
        seq![text[i + 1]] + unescaped(text, i + 2, end)
    } else {
        seq![text[i]] + unescaped(text, i + 1, end)
    }
}

/// Whether the contents of a quoted string that ends at `end` are such as it may hold.
pub open spec fn quotable(text: Seq<u8>, end: int, quoting: Quoting) -> bool {
    if quoting is PrintableOnly {
        all_in(text.subrange(1, end), ByteClass::Printable)
    } else {
        valid_utf8(unescaped(text, 1, end))
    }
}

/// Whether something other than another extension follows what ends before `at`.
pub open spec fn trails(text: Seq<u8>, at: int) -> bool {
    at < text.len() && text[at] != ';' as u8
}

/// The value at the start of a text, and how long it is: a token, or a quoted string.
pub open spec fn value(text: Seq<u8>, quoting: Quoting) -> Verdict<(Seq<u8>, int)> {
    if text.len() > 0 && text[0] == '"' as u8 {
        match quote_end(text, 1) {
            None => Err(chunk_fault("invalid_quoted_string"@)),
            Some(end) => if quoting is EndFirst && trails(text, end + 1) {
                Err(chunk_fault("invalid_extension_value"@))
            } else if !quotable(text, end, quoting) {
                Err(chunk_fault("invalid_quoted_string"@))
            } else if trails(text, end + 1) {
                Err(chunk_fault("invalid_extension_value"@))
            } else {
                Ok((unescaped(text, 1, end), end + 1))
            },
        }
    } else {
        let end = first_out(text, ByteClass::Token);
        if end == 0 || trails(text, end) {
            Err(chunk_fault("invalid_extension_value"@))
        } else {
            Ok((text.subrange(0, end), end))
        }
    }
}

/// The extension at the start of a text, and how long it is.
pub open spec fn extension(text: Seq<u8>, quoting: Quoting) -> Verdict<(ExtensionModel, int)> {
    let end = first_out(text, ByteClass::Token);
    let name = lowered(text.subrange(0, end));
    if !(1 <= end <= EXTENSION_NAME_MAX) {
        Err(chunk_fault("invalid_extension_name"@))
    } else if !trails(text, end) {
        Ok((ExtensionModel { name, value: None }, end))
    } else if text[end] != '=' as u8 {
        Err(chunk_fault("invalid_extension_name"@))
    } else {
        match value(text.skip(end + 1), quoting) {
            Ok((value, used)) => Ok(
                (ExtensionModel { name, value: Some(value) }, end + 1 + used),
            ),
            Err(fault) => Err(fault),
        }
    }
}

pub open spec fn too_many_extensions() -> Fault {
    Fault::LimitExceeded {
        limit: "chunk_extensions"@,
        max: EXTENSION_MAX as int,
        actual: EXTENSION_MAX + 1,
    }
}

/// The extensions of a text that begins after a semicolon, after those that have been read.
pub open spec fn extensions(
    text: Seq<u8>,
    found: Seq<ExtensionModel>,
    quoting: Quoting,
) -> Verdict<Seq<ExtensionModel>>
    decreases text.len(),
{
    if found.len() == EXTENSION_MAX {
        Err(too_many_extensions())
    } else {
        match extension(text, quoting) {
            Err(fault) => Err(fault),
            Ok((next, used)) => if 0 <= used < text.len() {
                extensions(text.skip(used + 1), found.push(next), quoting)
            } else {
                Ok(found.push(next))
            },
        }
    }
}

/// The extensions of a line, which follow the semicolon at `size_end` where there is one.
pub open spec fn line_extensions(
    line: Seq<u8>,
    size_end: int,
    quoting: Quoting,
) -> Verdict<Seq<ExtensionModel>> {
    if size_end < line.len() {
        extensions(line.skip(size_end + 1), Seq::empty(), quoting)
    } else {
        Ok(Seq::empty())
    }
}

/// The chunk of a line, given how its extensions came out.
pub open spec fn chunk_of(
    line: Seq<u8>,
    listed: Verdict<Seq<ExtensionModel>>,
    cut: bool,
) -> Verdict<ChunkModel> {
    let size_end = first_in(line, ByteClass::Only(';' as u8));
    match sized(line.subrange(0, size_end), cut) {
        Err(fault) => Err(fault),
        Ok(size) => match listed {
            Err(fault) => Err(fault),
            Ok(extensions) => Ok(
                ChunkModel {
                    size: size as int,
                    extensions,
                    bytes_consumed: line.len() as int + 2,
                },
            ),
        },
    }
}

/// The chunk whose line is at the start of the input.
pub open spec fn parsed(input: Seq<u8>, quoting: Quoting) -> Verdict<ChunkModel> {
    match framed(input) {
        Err(fault) => Err(fault),
        Ok(end) => {
            let line = input.subrange(0, end);
            let size_end = first_in(line, ByteClass::Only(';' as u8));
            chunk_of(line, line_extensions(line, size_end, quoting), quoting is PrintableOnly)
        },
    }
}

/// Where the segment at the start of a text ends: at the first semicolon, those of a quoted value
/// aside.
pub open spec fn segment_end(text: Seq<u8>) -> int {
    let end = first_out(text, ByteClass::Token);
    let semicolon = ByteClass::Only(';' as u8);
    if 1 <= end <= EXTENSION_NAME_MAX && end + 1 < text.len() && text[end] == '=' as u8 && text[end
        + 1] == '"' as u8 {
        match quote_end(text, end + 2) {
            Some(quote) => first_from(text, semicolon, quote + 1),
            None => text.len() as int,
        }
    } else {
        first_from(text, semicolon, 0)
    }
}

/// How many segments a text has.
pub open spec fn segment_count(text: Seq<u8>) -> nat
    decreases text.len(),
{
    let end = segment_end(text);
    if 0 <= end < text.len() {
        1 + segment_count(text.skip(end + 1))
    } else {
        1
    }
}

/// The extensions of a line, where the line is cut into segments before any is looked at.
pub open spec fn segmented_extensions(line: Seq<u8>, size_end: int) -> Verdict<
    Seq<ExtensionModel>,
> {
    if size_end < line.len() && segment_count(line.skip(size_end + 1)) > EXTENSION_MAX {
        Err(too_many_extensions())
    } else {
        line_extensions(line, size_end, Quoting::EndFirst)
    }
}

/// The chunk whose line is at the start of the input, where the extensions are counted first.
pub open spec fn parsed_in_segments(input: Seq<u8>) -> Verdict<ChunkModel> {
    match framed(input) {
        Err(fault) => Err(fault),
        Ok(end) => {
            let line = input.subrange(0, end);
            let size_end = first_in(line, ByteClass::Only(';' as u8));
            chunk_of(line, segmented_extensions(line, size_end), false)
        },
    }
}

/// The quote that ends a string is a quote within the text.
pub proof fn lemma_quote_end(text: Seq<u8>, i: int)
    requires
        0 <= i,
    ensures
        quote_end(text, i) matches Some(end) ==> i <= end < text.len() && text[end] == '"' as u8,
    decreases text.len() + 1 - i,
{
    if i < text.len() {
        if text[i] == '\\' as u8 {
            lemma_quote_end(text, i + 2);
        } else if text[i] != '"' as u8 {
            lemma_quote_end(text, i + 1);
        }
    }
}

/// A quoted string ends at the same place in a longer text.
pub proof fn lemma_quote_end_shifts(text: Seq<u8>, by: int, i: int)
    requires
        0 <= by <= text.len(),
        0 <= i,
    ensures
        quote_end(text.skip(by), i) == match quote_end(text, by + i) {
            Some(end) => Some(end - by),
            None => None,
        },
    decreases text.len() + 1 - i,
{
    if by + i < text.len() {
        assert(text.skip(by)[i] == text[by + i]);
        if text[by + i] == '\\' as u8 {
            lemma_quote_end_shifts(text, by, i + 2);
        } else if text[by + i] != '"' as u8 {
            lemma_quote_end_shifts(text, by, i + 1);
        }
    }
}

/// What a quoted string holds depends on nothing outside it.
pub proof fn lemma_unescaped_within(a: Seq<u8>, i: int, b: Seq<u8>, j: int, len: int)
    requires
        0 <= i,
        0 <= j,
        0 <= len,
        i + len < a.len(),
        j + len < b.len(),
        a.subrange(i, i + len + 1) == b.subrange(j, j + len + 1),
    ensures
        unescaped(a, i, i + len) == unescaped(b, j, j + len),
    decreases len,
{
    if len > 0 {
        let p = a.subrange(i, i + len + 1);
        let q = b.subrange(j, j + len + 1);
        assert(a[i] == p[0] && a[i + 1] == p[1]);
        assert(b[j] == q[0] && b[j + 1] == q[1]);
        if a[i] == '\\' as u8 {
            if len >= 2 {
                assert(a.subrange(i + 2, i + len + 1) =~= p.skip(2));
                assert(b.subrange(j + 2, j + len + 1) =~= q.skip(2));
                lemma_unescaped_within(a, i + 2, b, j + 2, len - 2);
            } else {
                assert(unescaped(a, i + 2, i + len) =~= unescaped(b, j + 2, j + len));
            }
        } else {
            assert(a.subrange(i + 1, i + len + 1) =~= p.skip(1));
            assert(b.subrange(j + 1, j + len + 1) =~= q.skip(1));
            lemma_unescaped_within(a, i + 1, b, j + 1, len - 1);
        }
    }
}

/// Every byte that a quoted string holds stands between its quotes.
proof fn lemma_unescaped_ascii(text: Seq<u8>, i: int, end: int)
    requires
        0 <= i,
        end < text.len(),
        forall|k: int| i <= k <= end ==> #[trigger] text[k] < 0x80,
    ensures
        is_ascii(unescaped(text, i, end)),
    decreases end + 1 - i,
{
    if i < end {
        assert(text[i + 1] < 0x80);
        if text[i] == '\\' as u8 {
            lemma_unescaped_ascii(text, i + 2, end);
        } else {
            lemma_unescaped_ascii(text, i + 1, end);
        }
    }
}

proof fn lemma_printable_is_text(text: Seq<u8>, end: int)
    requires
        0 < end < text.len(),
        text[end] == '"' as u8,
        all_in(text.subrange(1, end), ByteClass::Printable),
    ensures
        valid_utf8(unescaped(text, 1, end)),
{
    assert forall|k: int| 1 <= k <= end implies #[trigger] text[k] < 0x80 by {
        if k < end {
            assert(ByteClass::Printable.has(text.subrange(1, end)[k - 1]));
        }
    }
    lemma_unescaped_ascii(text, 1, end);
    lemma_ascii_is_utf8(unescaped(text, 1, end));
}

proof fn lemma_value_alike(text: Seq<u8>)
    ensures
        value(text, Quoting::EndFirst) is Ok <==> value(text, Quoting::TextFirst) is Ok,
        value(text, Quoting::EndFirst) is Ok ==> value(text, Quoting::EndFirst) == value(
            text,
            Quoting::TextFirst,
        ),
        value(text, Quoting::PrintableOnly) is Ok ==> value(text, Quoting::PrintableOnly) == value(
            text,
            Quoting::TextFirst,
        ),
        all_in(text, ByteClass::Printable) ==> value(text, Quoting::PrintableOnly) == value(
            text,
            Quoting::TextFirst,
        ),
{
    lemma_quote_end(text, 1);
    if let Some(end) = quote_end(text, 1) {
        if all_in(text, ByteClass::Printable) {
            assert forall|k: int| 0 <= k < end - 1 implies ByteClass::Printable.has(
                #[trigger] text.subrange(1, end)[k],
            ) by {
                assert(ByteClass::Printable.has(text[k + 1]));
            }
        }
        if all_in(text.subrange(1, end), ByteClass::Printable) {
            lemma_printable_is_text(text, end);
        }
    }
}

proof fn lemma_extension_alike(text: Seq<u8>)
    ensures
        extension(text, Quoting::EndFirst) is Ok <==> extension(text, Quoting::TextFirst) is Ok,
        extension(text, Quoting::EndFirst) is Ok ==> extension(text, Quoting::EndFirst)
            == extension(text, Quoting::TextFirst),
        extension(text, Quoting::PrintableOnly) is Ok ==> extension(text, Quoting::PrintableOnly)
            == extension(text, Quoting::TextFirst),
        all_in(text, ByteClass::Printable) ==> extension(text, Quoting::PrintableOnly)
            == extension(text, Quoting::TextFirst),
{
    lemma_first_out(text, ByteClass::Token);
    let end = first_out(text, ByteClass::Token);
    if trails(text, end) {
        lemma_value_alike(text.skip(end + 1));
        if all_in(text, ByteClass::Printable) {
            assert(all_in(text.skip(end + 1), ByteClass::Printable));
        }
    }
}

proof fn lemma_extensions_alike(text: Seq<u8>, found: Seq<ExtensionModel>)
    ensures
        ({
            let text_first = extensions(text, found, Quoting::TextFirst);
            let end_first = extensions(text, found, Quoting::EndFirst);
            let printable = extensions(text, found, Quoting::PrintableOnly);
            &&& end_first is Ok <==> text_first is Ok
            &&& end_first is Ok ==> end_first == text_first
            &&& printable is Ok ==> printable == text_first
            &&& all_in(text, ByteClass::Printable) ==> printable == text_first
        }),
    decreases text.len(),
{
    lemma_extension_alike(text);
    if found.len() != EXTENSION_MAX {
        if let Ok((next, used)) = extension(text, Quoting::TextFirst) {
            if 0 <= used < text.len() {
                if all_in(text, ByteClass::Printable) {
                    assert(all_in(text.skip(used + 1), ByteClass::Printable));
                }
                lemma_extensions_alike(text.skip(used + 1), found.push(next));
            }
        }
    }
}

/// Whether what follows a quoted string is looked at first or last decides only which error comes.
pub proof fn lemma_orders_accept_alike(input: Seq<u8>)
    ensures
        parsed(input, Quoting::EndFirst) is Ok <==> parsed(input, Quoting::TextFirst) is Ok,
        parsed(input, Quoting::EndFirst) is Ok ==> parsed(input, Quoting::EndFirst) == parsed(
            input,
            Quoting::TextFirst,
        ),
{
    if let Ok(end) = framed(input) {
        let line = input.subrange(0, end);
        let size_end = first_in(line, ByteClass::Only(';' as u8));
        lemma_extensions_alike(line.skip(size_end + 1), Seq::empty());
    }
}

/// What is accepted with printable strings only is accepted otherwise too, with the same chunk; and
/// on ASCII input nothing else is.
pub proof fn lemma_printable_is_narrower(input: Seq<u8>)
    ensures
        parsed(input, Quoting::PrintableOnly) is Ok ==> parsed(input, Quoting::PrintableOnly)
            == parsed(input, Quoting::TextFirst),
        is_ascii(input) && parsed(input, Quoting::TextFirst) is Ok ==> parsed(
            input,
            Quoting::PrintableOnly,
        ) == parsed(input, Quoting::TextFirst),
{
    if let Ok(end) = framed(input) {
        lemma_first_in(input, ByteClass::Control);
        let line = input.subrange(0, end);
        let size_end = first_in(line, ByteClass::Only(';' as u8));
        lemma_first_in(line, ByteClass::Only(';' as u8));
        if size_end < line.len() {
            let rest = line.skip(size_end + 1);
            lemma_extensions_alike(rest, Seq::empty());
            if is_ascii(input) {
                assert forall|k: int| 0 <= k < rest.len() implies ByteClass::Printable.has(
                    #[trigger] rest[k],
                ) by {
                    assert(rest[k] == input[size_end + 1 + k]);
                    assert(!ByteClass::Control.has(input[size_end + 1 + k]));
                }
            }
        }
    }
}

/// A quoted string that ends within a prefix ends there all the same.
proof fn lemma_quote_end_within(text: Seq<u8>, i: int, len: int)
    requires
        0 <= i,
        len <= text.len(),
        quote_end(text, i) is Some,
        quote_end(text, i).unwrap() < len,
    ensures
        quote_end(text.take(len), i) == quote_end(text, i),
    decreases text.len() + 1 - i,
{
    lemma_quote_end(text, i);
    assert(text.take(len)[i] == text[i]);
    if text[i] == '\\' as u8 {
        lemma_quote_end_within(text, i + 2, len);
    } else if text[i] != '"' as u8 {
        lemma_quote_end_within(text, i + 1, len);
    }
}

/// How the value in a text relates to the value in a prefix that ends before a semicolon.
proof fn lemma_value_of_segment(text: Seq<u8>, len: int)
    requires
        0 <= len <= text.len(),
        len < text.len() ==> text[len] == ';' as u8,
        if text.len() > 0 && text[0] == '"' as u8 {
            match quote_end(text, 1) {
                Some(quote) => len == first_from(text, ByteClass::Only(';' as u8), quote + 1),
                None => len == text.len(),
            }
        } else {
            len == first_from(text, ByteClass::Only(';' as u8), 0)
        },
    ensures
        value(text.take(len), Quoting::EndFirst) == value(text, Quoting::EndFirst),
        value(text, Quoting::EndFirst) matches Ok((_, used)) ==> used == len,
{
    let segment = text.take(len);
    let semicolon = ByteClass::Only(';' as u8);
    if text.len() > 0 && text[0] == '"' as u8 {
        lemma_quote_end(text, 1);
        match quote_end(text, 1) {
            Some(quote) => {
                lemma_first_from(text, semicolon, quote + 1);
                lemma_quote_end_within(text, 1, len);
                assert(text.subrange(1, quote + 1) =~= segment.subrange(1, quote + 1));
                lemma_unescaped_within(text, 1, segment, 1, quote - 1);
            },
            None => {
                assert(segment =~= text);
            },
        }
    } else {
        lemma_first_from(text, semicolon, 0);
        lemma_first_out(text, ByteClass::Token);
        let end = first_out(text, ByteClass::Token);
        assert(end <= len) by {
            if len < end {
                assert(ByteClass::Token.has(text[len]));
            }
        }
        lemma_first_out_unique(segment, ByteClass::Token, end);
        assert(segment.subrange(0, end) =~= text.subrange(0, end));
        if end < len {
            assert(!semicolon.has(text[end]));
        }
        if len > 0 {
            assert(segment[0] == text[0]);
        }
    }
}

/// An extension is the whole of its segment, and depends on nothing outside it.
pub proof fn lemma_first_segment(text: Seq<u8>)
    ensures
        ({
            let end = segment_end(text);
            &&& 0 <= end <= text.len()
            &&& end < text.len() ==> text[end] == ';' as u8
            &&& segment_end(text.take(end)) == end
            &&& extension(text.take(end), Quoting::EndFirst) == extension(text, Quoting::EndFirst)
            &&& extension(text, Quoting::EndFirst) matches Ok((_, used)) ==> used == end
        }),
{
    let len = segment_end(text);
    let end = first_out(text, ByteClass::Token);
    let semicolon = ByteClass::Only(';' as u8);
    lemma_first_out(text, ByteClass::Token);
    lemma_first_from(text, semicolon, 0);
    let quoted = 1 <= end <= EXTENSION_NAME_MAX && end + 1 < text.len() && text[end] == '=' as u8
        && text[end + 1] == '"' as u8;
    if quoted {
        lemma_quote_end(text, end + 2);
        if let Some(quote) = quote_end(text, end + 2) {
            lemma_first_from(text, semicolon, quote + 1);
            lemma_quote_end_within(text, end + 2, len);
        }
    }
    let segment = text.take(len);
    assert(end <= len) by {
        if len < end {
            assert(ByteClass::Token.has(text[len]));
        }
    }
    lemma_first_out_unique(segment, ByteClass::Token, end);
    assert(segment.subrange(0, end) =~= text.subrange(0, end));
    if quoted {
        if let Some(quote) = quote_end(text, end + 2) {
            lemma_first_from_unique(segment, semicolon, quote + 1, len);
        } else {
            assert(segment =~= text);
        }
    } else {
        lemma_first_from_unique(segment, semicolon, 0, len);
        if end < len {
            assert(!semicolon.has(text[end]));
        }
    }
    if 1 <= end <= EXTENSION_NAME_MAX && end < len && text[end] == '=' as u8 {
        let rest = text.skip(end + 1);
        assert(rest.take(len - end - 1) =~= segment.skip(end + 1));
        lemma_quote_end_shifts(text, end + 1, 1);
        if quoted {
            if let Some(quote) = quote_end(text, end + 2) {
                lemma_first_from(text, semicolon, quote + 1);
                assert forall|j: int| quote - end <= j < len - end - 1 implies !semicolon.has(
                    #[trigger] rest[j],
                ) by {
                    assert(rest[j] == text[end + 1 + j]);
                }
                lemma_first_from_unique(rest, semicolon, quote - end, len - end - 1);
            }
        } else {
            assert forall|j: int| 0 <= j < len - end - 1 implies !semicolon.has(
                #[trigger] rest[j],
            ) by {
                assert(rest[j] == text[end + 1 + j]);
            }
            lemma_first_from_unique(rest, semicolon, 0, len - end - 1);
        }
        lemma_value_of_segment(rest, len - end - 1);
    }
}

/// Accepted extensions are as many as there are segments.
proof fn lemma_segments_counted(text: Seq<u8>, found: Seq<ExtensionModel>)
    requires
        found.len() <= EXTENSION_MAX,
    ensures
        extensions(text, found, Quoting::EndFirst) matches Ok(all) ==> all.len() == found.len()
            + segment_count(text) && all.len() <= EXTENSION_MAX,
    decreases text.len(),
{
    lemma_first_segment(text);
    if found.len() != EXTENSION_MAX {
        if let Ok((next, used)) = extension(text, Quoting::EndFirst) {
            if 0 <= used < text.len() {
                lemma_segments_counted(text.skip(used + 1), found.push(next));
            }
        }
    }
}

/// To count the extensions before any is looked at decides only which error comes.
pub proof fn lemma_segments_accept_alike(input: Seq<u8>)
    ensures
        parsed_in_segments(input) is Ok <==> parsed(input, Quoting::TextFirst) is Ok,
        parsed_in_segments(input) is Ok ==> parsed_in_segments(input) == parsed(
            input,
            Quoting::TextFirst,
        ),
{
    lemma_orders_accept_alike(input);
    if let Ok(end) = framed(input) {
        let line = input.subrange(0, end);
        let size_end = first_in(line, ByteClass::Only(';' as u8));
        lemma_segments_counted(line.skip(size_end + 1), Seq::empty());
    }
}

/// What every accepted extension is like.
pub open spec fn is_canonical_extension(extension: ExtensionModel) -> bool {
    &&& 1 <= extension.name.len() <= EXTENSION_NAME_MAX
    &&& all_in(extension.name, ByteClass::Token)
    &&& !any_in(extension.name, ByteClass::Upper)
}

proof fn lemma_extensions_bounded(text: Seq<u8>, found: Seq<ExtensionModel>, quoting: Quoting)
    requires
        found.len() <= EXTENSION_MAX,
        forall|i: int| 0 <= i < found.len() ==> is_canonical_extension(#[trigger] found[i]),
    ensures
        extensions(text, found, quoting) matches Ok(all) ==> all.len() <= EXTENSION_MAX && forall|
            i: int,
        |
            0 <= i < all.len() ==> is_canonical_extension(#[trigger] all[i]),
    decreases text.len(),
{
    if found.len() != EXTENSION_MAX {
        if let Ok((next, used)) = extension(text, quoting) {
            let end = first_out(text, ByteClass::Token);
            lemma_first_out(text, ByteClass::Token);
            assert forall|i: int| 0 <= i < next.name.len() implies ByteClass::Token.has(
                #[trigger] next.name[i],
            ) && !ByteClass::Upper.has(next.name[i]) by {
                assert(ByteClass::Token.has(text[i]));
            }
            if 0 <= used < text.len() {
                lemma_extensions_bounded(text.skip(used + 1), found.push(next), quoting);
            }
        }
    }
}

/// Every accepted chunk keeps the limits, and names its extensions in lower case.
pub proof fn lemma_parsed_bounded(input: Seq<u8>, quoting: Quoting)
    ensures
        parsed(input, quoting) matches Ok(chunk) ==> {
            &&& 0 <= chunk.size <= SIZE_MAX
            &&& 2 < chunk.bytes_consumed <= LINE_MAX + 2
            &&& chunk.bytes_consumed <= input.len()
            &&& chunk.extensions.len() <= EXTENSION_MAX
            &&& forall|i: int|
                0 <= i < chunk.extensions.len() ==> is_canonical_extension(
                    #[trigger] chunk.extensions[i],
                )
        },
{
    if let Ok(end) = framed(input) {
        let line = input.subrange(0, end);
        let size_end = first_in(line, ByteClass::Only(';' as u8));
        lemma_first_in(input, ByteClass::Control);
        lemma_first_in(line, ByteClass::Only(';' as u8));
        lemma_extensions_bounded(line.skip(size_end + 1), Seq::empty(), quoting);
    }
}

/// A line that has ended ends there whatever comes after it, and whatever it holds.
pub proof fn lemma_framed_is_local(input: Seq<u8>, rest: Seq<u8>)
    ensures
        framed(input) matches Ok(end) ==> framed(input.take(end + 2) + rest) == framed(input),
{
    if let Ok(end) = framed(input) {
        lemma_first_in(input, ByteClass::Control);
        lemma_first_in_unique(input.take(end + 2) + rest, ByteClass::Control, end);
    }
}

/// An accepted chunk depends only on the bytes of its line: nothing after them is looked at.
pub proof fn lemma_parsed_is_local(input: Seq<u8>, rest: Seq<u8>, quoting: Quoting)
    ensures
        parsed(input, quoting) matches Ok(chunk) ==> parsed(
            input.take(chunk.bytes_consumed) + rest,
            quoting,
        ) == parsed(input, quoting),
{
    lemma_parsed_bounded(input, quoting);
    if let Ok(chunk) = parsed(input, quoting) {
        let end = framed(input)->Ok_0;
        let other = input.take(chunk.bytes_consumed) + rest;
        lemma_first_in(input, ByteClass::Control);
        lemma_framed_is_local(input, rest);
        assert(chunk.bytes_consumed == end + 2);
        assert(other.subrange(0, end) =~= input.subrange(0, end));
    }
}

/// What the result of reading a size stands for.
pub open spec fn size_outcome(result: Result<u64>) -> Verdict<u64> {
    match result {
        Ok(size) => Ok(size),
        Err(error) => Err(error@),
    }
}

/// What the result of reading extensions stands for.
pub open spec fn list_outcome(result: Result<Vec<ChunkExtension>>) -> Verdict<Seq<ExtensionModel>> {
    match result {
        Ok(list) => Ok(extensions_of(list@)),
        Err(error) => Err(error@),
    }
}

/// Whether a byte string can stand between quotes: no quote ends it early, no escape goes past its
/// end.
pub open spec fn is_escaped(raw: Seq<u8>) -> bool {
    quote_end(raw.push('"' as u8), 0) == Some(raw.len() as int)
}

/// What a byte string between quotes stands for.
pub open spec fn contents(raw: Seq<u8>) -> Seq<u8> {
    unescaped(raw.push('"' as u8), 0, raw.len() as int)
}

/// What a quoted string holds, cut out of the text around it.
pub proof fn lemma_quoted_contents(text: Seq<u8>, start: int, end: int)
    requires
        0 <= start,
        quote_end(text, start) == Some(end),
    ensures
        start <= end < text.len(),
        is_escaped(text.subrange(start, end)),
        contents(text.subrange(start, end)) == unescaped(text, start, end),
{
    lemma_quote_end(text, start);
    lemma_quote_end_shifts(text, start, 0);
    let tail = text.skip(start);
    lemma_quote_end_within(tail, 0, end - start + 1);
    let raw = text.subrange(start, end);
    assert(tail.take(end - start + 1) =~= raw.push('"' as u8));
    assert(text.subrange(start, end + 1) =~= raw.push('"' as u8).subrange(0, end - start + 1));
    lemma_unescaped_within(text, start, raw.push('"' as u8), 0, end - start);
}

/// Printable bytes between quotes stand for ASCII bytes.
pub proof fn lemma_printable_contents(raw: Seq<u8>)
    requires
        all_in(raw, ByteClass::Printable),
    ensures
        is_ascii(contents(raw)),
{
    let quoted = raw.push('"' as u8);
    assert forall|k: int| 0 <= k <= raw.len() implies #[trigger] quoted[k] < 0x80 by {
        if k < raw.len() {
            assert(ByteClass::Printable.has(raw[k]));
        }
    }
    lemma_unescaped_ascii(quoted, 0, raw.len() as int);
}

/// The index of the quote that ends a quoted string, whose opening quote has been read.
pub fn find_closing_quote(bytes: &[u8]) -> (closing: Option<usize>)
    ensures
        match closing {
            Some(end) => quote_end(bytes@, 0) == Some(end as int) && end < bytes@.len(),
            None => quote_end(bytes@, 0) is None,
        },
{
    let mut escaped: bool = false;
    let mut index: usize = 0;
    while index < bytes.len()
        invariant
            index <= bytes@.len(),
            quote_end(bytes@, 0) == quote_end(
                bytes@,
                if escaped {
                    index + 1
                } else {
                    index as int
                },
            ),
        decreases bytes@.len() - index,
    {
        if escaped {
            escaped = false;
        } else if bytes[index] == '\\' as u8 {
            escaped = true;
        } else if bytes[index] == '"' as u8 {
            return Some(index);
        }
        index += 1;
    }
    None
}

/// The bytes from `i` on without the backslash of each quoted pair. A backslash at the end, which
/// has nothing to pair with, stands for nothing.
pub open spec fn projection(raw: Seq<u8>, i: int) -> Seq<u8>
    decreases raw.len() - i,
{
    if i >= raw.len() {
        Seq::empty()
    } else if raw[i] != '\\' as u8 {
        seq![raw[i]] + projection(raw, i + 1)
    } else if i + 1 < raw.len() {
        seq![raw[i + 1]] + projection(raw, i + 2)
    } else {
        Seq::empty()
    }
}

/// What can stand between quotes stands for its projection there.
pub proof fn lemma_projection_is_contents(raw: Seq<u8>, i: int)
    requires
        0 <= i,
        quote_end(raw.push('"' as u8), i) == Some(raw.len() as int),
    ensures
        projection(raw, i) == unescaped(raw.push('"' as u8), i, raw.len() as int),
    decreases raw.len() - i,
{
    let quoted = raw.push('"' as u8);
    if i < raw.len() {
        assert(quoted[i] == raw[i]);
        if raw[i] == '\\' as u8 {
            lemma_quote_end(quoted, i + 2);
            assert(quoted[i + 1] == raw[i + 1]);
            lemma_projection_is_contents(raw, i + 2);
        } else {
            lemma_projection_is_contents(raw, i + 1);
        }
    }
}

/// Takes away the backslash of each quoted pair.
pub fn unescape(raw: &[u8]) -> (plain: Vec<u8>)
    ensures
        plain@ == projection(raw@, 0),
        is_escaped(raw@) ==> plain@ == contents(raw@),
{
    let mut plain: Vec<u8> = Vec::new();
    let mut index: usize = 0;
    proof {
        if is_escaped(raw@) {
            lemma_projection_is_contents(raw@, 0);
        }
        assert(plain@ + projection(raw@, 0) =~= projection(raw@, 0));
    }
    while index < raw.len()
        invariant
            index <= raw@.len(),
            plain@ + projection(raw@, index as int) == projection(raw@, 0),
        decreases raw@.len() - index,
    {
        let ghost before = plain@;
        if raw[index] != '\\' as u8 {
            plain.push(raw[index]);
            assert(plain@ + projection(raw@, index + 1) =~= before + projection(
                raw@,
                index as int,
            ));
            index += 1;
        } else if raw.len() - index >= 2 {
            plain.push(raw[index + 1]);
            assert(plain@ + projection(raw@, index + 2) =~= before + projection(
                raw@,
                index as int,
            ));
            index += 2;
        } else {
            assert(before + projection(raw@, index as int) =~= before);
            index += 1;
        }
    }
    assert(plain@ + projection(raw@, index as int) =~= plain@);
    plain
}

} // verus!
