//! Chunk parsing in phases: a line, then packed spans of it, then values.

use vstd::prelude::*;
use vstd::utf8::*;
use crate::bytes::{
    ByteClass, all_in, find_in, first_in, is_control, is_token, lemma_first_in,
    lemma_first_in_unique, lemma_first_out_unique, lowered,
};
use crate::chunk::{
    EXTENSION_MAX, EXTENSION_NAME_MAX, LINE_MAX, Quoting, SIZE_MAX, contents, extension,
    extensions, framed, is_escaped, lemma_framed_is_local, lemma_projection_is_contents,
    lemma_quote_end_shifts, lemma_quoted_contents, line_extensions, parsed, projection, quote_end,
    size_outcome, sized, unescape, value,
};
use crate::decimal::clamp_to_usize;
use crate::hex::{hexadecimal, lemma_next_digit};
use crate::text::{decode_text, plain_token, token_text};
use crate::types::{
    ChunkExtension, ChunkMeta, ExtensionModel, Fault, PolyguardError, Result, extensions_of,
    invalid_chunk, limit_exceeded, outcome,
};

verus! {

// A descriptor packs four line offsets and two flags into one primitive value. Line offsets are at
// most 1024, so eleven bits per offset are sufficient.

struct Preflight {
    size: u64,
    spans: Vec<u64>,
}

/// The offset that a descriptor holds in one of its four places.
spec fn offset_in(span: u64, ordinal: u64) -> u64 {
    (span >> (11 * ordinal) as u64) & 0x7ff
}

spec fn has_value(span: u64) -> bool {
    (span >> 44) & 1 == 1
}

spec fn is_quoted(span: u64) -> bool {
    (span >> 45) & 1 == 1
}

/// Whether a descriptor cuts out of the line what can be made an extension.
spec fn fits(span: u64, line: Seq<u8>) -> bool {
    let name_start = offset_in(span, 0) as int;
    let name_end = offset_in(span, 1) as int;
    let value_start = offset_in(span, 2) as int;
    let value_end = offset_in(span, 3) as int;
    &&& name_start <= name_end <= line.len()
    &&& all_in(line.subrange(name_start, name_end), ByteClass::Token)
    &&& has_value(span) ==> {
        &&& value_start <= value_end <= line.len()
        &&& if is_quoted(span) {
            let raw = line.subrange(value_start, value_end);
            is_escaped(raw) && valid_utf8(contents(raw))
        } else {
            all_in(line.subrange(value_start, value_end), ByteClass::Token)
        }
    }
}

/// The extension that a descriptor stands for.
spec fn spanned(span: u64, line: Seq<u8>) -> ExtensionModel {
    let value = line.subrange(offset_in(span, 2) as int, offset_in(span, 3) as int);
    ExtensionModel {
        name: lowered(line.subrange(offset_in(span, 0) as int, offset_in(span, 1) as int)),
        value: if !has_value(span) {
            None
        } else if is_quoted(span) {
            Some(contents(value))
        } else {
            Some(value)
        },
    }
}

/// The extensions that descriptors stand for.
spec fn all_spanned(spans: Seq<u64>, line: Seq<u8>) -> Seq<ExtensionModel> {
    spans.map_values(|span: u64| spanned(span, line))
}

pub fn parse_chunk_metadata(input: &[u8]) -> (result: Result<ChunkMeta>)
    ensures
        outcome(result) == parsed(input@, Quoting::TextFirst),
{
    let (line, bytes_consumed) = isolate_line(input)?;
    let checked = validate_line_grammar(line)?;
    let extensions = materialize_extensions(line, checked.spans.as_slice());
    Ok(ChunkMeta { size: checked.size, extensions, bytes_consumed })
}

/// The first phase establishes a bounded, control-free line without inspecting bytes after its
/// line ending.
pub fn isolate_line<'a>(input: &'a [u8]) -> (framed_line: Result<(&'a [u8], usize)>)
    ensures
        match framed_line {
            Ok((line, consumed)) => {
                &&& framed(input@) == Ok::<int, Fault>(line@.len() as int)
                &&& line@ == input@.subrange(0, line@.len() as int)
                &&& line@.len() <= LINE_MAX
                &&& consumed == line@.len() + 2
                &&& forall|rest: Seq<u8>|
                    #[trigger] framed(input@.take(consumed as int) + rest) == framed(input@)
            },
            Err(e) => framed(input@) == Err::<int, Fault>(e@),
        },
{
    let mut offset: usize = 0;
    while offset < input.len()
        invariant
            offset <= input@.len(),
            offset <= LINE_MAX,
            forall|j: int| 0 <= j < offset ==> !ByteClass::Control.has(#[trigger] input@[j]),
        decreases input@.len() - offset,
    {
        let byte: u8 = input[offset];
        proof {
            lemma_first_in(input@, ByteClass::Control);
            if ByteClass::Control.has(byte) {
                lemma_first_in_unique(input@, ByteClass::Control, offset as int);
            }
        }
        if byte == '\r' as u8 && offset + 1 < input.len() && input[offset + 1] == '\n' as u8 {
            if offset <= LINE_MAX {
                proof {
                    assert forall|rest: Seq<u8>| #[trigger]
                        framed(input@.take(offset + 2) + rest) == framed(input@) by {
                        lemma_framed_is_local(input@, rest);
                    }
                }
                return Ok((&input[0..offset], offset + 2));
            }
            return Err(limit_exceeded("chunk_line_bytes", LINE_MAX, offset + 1));
        }
        if is_control(byte) {
            return Err(invalid_chunk("invalid_line_ending_or_control"));
        }
        if offset == LINE_MAX {
            return Err(limit_exceeded("chunk_line_bytes", LINE_MAX, LINE_MAX + 1));
        }
        offset += 1;
    }
    proof {
        lemma_first_in_unique(input@, ByteClass::Control, offset as int);
    }
    Err(PolyguardError::Incomplete)
}

/// The second phase proves all syntax and limits before any result-sized allocation is performed.
fn validate_line_grammar(line: &[u8]) -> (preflight: Result<Preflight>)
    requires
        line@.len() <= LINE_MAX,
    ensures
        ({
            let size_end = first_in(line@, ByteClass::Only(';' as u8));
            let size = sized(line@.subrange(0, size_end), false);
            let listed = line_extensions(line@, size_end, Quoting::TextFirst);
            match preflight {
                Ok(p) => {
                    &&& size == Ok::<u64, Fault>(p.size)
                    &&& listed == Ok::<Seq<ExtensionModel>, Fault>(all_spanned(p.spans@, line@))
                    &&& forall|i: int| 0 <= i < p.spans@.len() ==> fits(#[trigger] p.spans@[i], line@)
                },
                Err(e) => match size {
                    Err(fault) => e@ == fault,
                    Ok(_) => listed == Err::<Seq<ExtensionModel>, Fault>(e@),
                },
            }
        }),
{
    let size_end: usize = find_in(line, ByteClass::Only(';' as u8));
    let size: u64 = validate_size(&line[0..size_end])?;
    let mut spans: Vec<u64> = Vec::new();
    let mut cursor: usize = size_end;
    let ghost listed = line_extensions(line@, size_end as int, Quoting::TextFirst);
    assert(all_spanned(spans@, line@) =~= Seq::<ExtensionModel>::empty());
    while cursor < line.len()
        invariant
            line@.len() <= LINE_MAX,
            size_end == first_in(line@, ByteClass::Only(';' as u8)),
            sized(line@.subrange(0, size_end as int), false) == Ok::<u64, Fault>(size),
            cursor <= line@.len(),
            spans@.len() <= EXTENSION_MAX,
            forall|i: int| 0 <= i < spans@.len() ==> fits(#[trigger] spans@[i], line@),
            listed == line_extensions(line@, size_end as int, Quoting::TextFirst),
            listed == if cursor < line@.len() {
                extensions(
                    line@.skip(cursor + 1),
                    all_spanned(spans@, line@),
                    Quoting::TextFirst,
                )
            } else {
                Ok(all_spanned(spans@, line@))
            },
        decreases line@.len() - cursor,
    {
        let ordinal: usize = spans.len() + 1;
        if ordinal > EXTENSION_MAX {
            return Err(limit_exceeded("chunk_extensions", EXTENSION_MAX, ordinal));
        }
        let ghost text = line@.skip(cursor + 1);
        let descriptor: u64 = validate_extension(line, &mut cursor)?;
        let ghost before = all_spanned(spans@, line@);
        spans.push(descriptor);
        proof {
            assert(all_spanned(spans@, line@) =~= before.push(spanned(descriptor, line@)));
            let used = extension(text, Quoting::TextFirst)->Ok_0.1;
            if cursor < line@.len() {
                assert(text.skip(used + 1) =~= line@.skip(cursor + 1));
            }
        }
    }
    Ok(Preflight { size, spans })
}

/// One extension, from the semicolon at the cursor on. The cursor is left after it.
fn validate_extension(line: &[u8], cursor: &mut usize) -> (descriptor: Result<u64>)
    requires
        *old(cursor) < line@.len() <= LINE_MAX,
    ensures
        ({
            let start = *old(cursor) + 1;
            match descriptor {
                Ok(span) => {
                    &&& start <= *final(cursor) <= line@.len()
                    &&& fits(span, line@)
                    &&& extension(line@.skip(start), Quoting::TextFirst) == Ok::<
                        (ExtensionModel, int),
                        Fault,
                    >((spanned(span, line@), *final(cursor) - start))
                },
                Err(e) => extension(line@.skip(start), Quoting::TextFirst) == Err::<
                    (ExtensionModel, int),
                    Fault,
                >(e@),
            }
        }),
{
    *cursor += 1;
    let name_start: usize = *cursor;
    let ghost text = line@.skip(name_start as int);
    while *cursor < line.len() && is_token(line[*cursor])
        invariant
            name_start <= *cursor <= line@.len(),
            forall|j: int| name_start <= j < *cursor ==> is_token(#[trigger] line@[j]),
        decreases line@.len() - *cursor,
    {
        *cursor += 1;
    }
    let name_end: usize = *cursor;
    proof {
        let end = name_end - name_start;
        assert forall|j: int| 0 <= j < end implies ByteClass::Token.has(#[trigger] text[j]) by {
            assert(text[j] == line@[name_start + j]);
        }
        if end < text.len() {
            assert(text[end] == line@[name_end as int]);
        }
        lemma_first_out_unique(text, ByteClass::Token, end);
        assert(text.subrange(0, end) =~= line@.subrange(name_start as int, name_end as int));
    }
    if name_end - name_start < 1 || name_end - name_start > EXTENSION_NAME_MAX {
        return Err(invalid_chunk("invalid_extension_name"));
    }
    if *cursor == line.len() || line[*cursor] == ';' as u8 {
        return Ok(pack_span(name_start, name_end, 0, 0, false, false));
    }
    if line[*cursor] != '=' as u8 {
        return Err(invalid_chunk("invalid_extension_name"));
    }
    *cursor += 1;
    assert(text.skip(name_end - name_start + 1) =~= line@.skip(*cursor as int));
    validate_value(line, cursor, name_start, name_end)
}

fn validate_size(text: &[u8]) -> (size: Result<u64>)
    ensures
        size_outcome(size) == sized(text@, false),
{
    if text.len() < 1 || text.len() > 16 {
        return Err(invalid_chunk("invalid_size"));
    }
    let mut size: u64 = 0;
    let mut index: usize = 0;
    while index < text.len()
        invariant
            1 <= text@.len() <= 16,
            index <= text@.len(),
            forall|j: int| 0 <= j < index ==> ByteClass::Hex.has(#[trigger] text@[j]),
            size == hexadecimal(text@.take(index as int)),
        decreases text@.len() - index,
    {
        let byte: u8 = text[index];
        let digit: u64 = match byte {
            0x30..=0x39 => (byte - '0' as u8) as u64,
            0x61..=0x66 => (byte - 'a' as u8 + 10) as u64,
            0x41..=0x46 => (byte - 'A' as u8 + 10) as u64,
            _ => {
                assert(!ByteClass::Hex.has(text@[index as int]));
                return Err(invalid_chunk("invalid_size"));
            },
        };
        proof {
            lemma_next_digit(text@, index as int);
            assert((size << 4) | digit == size * 16 + digit) by (bit_vector)
                requires
                    size < 0x1000_0000_0000_0000u64,
                    digit < 16u64,
            ;
        }
        size = (size << 4) | digit;
        index += 1;
    }
    assert(text@.take(index as int) =~= text@);
    if size > SIZE_MAX {
        return Err(limit_exceeded("chunk_size", SIZE_MAX as usize, clamp_to_usize(size)));
    }
    Ok(size)
}

/// The value of an extension whose name has been checked.
fn validate_value(line: &[u8], cursor: &mut usize, name_start: usize, name_end: usize) -> (descriptor:
    Result<u64>)
    requires
        name_start < name_end < *old(cursor) <= line@.len() <= LINE_MAX,
        all_in(line@.subrange(name_start as int, name_end as int), ByteClass::Token),
    ensures
        ({
            let start = *old(cursor) as int;
            let name = lowered(line@.subrange(name_start as int, name_end as int));
            match value(line@.skip(start), Quoting::TextFirst) {
                Ok((bytes, used)) => {
                    &&& descriptor is Ok
                    &&& start <= *final(cursor) <= line@.len()
                    &&& used == *final(cursor) - start
                    &&& fits(descriptor->Ok_0, line@)
                    &&& spanned(descriptor->Ok_0, line@) == (ExtensionModel {
                        name,
                        value: Some(bytes),
                    })
                },
                Err(fault) => descriptor is Err && descriptor->Err_0@ == fault,
            }
        }),
{
    let ghost start = *cursor as int;
    let ghost text = line@.skip(start);
    proof {
        if start < line@.len() {
            assert(text[0] == line@[start]);
        }
    }
    if *cursor >= line.len() || line[*cursor] != '"' as u8 {
        let value_start: usize = *cursor;
        while *cursor < line.len() && is_token(line[*cursor])
            invariant
                value_start <= *cursor <= line@.len(),
                forall|j: int| value_start <= j < *cursor ==> is_token(#[trigger] line@[j]),
            decreases line@.len() - *cursor,
        {
            *cursor += 1;
        }
        proof {
            let end = *cursor - value_start;
            assert forall|j: int| 0 <= j < end implies ByteClass::Token.has(#[trigger] text[j]) by {
                assert(text[j] == line@[value_start + j]);
            }
            if end < text.len() {
                assert(text[end] == line@[*cursor as int]);
            }
            lemma_first_out_unique(text, ByteClass::Token, end);
            assert(text.subrange(0, end) =~= line@.subrange(value_start as int, *cursor as int));
        }
        if *cursor == value_start {
            return Err(invalid_chunk("invalid_extension_value"));
        }
        if *cursor < line.len() && line[*cursor] != ';' as u8 {
            return Err(invalid_chunk("invalid_extension_value"));
        }
        return Ok(pack_span(name_start, name_end, value_start, *cursor, true, false));
    }
    *cursor += 1;
    let value_start: usize = *cursor;
    let mut escaped: bool = false;
    proof {
        lemma_quote_end_shifts(line@, start, 1);
    }
    while *cursor < line.len()
        invariant
            value_start == start + 1 <= *cursor <= line@.len() <= LINE_MAX,
            start == *old(cursor),
            name_start < name_end <= line@.len(),
            all_in(line@.subrange(name_start as int, name_end as int), ByteClass::Token),
            text == line@.skip(start),
            text[0] == '"' as u8,
            quote_end(text, 1) == match quote_end(line@, start + 1) {
                Some(end) => Some(end - start),
                None => None,
            },
            quote_end(line@, start + 1) == quote_end(
                line@,
                if escaped {
                    *cursor + 1
                } else {
                    *cursor as int
                },
            ),
        decreases line@.len() - *cursor,
    {
        match (escaped, line[*cursor]) {
            (true, _) => {
                escaped = false;
            },
            (false, 0x5c) => {
                escaped = true;
            },
            (false, 0x22) => {
                let value_end: usize = *cursor;
                let ghost end = value_end - start;
                let ghost raw = line@.subrange(value_start as int, value_end as int);
                proof {
                    lemma_quoted_contents(line@, value_start as int, value_end as int);
                    lemma_quoted_contents(text, 1, end);
                    assert(raw =~= text.subrange(1, end));
                    lemma_projection_is_contents(raw, 0);
                    if end + 1 < text.len() {
                        assert(text[end + 1] == line@[value_end + 1]);
                    }
                }
                if !valid_unescaped_utf8(&line[value_start..value_end]) {
                    return Err(invalid_chunk("invalid_quoted_string"));
                }
                *cursor += 1;
                if *cursor < line.len() && line[*cursor] != ';' as u8 {
                    return Err(invalid_chunk("invalid_extension_value"));
                }
                return Ok(pack_span(name_start, name_end, value_start, value_end, true, true));
            },
            (false, _) => {},
        }
        *cursor += 1;
    }
    Err(invalid_chunk("invalid_quoted_string"))
}

/// The bytes that have to follow the first byte of a scalar: how many, and the range of the first
/// of them. The others are continuation bytes.
#[derive(Clone, Copy)]
struct ScalarTail {
    count: usize,
    low: u8,
    high: u8,
}

impl ScalarTail {
    /// Whether a byte may stand at a place in the tail.
    #[verifier::allow_in_spec]
    fn allows(self, place: usize, byte: u8) -> bool
        returns
            if place == 0 {
                self.low <= byte <= self.high
            } else {
                0x80 <= byte <= 0xbf
            },
    {
        if place == 0 {
            self.low <= byte && byte <= self.high
        } else {
            0x80 <= byte && byte <= 0xbf
        }
    }

    /// Whether the tail follows the first byte of a byte string.
    spec fn follows(self, bytes: Seq<u8>) -> bool {
        &&& bytes.len() > self.count
        &&& forall|k: int| 1 <= k <= self.count ==> self.allows((k - 1) as usize, #[trigger] bytes[k])
    }
}

/// What has to follow the first byte of a scalar, or nothing where none begins with it.
spec fn tail_of(first: u8) -> Option<ScalarTail> {
    if first <= 0x7f {
        Some(ScalarTail { count: 0, low: 0x80, high: 0xbf })
    } else if 0xc2 <= first <= 0xdf {
        Some(ScalarTail { count: 1, low: 0x80, high: 0xbf })
    } else if first == 0xe0 {
        Some(ScalarTail { count: 2, low: 0xa0, high: 0xbf })
    } else if first == 0xed {
        Some(ScalarTail { count: 2, low: 0x80, high: 0x9f })
    } else if 0xe1 <= first <= 0xef {
        Some(ScalarTail { count: 2, low: 0x80, high: 0xbf })
    } else if first == 0xf0 {
        Some(ScalarTail { count: 3, low: 0x90, high: 0xbf })
    } else if 0xf1 <= first <= 0xf3 {
        Some(ScalarTail { count: 3, low: 0x80, high: 0xbf })
    } else if first == 0xf4 {
        Some(ScalarTail { count: 3, low: 0x80, high: 0x8f })
    } else {
        None
    }
}

fn scalar_tail(first: u8) -> (tail: Option<ScalarTail>)
    ensures
        tail == tail_of(first),
{
    match first {
        0x00..=0x7f => Some(ScalarTail { count: 0, low: 0x80, high: 0xbf }),
        0xc2..=0xdf => Some(ScalarTail { count: 1, low: 0x80, high: 0xbf }),
        0xe0 => Some(ScalarTail { count: 2, low: 0xa0, high: 0xbf }),
        0xe1..=0xec | 0xee..=0xef => Some(ScalarTail { count: 2, low: 0x80, high: 0xbf }),
        0xed => Some(ScalarTail { count: 2, low: 0x80, high: 0x9f }),
        0xf0 => Some(ScalarTail { count: 3, low: 0x90, high: 0xbf }),
        0xf1..=0xf3 => Some(ScalarTail { count: 3, low: 0x80, high: 0xbf }),
        0xf4 => Some(ScalarTail { count: 3, low: 0x80, high: 0x8f }),
        _ => None,
    }
}

/// The ranges of the bytes of a scalar are those of a well-formed encoding.
proof fn lemma_scalar_tail(bytes: Seq<u8>)
    requires
        bytes.len() > 0,
    ensures
        valid_first_scalar(bytes) <==> (tail_of(bytes[0]) matches Some(tail) && tail.follows(bytes)),
        tail_of(bytes[0]) matches Some(tail) ==> (tail.follows(bytes) ==> length_of_first_scalar(
            bytes,
        ) == tail.count + 1),
{
    let a = bytes[0];
    let b = bytes[1];
    let c = bytes[2];
    let d = bytes[3];
    assert(a <= 0x7f ==> (a & 0x7f) as u32 <= 0x7f) by (bit_vector);
    assert(0xc0 <= a <= 0xdf && 0x80 <= b <= 0xbf ==> {
        let v = ((a & 0x1f) as u32) << 6 | (b & 0x3f) as u32;
        (0x80 <= v <==> 0xc2 <= a) && v < 0x800
    }) by (bit_vector);
    assert(0xe0 <= a <= 0xef && 0x80 <= b <= 0xbf && 0x80 <= c <= 0xbf ==> {
        let v = ((a & 0x0f) as u32) << 12 | ((b & 0x3f) as u32) << 6 | (c & 0x3f) as u32;
        (0x800 <= v <==> !(a == 0xe0 && b < 0xa0)) && (0xd800 <= v <= 0xdfff <==> a == 0xed && b
            > 0x9f)
    }) by (bit_vector);
    assert(0xf0 <= a <= 0xf7 && 0x80 <= b <= 0xbf && 0x80 <= c <= 0xbf && 0x80 <= d <= 0xbf ==> {
        let v = ((a & 0x07) as u32) << 18 | ((b & 0x3f) as u32) << 12 | ((c & 0x3f) as u32) << 6 | (
        d & 0x3f) as u32;
        (0x10000 <= v <= 0x10ffff <==> a <= 0xf4 && !(a == 0xf0 && b < 0x90) && !(a == 0xf4 && b
            > 0x8f)) && (0xd800 <= v <= 0xdfff ==> v < 0x10000)
    }) by (bit_vector);
    if let Some(tail) = tail_of(a) {
        assert(tail.follows(bytes) <==> {
            &&& bytes.len() > tail.count
            &&& tail.count >= 1 ==> tail.low <= b <= tail.high
            &&& tail.count >= 2 ==> 0x80 <= c <= 0xbf
            &&& tail.count >= 3 ==> 0x80 <= d <= 0xbf
        }) by {
            if tail.follows(bytes) {
                assert(tail.count >= 1 ==> tail.allows(0, b));
                assert(tail.count >= 2 ==> tail.allows(1, c));
                assert(tail.count >= 3 ==> tail.allows(2, d));
            }
        }
    }
}

/// Checks that the quoted bytes, the backslash of each quoted pair taken away, are text.
pub fn valid_unescaped_utf8(raw: &[u8]) -> (valid: bool)
    ensures
        valid == valid_utf8(projection(raw@, 0)),
{
    let mut projected = ProjectedBytes { raw, offset: 0 };
    loop
        invariant
            valid_utf8(projection(raw@, 0)) == valid_utf8(projected.left()),
        decreases projected.left().len(),
    {
        let ghost scalar = projected.left();
        let first: u8 = match projected.next() {
            Some(first) => first,
            None => return true,
        };
        proof {
            lemma_scalar_tail(scalar);
            assert(scalar[0] == first);
        }
        let tail = match scalar_tail(first) {
            Some(tail) => tail,
            None => return false,
        };
        let mut place: usize = 0;
        assert(projected.left() =~= scalar.skip(1));
        while place < tail.count
            invariant
                    place <= tail.count <= 3,
                scalar.len() >= 1 + place,
                projected.left() == scalar.skip(1 + place),
                forall|k: int|
                    1 <= k <= place ==> tail.allows((k - 1) as usize, #[trigger] scalar[k]),
                tail_of(scalar[0]) == Some(tail),
                valid_first_scalar(scalar) <==> tail.follows(scalar),
                valid_utf8(projection(raw@, 0)) == valid_utf8(scalar),
            decreases tail.count - place,
        {
            let ghost before = projected.left();
            match projected.next() {
                None => {
                    return false;
                },
                Some(byte) => {
                    assert(before.len() > 0 && byte == before[0]);
                    assert(before[0] == scalar[place + 1]);
                    if !tail.allows(place, byte) {
                        return false;
                    }
                },
            }
            assert(projected.left() =~= before.skip(1));
            assert(before.skip(1) =~= scalar.skip(2 + place));
            place += 1;
        }
        assert(pop_first_scalar(scalar) =~= projected.left());
    }
}

/// The bytes that quoted bytes stand for, one after the other.
pub struct ProjectedBytes<'a> {
    pub raw: &'a [u8],
    pub offset: usize,
}

impl<'a> ProjectedBytes<'a> {
    /// The bytes that have not been handed out.
    pub open spec fn left(self) -> Seq<u8> {
        projection(self.raw@, self.offset as int)
    }

    pub fn next(&mut self) -> (byte: Option<u8>)
        ensures
            final(self).raw == old(self).raw,
            match byte {
                None => old(self).left().len() == 0 && final(self).left().len() == 0,
                Some(b) => old(self).left() == seq![b] + final(self).left(),
            },
    {
        if self.offset >= self.raw.len() {
            return None;
        }
        let byte: u8 = self.raw[self.offset];
        if byte != '\\' as u8 {
            self.offset += 1;
            return Some(byte);
        }
        if self.raw.len() - self.offset < 2 {
            self.offset = self.raw.len();
            return None;
        }
        let escaped: u8 = self.raw[self.offset + 1];
        self.offset += 2;
        Some(escaped)
    }
}

/// The third phase transforms only descriptors whose complete input was already proven valid.
fn materialize_extensions(line: &[u8], spans: &[u64]) -> (list: Vec<ChunkExtension>)
    requires
        forall|i: int| 0 <= i < spans@.len() ==> fits(#[trigger] spans@[i], line@),
    ensures
        extensions_of(list@) == all_spanned(spans@, line@),
{
    let mut list: Vec<ChunkExtension> = Vec::new();
    let mut index: usize = 0;
    let ghost wanted = all_spanned(spans@, line@);
    while index < spans.len()
        invariant
            index <= spans@.len(),
            wanted == all_spanned(spans@, line@),
            forall|i: int| 0 <= i < spans@.len() ==> fits(#[trigger] spans@[i], line@),
            extensions_of(list@) =~= wanted.take(index as int),
        decreases spans@.len() - index,
    {
        let extension = materialize_extension(line, spans[index]);
        let ghost before = extensions_of(list@);
        list.push(extension);
        assert(extensions_of(list@) =~= before.push(extension@));
        assert(wanted[index as int] == spanned(spans@[index as int], line@));
        index += 1;
    }
    assert(wanted.take(index as int) =~= wanted);
    list
}

fn materialize_extension(line: &[u8], span: u64) -> (extension: ChunkExtension)
    requires
        fits(span, line@),
    ensures
        extension@ == spanned(span, line@),
{
    let name: String = token_text(&line[unpack_offset(span, 0)..unpack_offset(span, 1)]);
    let value: Option<String> = if (span >> 44) & 1 == 0 {
        assert(!has_value(span));
        None
    } else {
        assert((span >> 44) & 1 == 0 || (span >> 44) & 1 == 1) by (bit_vector);
        let bytes: &[u8] = &line[unpack_offset(span, 2)..unpack_offset(span, 3)];
        if (span >> 45) & 1 == 0 {
            Some(plain_token(bytes))
        } else {
            assert((span >> 45) & 1 == 0 || (span >> 45) & 1 == 1) by (bit_vector);
            decode_text(unescape(bytes))
        }
    };
    ChunkExtension { name, value }
}

fn pack_span(
    name_start: usize,
    name_end: usize,
    value_start: usize,
    value_end: usize,
    valued: bool,
    quoted: bool,
) -> (span: u64)
    requires
        name_start < 2048,
        name_end < 2048,
        value_start < 2048,
        value_end < 2048,
    ensures
        offset_in(span, 0) == name_start,
        offset_in(span, 1) == name_end,
        offset_in(span, 2) == value_start,
        offset_in(span, 3) == value_end,
        has_value(span) == valued,
        is_quoted(span) == quoted,
{
    let a: u64 = name_start as u64;
    let b: u64 = name_end as u64;
    let c: u64 = value_start as u64;
    let d: u64 = value_end as u64;
    let v: u64 = if valued {
        1
    } else {
        0
    };
    let q: u64 = if quoted {
        1
    } else {
        0
    };
    let span: u64 = a | (b << 11) | (c << 22) | (d << 33) | (v << 44) | (q << 45);
    assert((span >> 0) & 0x7ff == a && (span >> 11) & 0x7ff == b && (span >> 22) & 0x7ff == c && (
    span >> 33) & 0x7ff == d && (span >> 44) & 1 == v && (span >> 45) & 1 == q) by (bit_vector)
        requires
            span == a | (b << 11) | (c << 22) | (d << 33) | (v << 44) | (q << 45),
            a < 2048,
            b < 2048,
            c < 2048,
            d < 2048,
            v <= 1,
            q <= 1,
    ;
    span
}

fn unpack_offset(span: u64, ordinal: u64) -> (offset: usize)
    requires
        ordinal < 4,
    ensures
        offset == offset_in(span, ordinal),
{
    let shift: u64 = 11 * ordinal;
    assert((span >> shift) & 0x7ff < 2048) by (bit_vector);
    ((span >> shift) & 0x7ff) as usize
}

} // verus!
