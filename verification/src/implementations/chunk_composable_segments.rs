//! Chunk parsing over segments, which are cut before any of them is looked at.

use vstd::prelude::*;
use crate::bytes::{
    ByteClass, all_bytes_in, all_in, find_in, first_in, first_out, is_control, lemma_first_from,
    lemma_first_from_unique, lemma_first_in, lemma_first_in_unique, lemma_first_out,
    lemma_first_out_unique,
};
use crate::chunk::{
    EXTENSION_MAX, EXTENSION_NAME_MAX, LINE_MAX, Quoting, SIZE_MAX, extension, extensions, framed,
    lemma_first_segment, lemma_quote_end, lemma_quote_end_shifts, line_extensions, list_outcome,
    parsed_in_segments, quote_end, segment_count, segment_end, size_outcome, sized,
    too_many_extensions, unescaped, value,
};
use crate::decimal::clamp_to_usize;
use crate::hex::parse_hexadecimal;
use crate::text::{decode_text, plain_token, token_text, utf8};
use crate::types::{
    ChunkExtension, ChunkMeta, ExtensionModel, Fault, PolyguardError, Result, extensions_of,
    invalid_chunk, limit_exceeded, outcome,
};

verus! {

struct LineLayout {
    separators: Vec<usize>,
}

/// The separator after the one at `separator`, or the end of the line.
spec fn next_separator(line: Seq<u8>, separator: int) -> int {
    separator + 1 + segment_end(line.skip(separator + 1))
}

/// Whether a segment ends where the next one begins, or at the end of the line.
spec fn linked(line: Seq<u8>, separators: Seq<usize>, ordinal: int) -> bool {
    next_separator(line, separators[ordinal] as int) == if ordinal + 1 < separators.len() {
        separators[ordinal + 1] as int
    } else {
        line.len() as int
    }
}

impl LineLayout {
    /// Whether the layout holds the separators of the line, from `size_end` on.
    spec fn maps(self, line: Seq<u8>, size_end: int) -> bool {
        let separators = self.separators@;
        &&& separators.len() <= EXTENSION_MAX
        &&& separators.len() == 0 <==> size_end >= line.len()
        &&& separators.len() > 0 ==> separators[0] == size_end
        &&& forall|i: int| 0 <= i < separators.len() ==> (#[trigger] separators[i]) < line.len()
        &&& forall|i: int| 0 <= i < separators.len() ==> #[trigger] linked(line, separators, i)
    }
}

pub fn parse_chunk_metadata(input: &[u8]) -> (result: Result<ChunkMeta>)
    ensures
        outcome(result) == parsed_in_segments(input@),
{
    let (line, bytes_consumed) = bounded_line(input)?;
    let size_end: usize = find_in(line, ByteClass::Only(';' as u8));
    let size: u64 = parse_size(&line[0..size_end])?;
    let layout = map_extension_separators(line, size_end)?;
    let extensions = transform_extensions(line, &layout, Ghost(size_end as int))?;
    Ok(ChunkMeta { size, extensions, bytes_consumed })
}

fn bounded_line<'a>(input: &'a [u8]) -> (framed_line: Result<(&'a [u8], usize)>)
    ensures
        match framed_line {
            Ok((line, consumed)) => {
                &&& framed(input@) == Ok::<int, Fault>(line@.len() as int)
                &&& line@ == input@.subrange(0, line@.len() as int)
                &&& consumed == line@.len() + 2
            },
            Err(e) => framed(input@) == Err::<int, Fault>(e@),
        },
{
    let mut offset: usize = 0;
    while offset < input.len()
        invariant
            offset <= input@.len(),
            offset <= LINE_MAX,
            forall|j: int| 0 <= j < offset ==> !ByteClass::Control.has(#[trigger] input@[j]),
        decreases input@.len() - offset,
    {
        let byte: u8 = input[offset];
        proof {
            lemma_first_in(input@, ByteClass::Control);
            if ByteClass::Control.has(byte) {
                lemma_first_in_unique(input@, ByteClass::Control, offset as int);
            }
        }
        if byte == '\r' as u8 && offset + 1 < input.len() && input[offset + 1] == '\n' as u8 {
            return Ok((&input[0..offset], offset + 2));
        }
        if is_control(byte) {
            return Err(invalid_chunk("invalid_line_ending_or_control"));
        }
        if offset == LINE_MAX {
            return Err(limit_exceeded("chunk_line_bytes", LINE_MAX, LINE_MAX + 1));
        }
        offset += 1;
    }
    proof {
        lemma_first_in_unique(input@, ByteClass::Control, offset as int);
    }
    Err(PolyguardError::Incomplete)
}

/// Whether a segment begins with a name, an equals sign and a quote.
spec fn is_quoted_head(text: Seq<u8>) -> bool {
    let end = first_out(text, ByteClass::Token);
    &&& 1 <= end <= EXTENSION_NAME_MAX
    &&& end + 1 < text.len()
    &&& text[end] == '=' as u8
    &&& text[end + 1] == '"' as u8
}

/// Whether a byte string holds no semicolon between `from` and `upto`.
spec fn no_semicolon(text: Seq<u8>, from: int, upto: int) -> bool {
    forall|j: int| from <= j < upto ==> #[trigger] text[j] != ';' as u8
}

/// What is known of a segment that has been scanned up to `i`.
spec fn scanned(text: Seq<u8>, i: int, quoted: bool, escaped: bool) -> bool {
    let opened = first_out(text, ByteClass::Token) + 2;
    if is_quoted_head(text) && opened <= i {
        let closing = quote_end(text, opened);
        if quoted {
            closing == quote_end(
                text,
                if escaped {
                    i + 1
                } else {
                    i
                },
            )
        } else {
            !escaped && (closing matches Some(end) && end < i && no_semicolon(text, end + 1, i))
        }
    } else {
        !quoted && !escaped && no_semicolon(text, 0, i)
    }
}

/// Where a segment ends, from what the scan of it found.
proof fn lemma_scanned(text: Seq<u8>, i: int, quoted: bool, escaped: bool)
    requires
        0 <= i <= text.len(),
        scanned(text, i, quoted, escaped),
        i == text.len() || (!quoted && text[i] == ';' as u8),
    ensures
        segment_end(text) == i,
{
    let semicolon = ByteClass::Only(';' as u8);
    let end = first_out(text, ByteClass::Token);
    lemma_first_out(text, ByteClass::Token);
    if is_quoted_head(text) {
        if i < end {
            assert(ByteClass::Token.has(text[i]));
        }
        assert(end + 2 <= i);
        lemma_quote_end(text, end + 2);
        if let Some(quote) = quote_end(text, end + 2) {
            if !quoted {
                lemma_first_from_unique(text, semicolon, quote + 1, i);
            }
        }
    } else {
        lemma_first_from_unique(text, semicolon, 0, i);
    }
}

/// Records only the semicolons that separate extensions. Those protected by a syntactically
/// possible quoted value remain ordinary value bytes.
fn map_extension_separators(line: &[u8], first_separator: usize) -> (mapped: Result<LineLayout>)
    requires
        first_separator == first_in(line@, ByteClass::Only(';' as u8)),
        first_separator <= line@.len(),
    ensures
        match mapped {
            Ok(layout) => {
                &&& layout.maps(line@, first_separator as int)
                &&& first_separator < line@.len() ==> segment_count(
                    line@.skip(first_separator + 1),
                ) <= EXTENSION_MAX
            },
            Err(e) => {
                &&& first_separator < line@.len()
                &&& segment_count(line@.skip(first_separator + 1)) > EXTENSION_MAX
                &&& e@ == too_many_extensions()
            },
        },
{
    let mut separators: Vec<usize> = Vec::new();
    if first_separator >= line.len() {
        return Ok(LineLayout { separators });
    }
    separators.push(first_separator);
    let mut segment_start: usize = first_separator + 1;
    let mut quoted: bool = false;
    let mut escaped: bool = false;
    let mut offset: usize = segment_start;
    let ghost whole = segment_count(line@.skip(first_separator + 1));
    while offset < line.len()
        invariant
            first_separator < segment_start <= offset <= line@.len(),
            1 <= separators@.len() <= EXTENSION_MAX,
            separators@[0] == first_separator,
            separators@.last() == segment_start - 1,
            forall|i: int| 0 <= i < separators@.len() ==> (#[trigger] separators@[i]) < line@.len(),
            forall|i: int|
                0 <= i < separators@.len() - 1 ==> #[trigger] linked(line@, separators@, i),
            whole == segment_count(line@.skip(first_separator + 1)),
            whole == separators@.len() - 1 + segment_count(line@.skip(segment_start as int)),
            scanned(
                line@.skip(segment_start as int),
                offset - segment_start,
                quoted,
                escaped,
            ),
        decreases line@.len() - offset,
    {
        let byte: u8 = line[offset];
        let ghost text = line@.skip(segment_start as int);
        let ghost i = offset - segment_start;
        let ghost end = first_out(text, ByteClass::Token);
        proof {
            assert(text[i] == byte);
            lemma_first_out(text, ByteClass::Token);
            lemma_quote_end(text, end + 2);
        }
        if quoted {
            if escaped {
                escaped = false;
            } else if byte == '\\' as u8 {
                escaped = true;
            } else if byte == '"' as u8 {
                quoted = false;
            }
            offset += 1;
            continue;
        }
        if byte == '"' as u8 && offset > segment_start && line[offset - 1] == '=' as u8
            && valid_name(&line[segment_start..offset - 1]) {
            proof {
                let name = line@.subrange(segment_start as int, offset - 1);
                assert forall|j: int| 0 <= j < i - 1 implies ByteClass::Token.has(
                    #[trigger] text[j],
                ) by {
                    assert(name[j] == text[j]);
                }
                assert(text[i - 1] == '=' as u8);
                lemma_first_out_unique(text, ByteClass::Token, i - 1);
            }
            quoted = true;
            offset += 1;
            continue;
        }
        proof {
            if is_quoted_head(text) && i == end + 1 {
                let name = line@.subrange(segment_start as int, offset - 1);
                assert forall|j: int| 0 <= j < name.len() implies ByteClass::Token.has(
                    #[trigger] name[j],
                ) by {
                    assert(name[j] == text[j]);
                }
                assert(line@[offset - 1] == text[i - 1]);
            }
        }
        if byte != ';' as u8 {
            offset += 1;
            continue;
        }
        proof {
            lemma_scanned(text, i, quoted, escaped);
            assert(text.skip(i + 1) =~= line@.skip(offset + 1));
            assert(segment_count(line@.skip(offset + 1)) >= 1);
        }
        if separators.len() == EXTENSION_MAX {
            return Err(limit_exceeded("chunk_extensions", EXTENSION_MAX, EXTENSION_MAX + 1));
        }
        let ghost before = separators@;
        separators.push(offset);
        proof {
            assert forall|k: int| 0 <= k < separators@.len() - 1 implies #[trigger] linked(
                line@,
                separators@,
                k,
            ) by {
                if k < before.len() - 1 {
                    assert(linked(line@, before, k));
                }
            }
        }
        segment_start = offset + 1;
        offset += 1;
    }
    proof {
        let text = line@.skip(segment_start as int);
        lemma_scanned(text, offset - segment_start, quoted, escaped);
        assert(linked(line@, separators@, separators@.len() - 1));
        assert forall|k: int| 0 <= k < separators@.len() implies #[trigger] linked(
            line@,
            separators@,
            k,
        ) by {}
    }
    Ok(LineLayout { separators })
}

fn parse_size(digits: &[u8]) -> (size: Result<u64>)
    ensures
        size_outcome(size) == sized(digits@, false),
{
    if digits.len() < 1 || digits.len() > 16 || !all_bytes_in(digits, ByteClass::Hex) {
        return Err(invalid_chunk("invalid_size"));
    }
    let size: u64 = parse_hexadecimal(digits);
    if size > SIZE_MAX {
        return Err(limit_exceeded("chunk_size", SIZE_MAX as usize, clamp_to_usize(size)));
    }
    Ok(size)
}

fn transform_extensions(
    line: &[u8],
    layout: &LineLayout,
    Ghost(size_end): Ghost<int>,
) -> (transformed: Result<Vec<ChunkExtension>>)
    requires
        0 <= size_end,
        layout.maps(line@, size_end),
    ensures
        list_outcome(transformed) == line_extensions(line@, size_end, Quoting::EndFirst),
{
    let mut list: Vec<ChunkExtension> = Vec::new();
    let mut ordinal: usize = 0;
    let ghost wanted = line_extensions(line@, size_end, Quoting::EndFirst);
    let ghost separators = layout.separators@;
    assert(extensions_of(list@) =~= Seq::<ExtensionModel>::empty());
    while ordinal < layout.separators.len()
        invariant
            separators == layout.separators@,
            layout.maps(line@, size_end),
            ordinal <= separators.len(),
            list@.len() == ordinal,
            wanted == line_extensions(line@, size_end, Quoting::EndFirst),
            wanted == if ordinal < separators.len() {
                extensions(
                    line@.skip(separators[ordinal as int] + 1),
                    extensions_of(list@),
                    Quoting::EndFirst,
                )
            } else {
                Ok(extensions_of(list@))
            },
        decreases separators.len() - ordinal,
    {
        let line_end: usize = line.len();
        let start: usize = layout.separators[ordinal] + 1;
        let end: usize = if ordinal + 1 < layout.separators.len() {
            layout.separators[ordinal + 1]
        } else {
            line_end
        };
        let ghost text = line@.skip(start as int);
        proof {
            assert(linked(line@, separators, ordinal as int));
            lemma_first_segment(text);
            assert(text.take(end - start) =~= line@.subrange(start as int, end as int));
        }
        let extension = transform_extension(&line[start..end])?;
        let ghost before = extensions_of(list@);
        list.push(extension);
        proof {
            assert(extensions_of(list@) =~= before.push(extension@));
            if ordinal + 1 < separators.len() {
                assert(text.skip(end - start + 1) =~= line@.skip(end + 1));
            }
        }
        ordinal += 1;
    }
    Ok(list)
}

fn transform_extension(segment: &[u8]) -> (transformed: Result<ChunkExtension>)
    requires
        segment_end(segment@) == segment@.len(),
    ensures
        match extension(segment@, Quoting::EndFirst) {
            Ok((model, _)) => transformed is Ok && transformed->Ok_0@ == model,
            Err(fault) => transformed is Err && transformed->Err_0@ == fault,
        },
{
    let ghost equals_sign = ByteClass::Only('=' as u8);
    let ghost semicolon = ByteClass::Only(';' as u8);
    let ghost end = first_out(segment@, ByteClass::Token);
    let equals: usize = find_in(segment, ByteClass::Only('=' as u8));
    let name_bytes: &[u8] = &segment[0..equals];
    proof {
        lemma_first_out(segment@, ByteClass::Token);
        lemma_first_from(segment@, semicolon, 0);
        if all_in(name_bytes@, ByteClass::Token) {
            assert forall|j: int| 0 <= j < equals implies ByteClass::Token.has(
                #[trigger] segment@[j],
            ) by {
                assert(name_bytes@[j] == segment@[j]);
            }
            lemma_first_out_unique(segment@, ByteClass::Token, equals as int);
        } else {
            let j = choose|j: int|
                0 <= j < name_bytes@.len() && !ByteClass::Token.has(#[trigger] name_bytes@[j]);
            assert(!ByteClass::Token.has(segment@[j]));
            assert(end < equals);
            assert(!equals_sign.has(segment@[end]));
            assert(!is_quoted_head(segment@));
            assert(!semicolon.has(segment@[end]));
        }
    }
    if !valid_name(name_bytes) {
        return Err(invalid_chunk("invalid_extension_name"));
    }
    let name: String = token_text(name_bytes);
    if equals == segment.len() {
        return Ok(ChunkExtension { name, value: None });
    }
    let text: &[u8] = &segment[equals + 1..segment.len()];
    proof {
        assert(text@ =~= segment@.skip(end + 1));
        lemma_quote_end_shifts(segment@, end + 1, 1);
        lemma_quote_end(segment@, end + 2);
        if is_quoted_head(segment@) {
            if let Some(quote) = quote_end(segment@, end + 2) {
                lemma_first_from(segment@, semicolon, quote + 1);
                assert forall|j: int| quote - end <= j < text@.len() implies #[trigger] text@[j]
                    != ';' as u8 by {
                    assert(!semicolon.has(segment@[end + 1 + j]));
                }
            }
        } else {
            assert forall|j: int| 0 <= j < text@.len() implies #[trigger] text@[j]
                != ';' as u8 by {
                assert(!semicolon.has(segment@[end + 1 + j]));
            }
        }
    }
    let value: String = transform_value(text)?;
    Ok(ChunkExtension { name, value: Some(value) })
}

/// Whether a value's text goes on to the end of its segment.
spec fn is_alone(text: Seq<u8>) -> bool {
    if text.len() > 0 && text[0] == '"' as u8 {
        quote_end(text, 1) matches Some(end) ==> no_semicolon(text, end + 1, text.len() as int)
    } else {
        no_semicolon(text, 0, text.len() as int)
    }
}

/// What the result of reading a value stands for, its length aside.
spec fn is_value(result: Result<String>, text: Seq<u8>) -> bool {
    match value(text, Quoting::EndFirst) {
        Ok((bytes, _)) => result is Ok && utf8(result->Ok_0@) == bytes,
        Err(fault) => result is Err && result->Err_0@ == fault,
    }
}

fn transform_value(value: &[u8]) -> (text: Result<String>)
    requires
        is_alone(value@),
    ensures
        is_value(text, value@),
{
    if value.len() > 0 && value[0] == '"' as u8 {
        return unquote(value);
    }
    proof {
        lemma_first_out(value@, ByteClass::Token);
        let end = first_out(value@, ByteClass::Token);
        assert(value@.subrange(0, value@.len() as int) =~= value@);
        if all_in(value@, ByteClass::Token) {
            lemma_first_out_unique(value@, ByteClass::Token, value@.len() as int);
        } else {
            assert(end < value@.len());
        }
    }
    if value.len() == 0 || !all_bytes_in(value, ByteClass::Token) {
        return Err(invalid_chunk("invalid_extension_value"));
    }
    Ok(plain_token(value))
}

fn unquote(value: &[u8]) -> (text: Result<String>)
    requires
        value@.len() > 0,
        value@[0] == '"' as u8,
        is_alone(value@),
    ensures
        is_value(text, value@),
{
    let mut decoded: Vec<u8> = Vec::new();
    let mut offset: usize = 1;
    let ghost closing = quote_end(value@, 1);
    assert(decoded@ + unescaped(value@, 1, closing.unwrap()) =~= unescaped(
        value@,
        1,
        closing.unwrap(),
    ));
    while offset < value.len()
        invariant
            1 <= offset <= value@.len(),
            value@[0] == '"' as u8,
            is_alone(value@),
            closing == quote_end(value@, 1),
            closing == quote_end(value@, offset as int),
            closing matches Some(end) ==> decoded@ + unescaped(value@, offset as int, end)
                == unescaped(value@, 1, end),
        decreases value@.len() - offset,
    {
        let byte: u8 = value[offset];
        proof {
            lemma_quote_end(value@, offset as int);
        }
        if byte == '\\' as u8 {
            proof {
                lemma_quote_end(value@, offset + 2);
            }
            if offset + 1 >= value.len() {
                return Err(invalid_chunk("invalid_quoted_string"));
            }
            let escaped: u8 = value[offset + 1];
            proof {
                if let Some(end) = closing {
                    assert(decoded@.push(escaped) + unescaped(value@, offset + 2, end)
                        =~= decoded@ + unescaped(value@, offset as int, end));
                }
            }
            decoded.push(escaped);
            offset += 2;
        } else if byte == '"' as u8 {
            if offset + 1 == value.len() {
                assert(decoded@ =~= unescaped(value@, 1, offset as int));
                return match decode_text(decoded) {
                    Some(text) => Ok(text),
                    None => Err(invalid_chunk("invalid_quoted_string")),
                };
            }
            assert(value@[offset + 1] != ';' as u8);
            return Err(invalid_chunk("invalid_extension_value"));
        } else {
            proof {
                lemma_quote_end(value@, offset + 1);
                if let Some(end) = closing {
                    assert(decoded@.push(byte) + unescaped(value@, offset + 1, end) =~= decoded@
                        + unescaped(value@, offset as int, end));
                }
            }
            decoded.push(byte);
            offset += 1;
        }
    }
    Err(invalid_chunk("invalid_quoted_string"))
}

fn valid_name(name: &[u8]) -> (valid: bool)
    ensures
        valid == (1 <= name@.len() <= EXTENSION_NAME_MAX && all_in(name@, ByteClass::Token)),
{
    1 <= name.len() && name.len() <= EXTENSION_NAME_MAX && all_bytes_in(name, ByteClass::Token)
}

} // verus!
