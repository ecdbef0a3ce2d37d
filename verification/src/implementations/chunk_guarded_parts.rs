//! Chunk parsing by parts, each guarded by what was checked before it.

use vstd::prelude::*;
use vstd::utf8::valid_utf8;
use crate::bytes::{
    ByteClass, all_bytes_in, all_in, find_in, find_out, first_in, is_control, lemma_first_in,
    lemma_first_in_unique,
};
use crate::chunk::{
    EXTENSION_MAX, EXTENSION_NAME_MAX, LINE_MAX, Quoting, SIZE_MAX, extension, extensions, framed,
    lemma_quote_end, list_outcome, parsed, quote_end, size_outcome, sized, unescaped, value,
};
use crate::decimal::clamp_to_usize;
use crate::hex::parse_hexadecimal;
use crate::text::{decode_text, plain_token, token_text, utf8};
use crate::types::{
    ChunkExtension, ChunkMeta, ExtensionModel, Fault, PolyguardError, Result, extensions_of,
    invalid_chunk, limit_exceeded, outcome,
};

verus! {

pub fn parse_chunk_metadata(input: &[u8]) -> (result: Result<ChunkMeta>)
    ensures
        outcome(result) == parsed(input@, Quoting::TextFirst),
{
    let (line, bytes_consumed) = validated_line(input)?;
    let (size_text, extension_text) = separate_size(line);
    let size: u64 = checked_size(size_text)?;
    let extensions = match extension_text {
        Some(text) => parse_extensions(text)?,
        None => {
            let none: Vec<ChunkExtension> = Vec::new();
            assert(extensions_of(none@) =~= Seq::<ExtensionModel>::empty());
            none
        },
    };
    Ok(ChunkMeta { size, extensions, bytes_consumed })
}

/// Establishes what every later step relies on: the returned slice is bounded, complete, and
/// contains no control bytes.
fn validated_line<'a>(input: &'a [u8]) -> (framed_line: Result<(&'a [u8], usize)>)
    ensures
        match framed_line {
            Ok((line, consumed)) => {
                &&& framed(input@) == Ok::<int, Fault>(line@.len() as int)
                &&& line@ == input@.subrange(0, line@.len() as int)
                &&& consumed == line@.len() + 2
            },
            Err(e) => framed(input@) == Err::<int, Fault>(e@),
        },
{
    let mut offset: usize = 0;
    while offset < input.len()
        invariant
            offset <= input@.len(),
            offset <= LINE_MAX,
            forall|j: int| 0 <= j < offset ==> !ByteClass::Control.has(#[trigger] input@[j]),
        decreases input@.len() - offset,
    {
        let byte: u8 = input[offset];
        proof {
            lemma_first_in(input@, ByteClass::Control);
            if ByteClass::Control.has(byte) {
                lemma_first_in_unique(input@, ByteClass::Control, offset as int);
            }
        }
        if byte == '\r' as u8 && offset + 1 < input.len() && input[offset + 1] == '\n' as u8 {
            return Ok((&input[0..offset], offset + 2));
        }
        if is_control(byte) {
            return Err(invalid_chunk("invalid_line_ending_or_control"));
        }
        if offset == LINE_MAX {
            return Err(limit_exceeded("chunk_line_bytes", LINE_MAX, offset + 1));
        }
        offset += 1;
    }
    proof {
        lemma_first_in_unique(input@, ByteClass::Control, offset as int);
    }
    Err(PolyguardError::Incomplete)
}

fn separate_size<'a>(line: &'a [u8]) -> (parts: (&'a [u8], Option<&'a [u8]>))
    ensures
        ({
            let size_end = first_in(line@, ByteClass::Only(';' as u8));
            &&& parts.0@ == line@.subrange(0, size_end)
            &&& match parts.1 {
                Some(rest) => size_end < line@.len() && rest@ == line@.skip(size_end + 1),
                None => size_end >= line@.len(),
            }
        }),
{
    let delimiter: usize = find_in(line, ByteClass::Only(';' as u8));
    if delimiter < line.len() {
        let rest: &'a [u8] = &line[delimiter + 1..line.len()];
        assert(rest@ =~= line@.skip(delimiter + 1));
        (&line[0..delimiter], Some(rest))
    } else {
        assert(line@ =~= line@.subrange(0, delimiter as int));
        (line, None)
    }
}

fn checked_size(text: &[u8]) -> (size: Result<u64>)
    ensures
        size_outcome(size) == sized(text@, false),
{
    if text.len() == 0 || text.len() > 16 || !all_bytes_in(text, ByteClass::Hex) {
        return Err(invalid_chunk("invalid_size"));
    }
    let size: u64 = parse_hexadecimal(text);
    if size > SIZE_MAX {
        return Err(limit_exceeded("chunk_size", SIZE_MAX as usize, clamp_to_usize(size)));
    }
    Ok(size)
}

fn parse_extensions(text: &[u8]) -> (list: Result<Vec<ChunkExtension>>)
    ensures
        list_outcome(list) == extensions(text@, Seq::empty(), Quoting::TextFirst),
{
    let mut rest: &[u8] = text;
    let mut list: Vec<ChunkExtension> = Vec::new();
    assert(extensions_of(list@) =~= Seq::<ExtensionModel>::empty());
    loop
        invariant
            list@.len() <= EXTENSION_MAX,
            extensions(text@, Seq::empty(), Quoting::TextFirst) == extensions(
                rest@,
                extensions_of(list@),
                Quoting::TextFirst,
            ),
        decreases rest@.len(),
    {
        if list.len() == EXTENSION_MAX {
            return Err(limit_exceeded("chunk_extensions", EXTENSION_MAX, EXTENSION_MAX + 1));
        }
        let (extension, remainder) = parse_extension(rest)?;
        let ghost before = extensions_of(list@);
        list.push(extension);
        assert(extensions_of(list@) =~= before.push(extension@));
        match remainder {
            Some(next) => {
                rest = next;
            },
            None => return Ok(list),
        }
    }
}

/// What is left of a text after what ends at `used`.
spec fn is_remainder(text: Seq<u8>, used: int, remainder: Option<&[u8]>) -> bool {
    match remainder {
        Some(rest) => 0 <= used < text.len() && rest@ == text.skip(used + 1),
        None => used == text.len(),
    }
}

fn parse_extension<'a>(text: &'a [u8]) -> (parsed_extension: Result<
    (ChunkExtension, Option<&'a [u8]>),
>)
    ensures
        match parsed_extension {
            Ok((found, remainder)) => match extension(text@, Quoting::TextFirst) {
                Ok((model, used)) => found@ == model && is_remainder(text@, used, remainder),
                Err(_) => false,
            },
            Err(e) => extension(text@, Quoting::TextFirst) == Err::<(ExtensionModel, int), Fault>(
                e@,
            ),
        },
{
    let name_end: usize = find_out(text, ByteClass::Token);
    if name_end == 0 || name_end > EXTENSION_NAME_MAX {
        return Err(invalid_chunk("invalid_extension_name"));
    }
    let name_bytes: &[u8] = &text[0..name_end];
    assert(all_in(name_bytes@, ByteClass::Token));
    let name: String = token_text(name_bytes);
    if name_end == text.len() {
        return Ok((ChunkExtension { name, value: None }, None));
    }
    let rest: &'a [u8] = &text[name_end + 1..text.len()];
    assert(rest@ =~= text@.skip(name_end + 1));
    match text[name_end] {
        0x3b => Ok((ChunkExtension { name, value: None }, Some(rest))),
        0x3d => {
            let (value, remainder) = parse_value(rest)?;
            proof {
                if let Some(after) = remainder {
                    let used = crate::chunk::value(rest@, Quoting::TextFirst)->Ok_0.1;
                    assert(after@ =~= text@.skip(name_end + 1 + used + 1));
                }
            }
            Ok((ChunkExtension { name, value: Some(value) }, remainder))
        },
        _ => Err(invalid_chunk("invalid_extension_name")),
    }
}

fn parse_value<'a>(text: &'a [u8]) -> (parsed_value: Result<(String, Option<&'a [u8]>)>)
    ensures
        match parsed_value {
            Ok((found, remainder)) => match value(text@, Quoting::TextFirst) {
                Ok((bytes, used)) => utf8(found@) == bytes && is_remainder(text@, used, remainder),
                Err(_) => false,
            },
            Err(e) => value(text@, Quoting::TextFirst) == Err::<(Seq<u8>, int), Fault>(e@),
        },
{
    if text.len() > 0 && text[0] == '"' as u8 {
        return parse_quoted_value(text);
    }
    let value_end: usize = find_out(text, ByteClass::Token);
    if value_end == 0 {
        return Err(invalid_chunk("invalid_extension_value"));
    }
    let value_bytes: &[u8] = &text[0..value_end];
    assert(all_in(value_bytes@, ByteClass::Token));
    let value: String = plain_token(value_bytes);
    if value_end == text.len() {
        return Ok((value, None));
    }
    if text[value_end] == ';' as u8 {
        let rest: &'a [u8] = &text[value_end + 1..text.len()];
        assert(rest@ =~= text@.skip(value_end + 1));
        Ok((value, Some(rest)))
    } else {
        Err(invalid_chunk("invalid_extension_value"))
    }
}

fn parse_quoted_value<'a>(text: &'a [u8]) -> (parsed_value: Result<(String, Option<&'a [u8]>)>)
    requires
        text@.len() > 0,
        text@[0] == '"' as u8,
    ensures
        match parsed_value {
            Ok((found, remainder)) => match value(text@, Quoting::TextFirst) {
                Ok((bytes, used)) => utf8(found@) == bytes && is_remainder(text@, used, remainder),
                Err(_) => false,
            },
            Err(e) => value(text@, Quoting::TextFirst) == Err::<(Seq<u8>, int), Fault>(e@),
        },
{
    let mut contents: Vec<u8> = Vec::new();
    let mut offset: usize = 1;
    let ghost closing = quote_end(text@, 1);
    assert(contents@ + unescaped(text@, 1, closing.unwrap()) =~= unescaped(
        text@,
        1,
        closing.unwrap(),
    ));
    while offset < text.len()
        invariant
            1 <= offset <= text@.len(),
            text@[0] == '"' as u8,
            closing == quote_end(text@, 1),
            closing == quote_end(text@, offset as int),
            closing matches Some(end) ==> contents@ + unescaped(text@, offset as int, end)
                == unescaped(text@, 1, end),
        decreases text@.len() - offset,
    {
        let byte: u8 = text[offset];
        proof {
            lemma_quote_end(text@, offset as int);
        }
        if byte == '\\' as u8 {
            proof {
                lemma_quote_end(text@, offset + 2);
            }
            if offset + 1 >= text.len() {
                return Err(invalid_chunk("invalid_quoted_string"));
            }
            let escaped: u8 = text[offset + 1];
            proof {
                if let Some(end) = closing {
                    assert(contents@.push(escaped) + unescaped(text@, offset + 2, end)
                        =~= contents@ + unescaped(text@, offset as int, end));
                }
            }
            contents.push(escaped);
            offset += 2;
            continue;
        }
        if byte == '"' as u8 {
            assert(contents@ =~= unescaped(text@, 1, offset as int));
            let value: String = match decode_text(contents) {
                Some(value) => value,
                None => return Err(invalid_chunk("invalid_quoted_string")),
            };
            if offset + 1 >= text.len() {
                return Ok((value, None));
            }
            if text[offset + 1] == ';' as u8 {
                let rest: &'a [u8] = &text[offset + 2..text.len()];
                assert(rest@ =~= text@.skip(offset + 2));
                return Ok((value, Some(rest)));
            }
            return Err(invalid_chunk("invalid_extension_value"));
        }
        proof {
            lemma_quote_end(text@, offset + 1);
            if let Some(end) = closing {
                assert(contents@.push(byte) + unescaped(text@, offset + 1, end) =~= contents@
                    + unescaped(text@, offset as int, end));
            }
        }
        contents.push(byte);
        offset += 1;
    }
    Err(invalid_chunk("invalid_quoted_string"))
}

} // verus!
