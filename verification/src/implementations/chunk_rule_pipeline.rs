//! Chunk parsing as a pipeline: raw extensions, cut out by rules on symbols, are then normalized.

use vstd::prelude::*;
use vstd::utf8::valid_utf8;
use crate::bytes::{
    ByteClass, all_bytes_in, all_in, find_in, find_out, first_in, first_out, is_control, is_token,
    lemma_first_in, lemma_first_in_unique, lowered,
};
use crate::chunk::{
    EXTENSION_MAX, EXTENSION_NAME_MAX, LINE_MAX, Quoting, SIZE_MAX, chunk_fault, contents,
    extension, extensions, find_closing_quote, framed, is_escaped, lemma_projection_is_contents,
    lemma_quote_end, lemma_quote_end_shifts, lemma_quoted_contents, line_extensions, parsed,
    projection, quote_end, size_outcome, sized,
};
use crate::decimal::clamp_to_usize;
use crate::hex::{hex_digit_value, hexadecimal, lemma_next_digit};
use crate::text::{decode_text, plain_token, token_text, utf8};
use crate::types::{
    ChunkExtension, ChunkMeta, ExtensionModel, Fault, PolyguardError, Result, Verdict,
    extensions_of, invalid_chunk, limit_exceeded, outcome,
};

verus! {

#[derive(Clone, Copy)]
struct FramedLine<'a> {
    content: &'a [u8],
    bytes_consumed: usize,
}

enum Boundary {
    Complete(usize),
    Invalid,
    OverLimit,
}

#[derive(Clone, Copy, PartialEq, Eq, Structural)]
enum Symbol {
    Token,
    Equals,
    Semicolon,
    Quote,
    Escape,
    Other,
}

enum RawValue<'a> {
    Token(&'a [u8]),
    Quoted(&'a [u8]),
}

struct RawExtension<'a> {
    name: &'a [u8],
    value: Option<RawValue<'a>>,
}

impl<'a> RawExtension<'a> {
    /// Whether the raw extension can be normalized.
    spec fn well_formed(self) -> bool {
        &&& all_in(self.name@, ByteClass::Token)
        &&& match self.value {
            Some(RawValue::Token(bytes)) => all_in(bytes@, ByteClass::Token),
            Some(RawValue::Quoted(bytes)) => is_escaped(bytes@),
            None => true,
        }
    }

    /// The extension that the raw extension stands for.
    spec fn normal(self) -> Verdict<ExtensionModel> {
        let name = lowered(self.name@);
        match self.value {
            None => Ok(ExtensionModel { name, value: None }),
            Some(RawValue::Token(bytes)) => Ok(ExtensionModel { name, value: Some(bytes@) }),
            Some(RawValue::Quoted(bytes)) => if valid_utf8(contents(bytes@)) {
                Ok(ExtensionModel { name, value: Some(contents(bytes@)) })
            } else {
                Err(chunk_fault("invalid_quoted_string"@))
            },
        }
    }
}

struct ExtensionPipeline<'a> {
    remaining: &'a [u8],
    failed: bool,
}

impl<'a> ExtensionPipeline<'a> {
    /// What remains is nothing, or begins with the delimiter of the next extension.
    spec fn well_formed(self) -> bool {
        self.remaining@.len() > 0 ==> self.remaining@[0] == ';' as u8
    }

    /// What a step that cuts an extension off a body leaves behind.
    spec fn cuts(self, body: Seq<u8>, raw: RawExtension<'a>) -> bool {
        let used = body.len() - self.remaining@.len();
        &&& self.well_formed()
        &&& 0 <= used
        &&& self.remaining@ == body.skip(used)
        &&& raw.well_formed()
        &&& extension(body, Quoting::EndFirst) == match raw.normal() {
            Ok(model) => Ok::<(ExtensionModel, int), Fault>((model, used)),
            Err(fault) => Err(fault),
        }
    }
}

pub fn parse_chunk_metadata(input: &[u8]) -> (result: Result<ChunkMeta>)
    ensures
        outcome(result) == parsed(input@, Quoting::EndFirst),
{
    let line = frame_line(input)?;
    let split: usize = find_in(line.content, ByteClass::Only(';' as u8));
    let size: u64 = parse_size(&line.content[0..split])?;
    let mut pipeline = ExtensionPipeline::new(&line.content[split..line.content.len()]);
    let mut list: Vec<ChunkExtension> = Vec::new();
    let ghost listed = line_extensions(line.content@, split as int, Quoting::EndFirst);
    proof {
        assert(extensions_of(list@) =~= Seq::<ExtensionModel>::empty());
        if split < line.content@.len() {
            assert(pipeline.remaining@.skip(1) =~= line.content@.skip(split + 1));
        }
    }
    while pipeline.remaining.len() > 0
        invariant
            pipeline.well_formed(),
            !pipeline.failed,
            list@.len() <= EXTENSION_MAX,
            framed(input@) == Ok::<int, Fault>(line.content@.len() as int),
            line.content@ == input@.subrange(0, line.content@.len() as int),
            line.bytes_consumed == line.content@.len() + 2,
            split == first_in(line.content@, ByteClass::Only(';' as u8)),
            sized(line.content@.subrange(0, split as int), false) == Ok::<u64, Fault>(size),
            listed == line_extensions(line.content@, split as int, Quoting::EndFirst),
            listed == if pipeline.remaining@.len() > 0 {
                extensions(pipeline.remaining@.skip(1), extensions_of(list@), Quoting::EndFirst)
            } else {
                Ok(extensions_of(list@))
            },
        decreases pipeline.remaining@.len(),
    {
        let ghost body = pipeline.remaining@.skip(1);
        let raw = match pipeline.next() {
            Some(raw) => raw,
            None => return Err(PolyguardError::Incomplete),
        };
        let index: usize = list.len();
        if index == EXTENSION_MAX {
            return Err(limit_exceeded("chunk_extensions", EXTENSION_MAX, index + 1));
        }
        let extension = normalize_extension(raw?)?;
        let ghost before = extensions_of(list@);
        list.push(extension);
        proof {
            assert(extensions_of(list@) =~= before.push(extension@));
            let used = body.len() - pipeline.remaining@.len();
            if pipeline.remaining@.len() > 0 {
                assert(pipeline.remaining@.skip(1) =~= body.skip(used + 1));
            }
        }
    }
    Ok(ChunkMeta { size, extensions: list, bytes_consumed: line.bytes_consumed })
}

fn frame_line<'a>(input: &'a [u8]) -> (line: Result<FramedLine<'a>>)
    ensures
        match line {
            Ok(l) => {
                &&& framed(input@) == Ok::<int, Fault>(l.content@.len() as int)
                &&& l.content@ == input@.subrange(0, l.content@.len() as int)
                &&& l.bytes_consumed == l.content@.len() + 2
            },
            Err(e) => framed(input@) == Err::<int, Fault>(e@),
        },
{
    match find_boundary(input) {
        Some(Boundary::Complete(end)) => Ok(
            FramedLine { content: &input[0..end], bytes_consumed: end + 2 },
        ),
        Some(Boundary::Invalid) => Err(invalid_chunk("invalid_line_ending_or_control")),
        Some(Boundary::OverLimit) => Err(
            limit_exceeded("chunk_line_bytes", LINE_MAX, LINE_MAX + 1),
        ),
        None => Err(PolyguardError::Incomplete),
    }
}

fn find_boundary(input: &[u8]) -> (boundary: Option<Boundary>)
    ensures
        framed(input@) == match boundary {
            Some(Boundary::Complete(end)) => Ok::<int, Fault>(end as int),
            Some(Boundary::Invalid) => Err(chunk_fault("invalid_line_ending_or_control"@)),
            Some(Boundary::OverLimit) => Err(
                Fault::LimitExceeded {
                    limit: "chunk_line_bytes"@,
                    max: LINE_MAX as int,
                    actual: LINE_MAX + 1,
                },
            ),
            None => Err(Fault::Incomplete),
        },
        boundary matches Some(Boundary::Complete(end)) ==> end + 1 < input@.len() <= usize::MAX,
{
    let total: usize = input.len();
    let mut index: usize = 0;
    while index < input.len() && index <= LINE_MAX
        invariant
            total == input@.len(),
            index <= input@.len(),
            index <= LINE_MAX,
            forall|j: int| 0 <= j < index ==> !ByteClass::Control.has(#[trigger] input@[j]),
        decreases input@.len() - index,
    {
        let byte: u8 = input[index];
        if is_control(byte) {
            proof {
                lemma_first_in_unique(input@, ByteClass::Control, index as int);
            }
            return if byte == '\r' as u8 && index + 1 < input.len() && input[index + 1]
                == '\n' as u8 {
                Some(Boundary::Complete(index))
            } else {
                Some(Boundary::Invalid)
            };
        }
        if index == LINE_MAX {
            proof {
                lemma_first_in(input@, ByteClass::Control);
            }
            return Some(Boundary::OverLimit);
        }
        index += 1;
    }
    proof {
        lemma_first_in_unique(input@, ByteClass::Control, index as int);
    }
    None
}

fn parse_size(bytes: &[u8]) -> (size: Result<u64>)
    ensures
        size_outcome(size) == sized(bytes@, false),
{
    if bytes.len() < 1 || bytes.len() > 16 || !all_bytes_in(bytes, ByteClass::Hex) {
        return Err(invalid_chunk("invalid_size"));
    }
    let mut value: u64 = 0;
    let mut index: usize = 0;
    while index < bytes.len()
        invariant
            1 <= bytes@.len() <= 16,
            index <= bytes@.len(),
            value == hexadecimal(bytes@.take(index as int)),
        decreases bytes@.len() - index,
    {
        proof {
            lemma_next_digit(bytes@, index as int);
        }
        let digit: u64 = hex_digit_value(bytes[index]) as u64;
        let shifted: u64 = match value.checked_mul(16) {
            Some(shifted) => shifted,
            None => return Err(invalid_chunk("invalid_size")),
        };
        value = match shifted.checked_add(digit) {
            Some(value) => value,
            None => return Err(invalid_chunk("invalid_size")),
        };
        index += 1;
    }
    assert(bytes@.take(index as int) =~= bytes@);
    if value > SIZE_MAX {
        return Err(limit_exceeded("chunk_size", SIZE_MAX as usize, clamp_to_usize(value)));
    }
    Ok(value)
}

impl<'a> ExtensionPipeline<'a> {
    fn new(remaining: &'a [u8]) -> (pipeline: Self)
        ensures
            pipeline.remaining == remaining,
            !pipeline.failed,
    {
        Self { remaining, failed: false }
    }

    /// The next extension in its raw form, or why there is none.
    fn next(&mut self) -> (step: Option<Result<RawExtension<'a>>>)
        requires
            old(self).well_formed(),
        ensures
            final(self).well_formed(),
            match step {
                None => (old(self).remaining@.len() == 0 || old(self).failed) && *final(self)
                    == *old(self),
                Some(Ok(raw)) => {
                    &&& old(self).remaining@.len() > 0
                    &&& !old(self).failed
                    &&& !final(self).failed
                    &&& final(self).cuts(old(self).remaining@.skip(1), raw)
                },
                Some(Err(e)) => {
                    &&& old(self).remaining@.len() > 0
                    &&& !old(self).failed
                    &&& final(self).failed
                    &&& final(self).remaining == old(self).remaining
                    &&& extension(old(self).remaining@.skip(1), Quoting::EndFirst) == Err::<
                        (ExtensionModel, int),
                        Fault,
                    >(e@)
                },
            },
    {
        if self.remaining.len() == 0 || self.failed {
            return None;
        }
        let result = self.parse_next();
        self.failed = result.is_err();
        Some(result)
    }

    fn parse_next(&mut self) -> (step: Result<RawExtension<'a>>)
        requires
            old(self).well_formed(),
            old(self).remaining@.len() > 0,
        ensures
            match step {
                Ok(raw) => final(self).cuts(old(self).remaining@.skip(1), raw),
                Err(e) => *final(self) == *old(self) && extension(
                    old(self).remaining@.skip(1),
                    Quoting::EndFirst,
                ) == Err::<(ExtensionModel, int), Fault>(e@),
            },
    {
        let body: &'a [u8] = &self.remaining[1..self.remaining.len()];
        assert(body@ =~= old(self).remaining@.skip(1));
        let name_end: usize = find_out(body, ByteClass::Token);
        let name: &'a [u8] = &body[0..name_end];
        assert(all_in(name@, ByteClass::Token));
        if name.len() < 1 || name.len() > EXTENSION_NAME_MAX {
            return Err(invalid_chunk("invalid_extension_name"));
        }
        if name_end == body.len() {
            self.remaining = &body[name_end..body.len()];
            assert(self.remaining@ =~= body@.skip(name_end as int));
            return Ok(RawExtension { name, value: None });
        }
        match classify(body[name_end]) {
            Symbol::Semicolon => {
                self.remaining = &body[name_end..body.len()];
                assert(self.remaining@ =~= body@.skip(name_end as int));
                Ok(RawExtension { name, value: None })
            },
            Symbol::Equals => {
                let text: &'a [u8] = &body[name_end + 1..body.len()];
                assert(text@ =~= body@.skip(name_end + 1));
                self.parse_value(name, text, Ghost(body@))
            },
            _ => Err(invalid_chunk("invalid_extension_name")),
        }
    }

    fn parse_value(&mut self, name: &'a [u8], bytes: &'a [u8], Ghost(body): Ghost<Seq<u8>>) -> (step:
        Result<RawExtension<'a>>)
        requires
            has_value(body, name@, bytes@),
        ensures
            match step {
                Ok(raw) => final(self).cuts(body, raw),
                Err(e) => *final(self) == *old(self) && extension(body, Quoting::EndFirst) == Err::<
                    (ExtensionModel, int),
                    Fault,
                >(e@),
            },
    {
        if bytes.len() > 0 && bytes[0] == '"' as u8 {
            return self.parse_quoted(name, bytes, Ghost(body));
        }
        let value_end: usize = find_out(bytes, ByteClass::Token);
        if value_end == 0 {
            return Err(invalid_chunk("invalid_extension_value"));
        }
        if value_end < bytes.len() && !matches!(classify(bytes[value_end]), Symbol::Semicolon) {
            return Err(invalid_chunk("invalid_extension_value"));
        }
        self.remaining = &bytes[value_end..bytes.len()];
        assert(self.remaining@ =~= body.skip(name@.len() + 1 + value_end));
        let value: &'a [u8] = &bytes[0..value_end];
        assert(all_in(value@, ByteClass::Token));
        Ok(RawExtension { name, value: Some(RawValue::Token(value)) })
    }

    fn parse_quoted(&mut self, name: &'a [u8], text: &'a [u8], Ghost(body): Ghost<Seq<u8>>) -> (step:
        Result<RawExtension<'a>>)
        requires
            has_value(body, name@, text@),
            text@.len() > 0,
            text@[0] == '"' as u8,
        ensures
            match step {
                Ok(raw) => final(self).cuts(body, raw),
                Err(e) => *final(self) == *old(self) && extension(body, Quoting::EndFirst) == Err::<
                    (ExtensionModel, int),
                    Fault,
                >(e@),
            },
    {
        let bytes: &'a [u8] = &text[1..text.len()];
        proof {
            assert(bytes@ =~= text@.skip(1));
            lemma_quote_end_shifts(text@, 1, 0);
        }
        let closing: usize = match find_closing_quote(bytes) {
            Some(closing) => closing,
            None => return Err(invalid_chunk("invalid_quoted_string")),
        };
        proof {
            lemma_quoted_contents(text@, 1, closing + 1);
        }
        let after_quote: &'a [u8] = &bytes[closing + 1..bytes.len()];
        if after_quote.len() > 0 && !matches!(classify(after_quote[0]), Symbol::Semicolon) {
            assert(after_quote@[0] == text@[closing + 2]);
            return Err(invalid_chunk("invalid_extension_value"));
        }
        self.remaining = after_quote;
        let raw: &'a [u8] = &bytes[0..closing];
        proof {
            if after_quote@.len() > 0 {
                assert(after_quote@[0] == text@[closing + 2]);
            }
            assert(self.remaining@ =~= body.skip(name@.len() + 1 + closing + 2));
            assert(raw@ =~= text@.subrange(1, closing + 1));
        }
        Ok(RawExtension { name, value: Some(RawValue::Quoted(raw)) })
    }
}

/// A body that begins with a checked name and an equals sign, with the value's text after them.
spec fn has_value(body: Seq<u8>, name: Seq<u8>, text: Seq<u8>) -> bool {
    let end = first_out(body, ByteClass::Token);
    &&& 1 <= end <= EXTENSION_NAME_MAX
    &&& end < body.len()
    &&& body[end] == '=' as u8
    &&& name == body.subrange(0, end)
    &&& name.len() == end
    &&& all_in(name, ByteClass::Token)
    &&& text == body.skip(end + 1)
}

fn normalize_extension(raw: RawExtension<'_>) -> (normalized: Result<ChunkExtension>)
    requires
        raw.well_formed(),
    ensures
        outcome(normalized) == raw.normal(),
{
    let name: String = token_text(raw.name);
    let value: Option<String> = match raw.value {
        None => None,
        Some(RawValue::Token(bytes)) => Some(plain_token(bytes)),
        Some(RawValue::Quoted(bytes)) => {
            proof {
                lemma_escaped_is_paired(bytes@, 0);
                lemma_projection_is_contents(bytes@, 0);
            }
            Some(unescape_quoted(bytes)?)
        },
    };
    Ok(ChunkExtension { name, value })
}

/// Whether every backslash from `i` on has a byte to pair with.
pub open spec fn is_paired(bytes: Seq<u8>, i: int) -> bool
    decreases bytes.len() - i,
{
    if i >= bytes.len() {
        true
    } else if bytes[i] == '\\' as u8 {
        i + 1 < bytes.len() && is_paired(bytes, i + 2)
    } else {
        is_paired(bytes, i + 1)
    }
}

/// What can stand between quotes has no backslash without a byte to pair with.
proof fn lemma_escaped_is_paired(raw: Seq<u8>, i: int)
    requires
        0 <= i,
        quote_end(raw.push('"' as u8), i) == Some(raw.len() as int),
    ensures
        is_paired(raw, i),
    decreases raw.len() - i,
{
    let quoted = raw.push('"' as u8);
    if i < raw.len() {
        assert(quoted[i] == raw[i]);
        if raw[i] == '\\' as u8 {
            lemma_quote_end(quoted, i + 2);
            lemma_escaped_is_paired(raw, i + 2);
        } else {
            lemma_escaped_is_paired(raw, i + 1);
        }
    }
}

/// The text of quoted bytes, the backslash of each quoted pair taken away.
pub fn unescape_quoted(bytes: &[u8]) -> (text: Result<String>)
    ensures
        match text {
            Ok(t) => {
                &&& is_paired(bytes@, 0)
                &&& valid_utf8(projection(bytes@, 0))
                &&& utf8(t@) == projection(bytes@, 0)
            },
            Err(e) => {
                &&& !is_paired(bytes@, 0) || !valid_utf8(projection(bytes@, 0))
                &&& e@ == chunk_fault("invalid_quoted_string"@)
            },
        },
{
    let mut output: Vec<u8> = Vec::new();
    let mut index: usize = 0;
    assert(output@ + projection(bytes@, 0) =~= projection(bytes@, 0));
    while index < bytes.len()
        invariant
            index <= bytes@.len(),
            is_paired(bytes@, 0) == is_paired(bytes@, index as int),
            output@ + projection(bytes@, index as int) == projection(bytes@, 0),
        decreases bytes@.len() - index,
    {
        let ghost before = output@;
        let byte: u8 = bytes[index];
        if matches!(classify(byte), Symbol::Escape) {
            if bytes.len() - index < 2 {
                return Err(invalid_chunk("invalid_quoted_string"));
            }
            output.push(bytes[index + 1]);
            assert(output@ + projection(bytes@, index + 2) =~= before + projection(
                bytes@,
                index as int,
            ));
            index += 2;
        } else {
            output.push(byte);
            assert(output@ + projection(bytes@, index + 1) =~= before + projection(
                bytes@,
                index as int,
            ));
            index += 1;
        }
    }
    assert(output@ + projection(bytes@, index as int) =~= output@);
    match decode_text(output) {
        Some(text) => Ok(text),
        None => Err(invalid_chunk("invalid_quoted_string")),
    }
}

fn classify(byte: u8) -> (symbol: Symbol)
    ensures
        symbol == if byte == '=' as u8 {
            Symbol::Equals
        } else if byte == ';' as u8 {
            Symbol::Semicolon
        } else if byte == '"' as u8 {
            Symbol::Quote
        } else if byte == '\\' as u8 {
            Symbol::Escape
        } else if is_token(byte) {
            Symbol::Token
        } else {
            Symbol::Other
        },
{
    match byte {
        0x3d => Symbol::Equals,
        0x3b => Symbol::Semicolon,
        0x22 => Symbol::Quote,
        0x5c => Symbol::Escape,
        _ => if is_token(byte) {
            Symbol::Token
        } else {
            Symbol::Other
        },
    }
}

} // verus!
