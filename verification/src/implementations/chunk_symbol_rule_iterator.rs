//! Chunk parsing by an iteration over extensions, with one rule for each class of symbols.

use vstd::prelude::*;
use crate::bytes::{
    ByteClass, all_in, find_in, find_out, first_in, is_control, lemma_first_in,
    lemma_first_in_unique, lowered,
};
use crate::chunk::{
    EXTENSION_MAX, EXTENSION_NAME_MAX, LINE_MAX, Quoting, SIZE_MAX, chunk_fault, contents,
    extension, extensions, framed, is_escaped, lemma_printable_contents, lemma_quote_end,
    lemma_quote_end_shifts, lemma_quoted_contents, line_extensions, parsed, quote_end,
    size_outcome, sized, unescape,
};
use crate::hex::{hex_digit_value, hexadecimal, lemma_next_digit};
use crate::text::{ascii_text, plain_token, token_text};
use crate::types::{
    ChunkExtension, ChunkMeta, ExtensionModel, Fault, PolyguardError, Result, extensions_of,
    invalid_chunk, limit_exceeded, outcome,
};

verus! {

#[derive(Clone, Copy, PartialEq, Eq, Structural)]
enum GrammarClass {
    HexDigit,
    Token,
    QuotedUnit,
}

impl GrammarClass {
    /// The bytes of the class.
    #[verifier::allow_in_spec]
    fn bytes(self) -> ByteClass
        returns
            match self {
                GrammarClass::HexDigit => ByteClass::Hex,
                GrammarClass::Token => ByteClass::Token,
                GrammarClass::QuotedUnit => ByteClass::Printable,
            },
    {
        match self {
            GrammarClass::HexDigit => ByteClass::Hex,
            GrammarClass::Token => ByteClass::Token,
            GrammarClass::QuotedUnit => ByteClass::Printable,
        }
    }
}

fn accepts(class: GrammarClass, byte: u8) -> (accepted: bool)
    ensures
        accepted == class.bytes().has(byte),
{
    class.bytes().has(byte)
}

enum LineEvent {
    Complete(usize),
    InvalidControl,
    TooLong(usize),
}

fn bounded_line<'a>(input: &'a [u8]) -> (line: Result<&'a [u8]>)
    ensures
        match line {
            Ok(l) => {
                &&& framed(input@) == Ok::<int, Fault>(l@.len() as int)
                &&& l@ == input@.subrange(0, l@.len() as int)
                &&& l@.len() + 2 <= usize::MAX
            },
            Err(e) => framed(input@) == Err::<int, Fault>(e@),
        },
{
    match line_event(input) {
        Some(LineEvent::Complete(length)) => Ok(&input[0..length]),
        Some(LineEvent::InvalidControl) => Err(invalid_chunk("invalid_line_ending_or_control")),
        Some(LineEvent::TooLong(actual)) => Err(
            limit_exceeded("chunk_line_bytes", LINE_MAX, actual),
        ),
        None => Err(PolyguardError::Incomplete),
    }
}

/// The first thing in the input that ends the line, well or badly.
fn line_event(input: &[u8]) -> (event: Option<LineEvent>)
    ensures
        framed(input@) == match event {
            Some(LineEvent::Complete(length)) => Ok::<int, Fault>(length as int),
            Some(LineEvent::InvalidControl) => Err(
                chunk_fault("invalid_line_ending_or_control"@),
            ),
            Some(LineEvent::TooLong(actual)) => Err(
                Fault::LimitExceeded {
                    limit: "chunk_line_bytes"@,
                    max: LINE_MAX as int,
                    actual: actual as int,
                },
            ),
            None => Err(Fault::Incomplete),
        },
        event matches Some(LineEvent::Complete(length)) ==> length + 1 < input@.len() && length + 2
            <= usize::MAX,
{
    let mut offset: usize = 0;
    while offset < input.len()
        invariant
            offset <= input@.len(),
            offset <= LINE_MAX,
            forall|j: int| 0 <= j < offset ==> !ByteClass::Control.has(#[trigger] input@[j]),
        decreases input@.len() - offset,
    {
        let byte: u8 = input[offset];
        proof {
            lemma_first_in(input@, ByteClass::Control);
            if ByteClass::Control.has(byte) {
                lemma_first_in_unique(input@, ByteClass::Control, offset as int);
            }
        }
        if byte == '\r' as u8 {
            return if offset + 1 < input.len() && input[offset + 1] == '\n' as u8 {
                Some(LineEvent::Complete(offset))
            } else {
                Some(LineEvent::InvalidControl)
            };
        }
        if is_control(byte) {
            return Some(LineEvent::InvalidControl);
        }
        if offset == LINE_MAX {
            return Some(LineEvent::TooLong(offset + 1));
        }
        offset += 1;
    }
    proof {
        lemma_first_in_unique(input@, ByteClass::Control, offset as int);
    }
    None
}

fn parse_size(bytes: &[u8]) -> (size: Result<u64>)
    ensures
        size_outcome(size) == sized(bytes@, true),
{
    if bytes.len() < 1 || bytes.len() > 16 {
        return Err(invalid_chunk("invalid_size"));
    }
    let mut size: u64 = 0;
    let mut index: usize = 0;
    while index < bytes.len()
        invariant
            1 <= bytes@.len() <= 16,
            index <= bytes@.len(),
            forall|j: int| 0 <= j < index ==> ByteClass::Hex.has(#[trigger] bytes@[j]),
            size == hexadecimal(bytes@.take(index as int)),
        decreases bytes@.len() - index,
    {
        if !accepts(GrammarClass::HexDigit, bytes[index]) {
            assert(!ByteClass::Hex.has(bytes@[index as int]));
            return Err(invalid_chunk("invalid_size"));
        }
        proof {
            lemma_next_digit(bytes@, index as int);
        }
        size = size * 16 + hex_digit_value(bytes[index]) as u64;
        index += 1;
    }
    assert(bytes@.take(index as int) =~= bytes@);
    if size > SIZE_MAX {
        return Err(
            limit_exceeded(
                "chunk_size",
                SIZE_MAX as usize,
                #[verifier::truncate]
                (size as usize),
            ),
        );
    }
    Ok(size)
}

pub enum ExtensionValue<'a> {
    Token(&'a [u8]),
    Quoted(&'a [u8]),
}

pub struct ParsedExtension<'a> {
    pub name: &'a [u8],
    pub value: Option<ExtensionValue<'a>>,
}

impl<'a> ParsedExtension<'a> {
    /// Whether the parsed extension can be normalized.
    pub open spec fn well_formed(self) -> bool {
        &&& 1 <= self.name@.len() <= EXTENSION_NAME_MAX
        &&& all_in(self.name@, ByteClass::Token)
        &&& match self.value {
            Some(ExtensionValue::Token(bytes)) => all_in(bytes@, ByteClass::Token),
            Some(ExtensionValue::Quoted(bytes)) => is_escaped(bytes@) && all_in(
                bytes@,
                ByteClass::Printable,
            ),
            None => true,
        }
    }

    /// The extension that the parsed extension stands for.
    pub open spec fn normal(self) -> ExtensionModel {
        ExtensionModel {
            name: lowered(self.name@),
            value: match self.value {
                None => None,
                Some(ExtensionValue::Token(bytes)) => Some(bytes@),
                Some(ExtensionValue::Quoted(bytes)) => Some(contents(bytes@)),
            },
        }
    }
}

struct QuoteScan {
    escaped: bool,
    closing: Option<usize>,
}

/// What stands between quotes, and how long it is with the quote that ends it.
fn quoted_contents<'a>(bytes: &'a [u8]) -> (quoted: Result<(&'a [u8], usize)>)
    ensures
        match quoted {
            Ok((raw, used)) => {
                &&& quote_end(bytes@, 0) == Some(raw@.len() as int)
                &&& raw@ == bytes@.subrange(0, raw@.len() as int)
                &&& all_in(raw@, ByteClass::Printable)
                &&& used == raw@.len() + 1
                &&& used <= bytes@.len()
            },
            Err(e) => {
                &&& e@ == chunk_fault("invalid_quoted_string"@)
                &&& quote_end(bytes@, 0) matches Some(end) ==> !all_in(
                    bytes@.subrange(0, end),
                    ByteClass::Printable,
                )
            },
        },
{
    let mut state = QuoteScan { escaped: false, closing: None };
    let mut offset: usize = 0;
    while offset < bytes.len() && state.closing.is_none()
        invariant
            offset <= bytes@.len(),
            match state.closing {
                Some(end) => {
                    &&& !state.escaped
                    &&& end < bytes@.len()
                    &&& quote_end(bytes@, 0) == Some(end as int)
                    &&& forall|j: int| 0 <= j < end ==> ByteClass::Printable.has(#[trigger] bytes@[j])
                },
                None => {
                    &&& quote_end(bytes@, 0) == quote_end(
                        bytes@,
                        if state.escaped {
                            offset + 1
                        } else {
                            offset as int
                        },
                    )
                    &&& forall|j: int|
                        0 <= j < offset ==> ByteClass::Printable.has(#[trigger] bytes@[j])
                },
            },
        decreases bytes@.len() - offset,
    {
        let byte: u8 = bytes[offset];
        proof {
            lemma_quote_end(bytes@, 0);
            lemma_quote_end(bytes@, offset + 1);
            if let Some(end) = quote_end(bytes@, 0) {
                if offset < end {
                    assert(bytes@.subrange(0, end)[offset as int] == byte);
                }
            }
        }
        if state.escaped {
            if !accepts(GrammarClass::QuotedUnit, byte) {
                return Err(invalid_chunk("invalid_quoted_string"));
            }
            state.escaped = false;
        } else {
            match byte {
                0x5c => {
                    state.escaped = true;
                },
                0x22 => {
                    state.closing = Some(offset);
                },
                _ => {
                    if !accepts(GrammarClass::QuotedUnit, byte) {
                        return Err(invalid_chunk("invalid_quoted_string"));
                    }
                },
            }
        }
        offset += 1;
    }
    match state.closing {
        Some(closing) => Ok((&bytes[0..closing], closing + 1)),
        None => Err(invalid_chunk("invalid_quoted_string")),
    }
}

/// An iteration over the extensions of a chunk line.
pub struct ExtensionIterator<'a> {
    pub remaining: &'a [u8],
}

impl<'a> ExtensionIterator<'a> {
    pub fn new(remaining: &'a [u8]) -> (iterator: Self)
        ensures
            iterator.remaining == remaining,
    {
        Self { remaining }
    }

    /// What remains is nothing, or begins with the separator of the next extension.
    pub open spec fn well_formed(self) -> bool {
        self.remaining@.len() > 0 ==> self.remaining@[0] == ';' as u8
    }

    /// The next extension. Nothing remains after an error, so that nothing comes after it.
    pub fn next(&mut self) -> (step: Option<Result<ParsedExtension<'a>>>)
        ensures
            ({
                let body = old(self).remaining@.skip(1);
                match step {
                    None => old(self).remaining@.len() == 0 && final(self).remaining@.len() == 0,
                    Some(Ok(found)) => {
                        let used = body.len() - final(self).remaining@.len();
                        &&& old(self).remaining@.len() > 0
                        &&& old(self).well_formed()
                        &&& final(self).well_formed()
                        &&& 0 <= used
                        &&& final(self).remaining@ == body.skip(used)
                        &&& found.well_formed()
                        &&& extension(body, Quoting::PrintableOnly) == Ok::<
                            (ExtensionModel, int),
                            Fault,
                        >((found.normal(), used))
                    },
                    Some(Err(e)) => {
                        &&& old(self).remaining@.len() > 0
                        &&& final(self).remaining@.len() == 0
                        &&& if old(self).well_formed() {
                            extension(body, Quoting::PrintableOnly) == Err::<
                                (ExtensionModel, int),
                                Fault,
                            >(e@)
                        } else {
                            e@ == chunk_fault("invalid_extension_name"@)
                        }
                    },
                }
            }),
    {
        if self.remaining.len() == 0 {
            return None;
        }
        let nothing: &'a [u8] = &self.remaining[0..0];
        if self.remaining[0] != ';' as u8 {
            self.remaining = nothing;
            return Some(Err(invalid_chunk("invalid_extension_name")));
        }
        let after_separator: &'a [u8] = &self.remaining[1..self.remaining.len()];
        assert(after_separator@ =~= old(self).remaining@.skip(1));
        let name_length: usize = find_out(after_separator, GrammarClass::Token.bytes());
        if name_length < 1 || name_length > EXTENSION_NAME_MAX {
            self.remaining = nothing;
            return Some(Err(invalid_chunk("invalid_extension_name")));
        }
        let name: &'a [u8] = &after_separator[0..name_length];
        assert(all_in(name@, ByteClass::Token));
        let suffix: &'a [u8] = &after_separator[name_length..after_separator.len()];
        let (value, consumed): (Option<ExtensionValue<'a>>, usize) = if suffix.len() == 0
            || suffix[0] == ';' as u8 {
            (None, 0)
        } else if suffix[0] == '=' as u8 {
            let source: &'a [u8] = &suffix[1..suffix.len()];
            assert(source@ =~= after_separator@.skip(name_length + 1));
            if source.len() > 0 && source[0] == '"' as u8 {
                let inner: &'a [u8] = &source[1..source.len()];
                proof {
                    assert(inner@ =~= source@.skip(1));
                    lemma_quote_end_shifts(source@, 1, 0);
                    lemma_quote_end(source@, 1);
                    if let Some(end) = quote_end(source@, 1) {
                        assert(inner@.subrange(0, end - 1) =~= source@.subrange(1, end));
                    }
                }
                match quoted_contents(inner) {
                    Ok((raw, used)) => {
                        proof {
                            lemma_quoted_contents(source@, 1, used as int);
                        }
                        (Some(ExtensionValue::Quoted(raw)), used + 2)
                    },
                    Err(error) => {
                        self.remaining = nothing;
                        return Some(Err(error));
                    },
                }
            } else {
                let length: usize = find_out(source, GrammarClass::Token.bytes());
                if length == 0 {
                    self.remaining = nothing;
                    return Some(Err(invalid_chunk("invalid_extension_value")));
                }
                let token: &'a [u8] = &source[0..length];
                assert(all_in(token@, ByteClass::Token));
                (Some(ExtensionValue::Token(token)), length + 1)
            }
        } else {
            self.remaining = nothing;
            return Some(Err(invalid_chunk("invalid_extension_name")));
        };
        let rest: &'a [u8] = &suffix[consumed..suffix.len()];
        proof {
            assert(rest@ =~= after_separator@.skip(name_length + consumed));
            if rest@.len() > 0 {
                assert(rest@[0] == after_separator@[name_length + consumed]);
                if consumed > 0 {
                    assert(rest@[0] == after_separator@.skip(name_length + 1)[consumed - 1]);
                }
            }
        }
        if rest.len() > 0 && rest[0] != ';' as u8 {
            self.remaining = nothing;
            return Some(Err(invalid_chunk("invalid_extension_value")));
        }
        self.remaining = rest;
        Some(Ok(ParsedExtension { name, value }))
    }
}

fn normalize(extension: ParsedExtension<'_>) -> (normalized: ChunkExtension)
    requires
        extension.well_formed(),
    ensures
        normalized@ == extension.normal(),
{
    let name: String = token_text(extension.name);
    let value: Option<String> = match extension.value {
        None => None,
        Some(ExtensionValue::Token(bytes)) => Some(plain_token(bytes)),
        Some(ExtensionValue::Quoted(bytes)) => {
            let plain: Vec<u8> = unescape(bytes);
            proof {
                lemma_printable_contents(bytes@);
            }
            Some(ascii_text(plain.as_slice()))
        },
    };
    ChunkExtension { name, value }
}

pub fn parse_chunk_metadata(input: &[u8]) -> (result: Result<ChunkMeta>)
    ensures
        outcome(result) == parsed(input@, Quoting::PrintableOnly),
{
    let line: &[u8] = bounded_line(input)?;
    let size_end: usize = find_in(line, ByteClass::Only(';' as u8));
    let size: u64 = parse_size(&line[0..size_end])?;
    let mut iterator = ExtensionIterator::new(&line[size_end..line.len()]);
    let mut list: Vec<ChunkExtension> = Vec::new();
    let ghost listed = line_extensions(line@, size_end as int, Quoting::PrintableOnly);
    proof {
        assert(extensions_of(list@) =~= Seq::<ExtensionModel>::empty());
        if size_end < line@.len() {
            assert(iterator.remaining@.skip(1) =~= line@.skip(size_end + 1));
        }
    }
    loop
        invariant
            iterator.well_formed(),
            list@.len() <= EXTENSION_MAX,
            framed(input@) == Ok::<int, Fault>(line@.len() as int),
            line@ == input@.subrange(0, line@.len() as int),
            line@.len() + 2 <= usize::MAX,
            size_end == first_in(line@, ByteClass::Only(';' as u8)),
            sized(line@.subrange(0, size_end as int), true) == Ok::<u64, Fault>(size),
            listed == line_extensions(line@, size_end as int, Quoting::PrintableOnly),
            listed == if iterator.remaining@.len() > 0 {
                extensions(
                    iterator.remaining@.skip(1),
                    extensions_of(list@),
                    Quoting::PrintableOnly,
                )
            } else {
                Ok(extensions_of(list@))
            },
        decreases iterator.remaining@.len(),
    {
        let ghost body = iterator.remaining@.skip(1);
        let step = match iterator.next() {
            Some(step) => step,
            None => {
                return Ok(ChunkMeta { size, extensions: list, bytes_consumed: line.len() + 2 });
            },
        };
        let index: usize = list.len();
        if index >= EXTENSION_MAX {
            return Err(limit_exceeded("chunk_extensions", EXTENSION_MAX, index + 1));
        }
        let extension = normalize(step?);
        let ghost before = extensions_of(list@);
        list.push(extension);
        proof {
            assert(extensions_of(list@) =~= before.push(extension@));
            let used = body.len() - iterator.remaining@.len();
            if iterator.remaining@.len() > 0 {
                assert(iterator.remaining@.skip(1) =~= body.skip(used + 1));
            }
        }
    }
}

} // verus!
