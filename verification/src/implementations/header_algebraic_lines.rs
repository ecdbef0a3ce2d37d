//! Header parsing over an algebra of complete lines.

use vstd::prelude::*;
use crate::bytes::{ByteClass, find_from, find_in, is_first_from, is_ows, lowered, trimmed};
use crate::header::{
    FIELD_MAX, SECTION_MAX, canonical_name, field_of, lemma_line_end, lemma_line_end_at,
    lemma_line_too_long, line_end, name_fault, parsed, section, trimmed_value, value_fault,
};
use crate::text::utf8;
use crate::types::{
    Fault, FieldModel, HeaderBlock, HeaderField, PolyguardError, Result, fields_of,
    invalid_header, limit_exceeded, outcome,
};

verus! {

/// The unconsumed suffix, paired with its byte offset in the whole input.
struct SectionTail<'a> {
    offset: usize,
    bytes: &'a [u8],
}

impl<'a> SectionTail<'a> {
    spec fn follows(self, input: Seq<u8>) -> bool {
        self.offset <= input.len() && self.bytes@ == input.skip(self.offset as int)
    }
}

/// A line whose terminating CRLF and lack of embedded line endings are proven.
struct CompleteLine<'a> {
    offset: usize,
    bytes: &'a [u8],
}

struct LowercaseName(String);

struct TrimmedValue(Vec<u8>);

enum NextLine<'a> {
    Field { line: CompleteLine<'a>, tail: SectionTail<'a> },
    End { bytes_consumed: usize },
}

pub fn parse_header_section(input: &[u8]) -> (result: Result<HeaderBlock>)
    ensures
        outcome(result) == parsed(input@),
{
    let total: usize = input.len();
    let mut tail = SectionTail { offset: 0, bytes: input };
    let mut fields: Vec<HeaderField> = Vec::new();
    assert(fields_of(fields@) =~= Seq::<FieldModel>::empty());
    assert(input@.skip(0) =~= input@);
    loop
        invariant
            total == input@.len(),
            tail.follows(input@),
            tail.offset <= SECTION_MAX,
            fields@.len() <= FIELD_MAX,
            parsed(input@) == section(input@, tail.offset as int, fields_of(fields@)),
        decreases input@.len() - tail.offset,
    {
        let ghost start = tail.offset as int;
        let next = take_complete_line(tail, Ghost(input@))?;
        proof {
            lemma_line_end(input@, start, start, false);
        }
        let (line, next_tail) = match next {
            NextLine::End { bytes_consumed } => {
                return Ok(HeaderBlock { fields, bytes_consumed });
            },
            NextLine::Field { line, tail } => (line, tail),
        };
        if fields.len() == FIELD_MAX {
            return Err(PolyguardError::TooManyHeaders);
        }
        let ghost before = fields_of(fields@);
        let field = parse_field(line)?;
        fields.push(field);
        assert(fields_of(fields@) =~= before.push(field@));
        tail = next_tail;
    }
}

/// The index of the first CRLF pair, or the length.
fn find_delimiter(bytes: &[u8]) -> (index: usize)
    ensures
        index <= bytes@.len(),
        index < bytes@.len() ==> index + 1 < bytes@.len() && bytes@[index as int] == '\r' as u8
            && bytes@[index + 1] == '\n' as u8,
        forall|j: int|
            0 <= j < index && j + 1 < bytes@.len() ==> !(#[trigger] bytes@[j] == '\r' as u8
                && bytes@[j + 1] == '\n' as u8),
{
    let mut index: usize = 0;
    while index < bytes.len() && index + 1 < bytes.len()
        invariant
            index <= bytes@.len(),
            forall|j: int|
                0 <= j < index && j + 1 < bytes@.len() ==> !(#[trigger] bytes@[j] == '\r' as u8
                    && bytes@[j + 1] == '\n' as u8),
        decreases bytes@.len() - index,
    {
        if bytes[index] == '\r' as u8 && bytes[index + 1] == '\n' as u8 {
            return index;
        }
        index += 1;
    }
    bytes.len()
}

fn take_complete_line<'a>(tail: SectionTail<'a>, Ghost(input): Ghost<Seq<u8>>) -> (taken: Result<
    NextLine<'a>,
>)
    requires
        tail.follows(input),
        tail.offset <= SECTION_MAX,
        input.len() <= usize::MAX,
    ensures
        ({
            let start = tail.offset as int;
            let end = line_end(input, start, start, false);
            match taken {
                Ok(NextLine::Field { line, tail: rest }) => {
                    &&& end is Ok
                    &&& end->Ok_0 > start
                    &&& line.offset == start
                    &&& line.bytes@ == input.subrange(start, end->Ok_0)
                    &&& rest.offset == end->Ok_0 + 2
                    &&& rest.follows(input)
                },
                Ok(NextLine::End { bytes_consumed }) => end == Ok::<int, Fault>(start)
                    && bytes_consumed == start + 2,
                Err(e) => end == Err::<int, Fault>(e@),
            }
        }),
{
    let line_len: usize = find_delimiter(tail.bytes);
    let control: usize = find_in(tail.bytes, ByteClass::LineBreak);
    let ghost start = tail.offset as int;
    let ghost p = start + control;
    proof {
        assert forall|j: int| start <= j < p implies !ByteClass::LineBreak.has(
            #[trigger] input[j],
        ) by {
            assert(tail.bytes@[j - start] == input[j]);
        }
        if control < tail.bytes@.len() {
            assert(tail.bytes@[control as int] == input[p]);
        }
        assert(is_first_from(input, ByteClass::LineBreak, start, p));
        if p <= SECTION_MAX {
            lemma_line_end_at(input, start, start, p, false);
        } else {
            lemma_line_too_long(input, start, start, false);
        }
        if line_len < tail.bytes@.len() {
            assert(control <= line_len) by {
                if line_len < control {
                    assert(!ByteClass::LineBreak.has(tail.bytes@[line_len as int]));
                }
            }
            assert(input[start + line_len] == '\r' as u8);
            assert(input[start + line_len + 1] == '\n' as u8);
        }
        if control < line_len && control + 1 < tail.bytes@.len() {
            assert(tail.bytes@[control + 1] == input[p + 1]);
            assert(!(tail.bytes@[control as int] == '\r' as u8 && tail.bytes@[control + 1]
                == '\n' as u8));
        }
    }
    if line_len == tail.bytes.len() {
        if control < tail.bytes.len() {
            if control < SECTION_MAX - tail.offset {
                return Err(invalid_header(tail.offset, "bare_line_ending"));
            }
        }
        if tail.bytes.len() > SECTION_MAX - tail.offset {
            return Err(limit_exceeded("header_section_bytes", SECTION_MAX, SECTION_MAX + 1));
        }
        return Err(PolyguardError::Incomplete);
    }
    if control < line_len && control < SECTION_MAX - tail.offset {
        return Err(invalid_header(tail.offset, "bare_line_ending"));
    }
    let next_offset: usize = tail.offset + line_len + 2;
    if next_offset > SECTION_MAX {
        return Err(limit_exceeded("header_section_bytes", SECTION_MAX, SECTION_MAX + 1));
    }
    if line_len == 0 {
        return Ok(NextLine::End { bytes_consumed: next_offset });
    }
    let bytes: &'a [u8] = &tail.bytes[0..line_len];
    let rest: &'a [u8] = &tail.bytes[line_len + 2..tail.bytes.len()];
    assert(bytes@ =~= input.subrange(start, start + line_len));
    assert(rest@ =~= input.skip(next_offset as int));
    Ok(
        NextLine::Field {
            line: CompleteLine { offset: tail.offset, bytes },
            tail: SectionTail { offset: next_offset, bytes: rest },
        },
    )
}

fn parse_field(line: CompleteLine<'_>) -> (field: Result<HeaderField>)
    ensures
        outcome(field) == field_of(line.bytes@, line.offset as int),
{
    if line.bytes.len() > 0 && is_ows(line.bytes[0]) {
        return Err(invalid_header(line.offset, "obs_fold"));
    }
    let colon: usize = find_from(line.bytes, ByteClass::Only(':' as u8), 0);
    if colon == line.bytes.len() {
        return Err(invalid_header(line.offset, "invalid_name"));
    }
    let name = LowercaseName::new(&line.bytes[0..colon], line.offset)?;
    let value = TrimmedValue::new(&line.bytes[colon + 1..line.bytes.len()], line.offset)?;
    Ok(HeaderField { name: name.0, value: value.0 })
}

impl LowercaseName {
    fn new(bytes: &[u8], line_offset: usize) -> (name: Result<Self>)
        ensures
            match name {
                Ok(n) => name_fault(bytes@, line_offset as int) is None && utf8(n.0@) == lowered(
                    bytes@,
                ),
                Err(e) => name_fault(bytes@, line_offset as int) == Some(e@),
            },
    {
        let name: String = canonical_name(bytes, line_offset)?;
        Ok(LowercaseName(name))
    }
}

impl TrimmedValue {
    fn new(bytes: &[u8], line_offset: usize) -> (value: Result<Self>)
        ensures
            match value {
                Ok(v) => value_fault(bytes@, line_offset as int) is None && v.0@ == trimmed(bytes@),
                Err(e) => value_fault(bytes@, line_offset as int) == Some(e@),
            },
    {
        let value: Vec<u8> = trimmed_value(bytes, line_offset)?;
        Ok(TrimmedValue(value))
    }
}

} // verus!
