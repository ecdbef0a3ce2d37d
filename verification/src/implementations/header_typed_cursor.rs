//! Header parsing with a typed cursor.

use vstd::prelude::*;
use crate::bytes::{
    ByteClass, all_bytes_in, find_from, find_out, is_ows, lemma_trimmed, lowered, trimmed,
};
use crate::header::{
    FIELD_MAX, SECTION_MAX, VALUE_MAX, canonical_name, lemma_line_end, line_end, name_fault,
    parsed, section, value_fault,
};
use crate::text::utf8;
use crate::types::{
    Fault, FieldModel, HeaderBlock, HeaderField, PolyguardError, Result, fields_of,
    invalid_header, limit_exceeded, outcome,
};

verus! {

#[derive(Clone, Copy)]
struct Cursor(usize);

struct CanonicalName(String);

struct TrimmedValue(Vec<u8>);

enum FramedLine<'a> {
    Field { bytes: &'a [u8], next: Cursor },
    Terminator { next: Cursor },
}

pub fn parse_header_section(input: &[u8]) -> (result: Result<HeaderBlock>)
    ensures
        outcome(result) == parsed(input@),
{
    let mut cursor = Cursor(0);
    let mut fields: Vec<HeaderField> = Vec::new();
    assert(fields_of(fields@) =~= Seq::<FieldModel>::empty());
    loop
        invariant
            cursor.0 <= input@.len(),
            cursor.0 <= SECTION_MAX,
            fields@.len() <= FIELD_MAX,
            parsed(input@) == section(input@, cursor.0 as int, fields_of(fields@)),
        decreases input@.len() - cursor.0,
    {
        let line_start: usize = cursor.0;
        let framed = frame_next_line(input, cursor)?;
        proof {
            lemma_line_end(input@, line_start as int, line_start as int, false);
        }
        let (bytes, next) = match framed {
            FramedLine::Terminator { next } => {
                return Ok(HeaderBlock { fields, bytes_consumed: next.0 });
            },
            FramedLine::Field { bytes, next } => (bytes, next),
        };
        if fields.len() == FIELD_MAX {
            return Err(PolyguardError::TooManyHeaders);
        }
        if bytes.len() > 0 && is_ows(bytes[0]) {
            return Err(invalid_header(line_start, "obs_fold"));
        }
        let colon: usize = find_from(bytes, ByteClass::Only(':' as u8), 0);
        if colon == bytes.len() {
            return Err(invalid_header(line_start, "invalid_name"));
        }
        let name = CanonicalName::from_bytes(&bytes[0..colon], line_start)?;
        let value = TrimmedValue::from_bytes(&bytes[colon + 1..bytes.len()], line_start)?;
        let ghost before = fields_of(fields@);
        let field = HeaderField { name: name.0, value: value.0 };
        fields.push(field);
        assert(fields_of(fields@) =~= before.push(field@));
        cursor = next;
    }
}

fn frame_next_line<'a>(input: &'a [u8], cursor: Cursor) -> (framed: Result<FramedLine<'a>>)
    requires
        cursor.0 <= input@.len(),
        cursor.0 <= SECTION_MAX,
    ensures
        ({
            let start = cursor.0 as int;
            let end = line_end(input@, start, start, false);
            match framed {
                Ok(FramedLine::Field { bytes, next }) => {
                    &&& end is Ok
                    &&& end->Ok_0 > start
                    &&& bytes@ == input@.subrange(start, end->Ok_0)
                    &&& next.0 == end->Ok_0 + 2
                    &&& next.0 <= input@.len()
                },
                Ok(FramedLine::Terminator { next }) => end == Ok::<int, Fault>(start) && next.0
                    == start + 2,
                Err(e) => end == Err::<int, Fault>(e@),
            }
        }),
{
    let start: usize = cursor.0;
    let mut position: usize = start;
    loop
        invariant
            start == cursor.0,
            start <= position <= input@.len(),
            position <= SECTION_MAX,
            line_end(input@, start as int, start as int, false) == line_end(
                input@,
                start as int,
                position as int,
                false,
            ),
        decreases input@.len() - position,
    {
        if position == SECTION_MAX {
            if position < input.len() {
                return Err(
                    limit_exceeded("header_section_bytes", SECTION_MAX, SECTION_MAX + 1),
                );
            }
            return Err(PolyguardError::Incomplete);
        }
        if position >= input.len() {
            return Err(PolyguardError::Incomplete);
        }
        let byte: u8 = input[position];
        if byte == '\n' as u8 {
            return Err(invalid_header(start, "bare_line_ending"));
        }
        if byte != '\r' as u8 {
            position += 1;
            continue ;
        }
        if position + 1 >= input.len() || input[position + 1] != '\n' as u8 {
            return Err(invalid_header(start, "bare_line_ending"));
        }
        let next = Cursor(position + 2);
        if next.0 > SECTION_MAX {
            return Err(limit_exceeded("header_section_bytes", SECTION_MAX, next.0));
        }
        if position == start {
            return Ok(FramedLine::Terminator { next });
        }
        return Ok(FramedLine::Field { bytes: &input[start..position], next });
    }
}

impl CanonicalName {
    fn from_bytes(bytes: &[u8], line_start: usize) -> (name: Result<Self>)
        ensures
            match name {
                Ok(n) => name_fault(bytes@, line_start as int) is None && utf8(n.0@) == lowered(
                    bytes@,
                ),
                Err(e) => name_fault(bytes@, line_start as int) == Some(e@),
            },
    {
        let canonical: String = canonical_name(bytes, line_start)?;
        Ok(CanonicalName(canonical))
    }
}

impl TrimmedValue {
    fn from_bytes(bytes: &[u8], line_start: usize) -> (value: Result<Self>)
        ensures
            match value {
                Ok(v) => value_fault(bytes@, line_start as int) is None && v.0@ == trimmed(bytes@),
                Err(e) => value_fault(bytes@, line_start as int) == Some(e@),
            },
    {
        if !all_bytes_in(bytes, ByteClass::Field) {
            return Err(invalid_header(line_start, "invalid_value_byte"));
        }
        let leading: usize = find_out(bytes, ByteClass::Ows);
        let mut end: usize = bytes.len();
        while end > leading && is_ows(bytes[end - 1])
            invariant
                leading <= end <= bytes@.len(),
                forall|j: int| end <= j < bytes@.len() ==> is_ows(#[trigger] bytes@[j]),
            decreases end,
        {
            end -= 1;
        }
        proof {
            assert forall|j: int| 0 <= j < leading implies is_ows(#[trigger] bytes@[j]) by {
                assert(ByteClass::Ows.has(bytes@[j]));
            }
            lemma_trimmed(bytes@, leading as int, end as int);
        }
        let trimmed_len: usize = end - leading;
        if trimmed_len > VALUE_MAX {
            return Err(limit_exceeded("header_value_bytes", VALUE_MAX, trimmed_len));
        }
        Ok(TrimmedValue(vstd::slice::slice_to_vec(&bytes[leading..end])))
    }
}

} // verus!
