//! Header parsing by one decision table for all outcomes of a line.

use vstd::prelude::*;
use crate::bytes::is_ows;
use crate::header::{
    FIELD_MAX, FieldLayout, NAME_MAX, SECTION_MAX, VALUE_MAX, build_header_block, field_of,
    fields_at, header_fault, parsed, section,
};
use crate::line_facts::observe_line;
use crate::types::{
    BlockModel, Fault, FieldModel, HeaderBlock, PolyguardError, Result, Verdict, invalid_header,
    limit_exceeded, outcome,
};

verus! {

enum LineDecision {
    Accept(FieldLayout),
    Reject(&'static str),
    NameLimit(usize),
    ValueLimit(usize),
}

impl LineDecision {
    /// What a decision on the line at `start` stands for.
    spec fn verdict(self, input: Seq<u8>, start: int) -> Verdict<FieldModel> {
        match self {
            LineDecision::Accept(layout) => Ok(layout.field(input)),
            LineDecision::Reject(reason) => Err(header_fault(start, reason@)),
            LineDecision::NameLimit(actual) => Err(
                Fault::LimitExceeded {
                    limit: "header_name_bytes"@,
                    max: NAME_MAX as int,
                    actual: actual as int,
                },
            ),
            LineDecision::ValueLimit(actual) => Err(
                Fault::LimitExceeded {
                    limit: "header_value_bytes"@,
                    max: VALUE_MAX as int,
                    actual: actual as int,
                },
            ),
        }
    }
}

struct ValidatedFields {
    layouts: Vec<FieldLayout>,
    bytes_consumed: usize,
}

pub fn parse_header_section(input: &[u8]) -> (result: Result<HeaderBlock>)
    ensures
        outcome(result) == parsed(input@),
{
    let validated = validate_section(input)?;
    Ok(build_header_block(input, validated.layouts, validated.bytes_consumed))
}

fn validate_section(input: &[u8]) -> (validated: Result<ValidatedFields>)
    ensures
        match validated {
            Ok(v) => {
                &&& parsed(input@) == Ok::<BlockModel, Fault>(
                    BlockModel {
                        fields: fields_at(input@, v.layouts@),
                        bytes_consumed: v.bytes_consumed as int,
                    },
                )
                &&& forall|i: int|
                    0 <= i < v.layouts@.len() ==> (#[trigger] v.layouts@[i]).fits(input@)
            },
            Err(e) => parsed(input@) == Err::<BlockModel, Fault>(e@),
        },
{
    let mut layouts: Vec<FieldLayout> = Vec::new();
    let mut line_start: usize = 0;
    assert(fields_at(input@, layouts@) =~= Seq::<FieldModel>::empty());
    loop
        invariant
            line_start <= input@.len(),
            line_start <= SECTION_MAX,
            layouts@.len() <= FIELD_MAX,
            forall|i: int| 0 <= i < layouts@.len() ==> (#[trigger] layouts@[i]).fits(input@),
            parsed(input@) == section(input@, line_start as int, fields_at(input@, layouts@)),
        decreases input@.len() - line_start,
    {
        let (line_end, next_line) = find_crlf(input, line_start)?;
        if line_end == line_start {
            return Ok(ValidatedFields { layouts, bytes_consumed: next_line });
        }
        if layouts.len() == FIELD_MAX {
            return Err(PolyguardError::TooManyHeaders);
        }
        let layout = match decide_line(input, line_start, line_end) {
            LineDecision::Accept(layout) => layout,
            LineDecision::Reject(reason) => return Err(invalid_header(line_start, reason)),
            LineDecision::NameLimit(actual) => {
                return Err(limit_exceeded("header_name_bytes", NAME_MAX, actual));
            },
            LineDecision::ValueLimit(actual) => {
                return Err(limit_exceeded("header_value_bytes", VALUE_MAX, actual));
            },
        };
        let ghost before = fields_at(input@, layouts@);
        layouts.push(layout);
        assert(fields_at(input@, layouts@) =~= before.push(layout.field(input@)));
        line_start = next_line;
    }
}

fn find_crlf(input: &[u8], line_start: usize) -> (found: Result<(usize, usize)>)
    requires
        line_start <= input@.len(),
        line_start <= SECTION_MAX,
    ensures
        ({
            let end = crate::header::line_end(
                input@,
                line_start as int,
                line_start as int,
                false,
            );
            match found {
                Ok((at, next)) => {
                    &&& end == Ok::<int, Fault>(at as int)
                    &&& line_start <= at
                    &&& next == at + 2
                    &&& next <= input@.len()
                    &&& next <= SECTION_MAX
                },
                Err(e) => end == Err::<int, Fault>(e@),
            }
        }),
{
    let mut index: usize = line_start;
    let ghost start = line_start as int;
    loop
        invariant
            start == line_start,
            line_start <= index <= input@.len(),
            index <= SECTION_MAX,
            crate::header::line_end(input@, start, start, false) == crate::header::line_end(
                input@,
                start,
                index as int,
                false,
            ),
        decreases input@.len() - index,
    {
        if index == SECTION_MAX {
            return if index == input.len() {
                Err(PolyguardError::Incomplete)
            } else {
                Err(limit_exceeded("header_section_bytes", SECTION_MAX, SECTION_MAX + 1))
            };
        }
        if index >= input.len() {
            return Err(PolyguardError::Incomplete);
        }
        match input[index] {
            10 => return Err(invalid_header(line_start, "bare_line_ending")),
            13 => {
                if index + 1 >= input.len() || input[index + 1] != '\n' as u8 {
                    return Err(invalid_header(line_start, "bare_line_ending"));
                }
                let next: usize = index + 2;
                if next > SECTION_MAX {
                    return Err(limit_exceeded("header_section_bytes", SECTION_MAX, next));
                }
                return Ok((index, next));
            },
            _ => {
                index += 1;
            },
        }
    }
}

fn decide_line(input: &[u8], start: usize, end: usize) -> (decision: LineDecision)
    requires
        start < end <= input@.len(),
    ensures
        decision.verdict(input@, start as int) == field_of(
            input@.subrange(start as int, end as int),
            start as int,
        ),
        decision matches LineDecision::Accept(layout) ==> layout.fits(input@),
{
    let begins_with_ows: bool = is_ows(input[start]);
    let facts = observe_line(input, start, end);
    let name_length: usize = match facts.colon {
        Some(colon) => colon - start,
        None => 0,
    };
    let value_start: usize = match facts.first_value_content {
        Some(first) => first,
        None => end,
    };
    let value_end: usize = match facts.first_value_content {
        Some(_) => facts.last_value_content,
        None => end,
    };
    let value_length: usize = value_end - value_start;
    // This sequence is the sole precedence point for all field-grammar outcomes.
    if begins_with_ows {
        return LineDecision::Reject("obs_fold");
    }
    let colon: usize = match facts.colon {
        Some(colon) => colon,
        None => return LineDecision::Reject("invalid_name"),
    };
    if name_length == 0 {
        LineDecision::Reject("invalid_name")
    } else if name_length > NAME_MAX {
        LineDecision::NameLimit(name_length)
    } else if facts.name_has_whitespace {
        LineDecision::Reject("whitespace_before_colon")
    } else if facts.name_has_invalid_byte {
        LineDecision::Reject("invalid_name")
    } else if facts.value_has_invalid_byte {
        LineDecision::Reject("invalid_value_byte")
    } else if value_length > VALUE_MAX {
        LineDecision::ValueLimit(value_length)
    } else {
        LineDecision::Accept(
            FieldLayout { name_start: start, name_end: colon, value_start, value_end },
        )
    }
}

} // verus!
