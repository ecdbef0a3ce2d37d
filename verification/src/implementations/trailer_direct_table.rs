//! Trailer parsing by one decision table for all outcomes of a line.

use vstd::prelude::*;
use crate::bytes::{ByteClass, all_bytes_in, all_in, any_byte_in, any_in, is_ows, lowered};
use crate::line_facts::observe_line;
use crate::radix::{has_equal_neighbours, is_arrangement, is_listed, radix_order};
use crate::text::{same_text, token_text, utf8};
use crate::trailer::{
    TRAILER_FIELD_MAX, TRAILER_MAX, TRAILER_NAME_MAX, TRAILER_VALUE_MAX, declarations_fault,
    first_declaration_fault, has_name, is_forbidden_name, parsed, trailer_fault, trailer_field,
    trailer_line_end, trailer_section,
};
use crate::types::{
    Fault, FieldModel, HeaderField, PolyguardError, Result, TrailerBlock, fields_of,
    invalid_trailer, limit_exceeded, outcome, texts_of,
};

verus! {

#[derive(Clone, Copy)]
struct FieldSpan {
    name_end: usize,
    value_start: usize,
    value_end: usize,
}

impl FieldSpan {
    /// The field that the span cuts out of the line at `start`.
    spec fn field(self, input: Seq<u8>, start: int) -> FieldModel {
        FieldModel {
            name: lowered(input.subrange(start, self.name_end as int)),
            value: input.subrange(self.value_start as int, self.value_end as int),
        }
    }
}

enum LineVerdict {
    Field(FieldSpan),
    Invalid(&'static str),
}

/// The declared names, in sorted order.
struct DeclarationTable<'a> {
    names: &'a [String],
    order: Vec<usize>,
}

impl<'a> DeclarationTable<'a> {
    spec fn well_formed(self) -> bool {
        is_arrangement(self.order@, self.names@.len() as int)
    }

    fn new(names: &'a [String]) -> (table: Result<Self>)
        ensures
            match table {
                Ok(t) => {
                    &&& declarations_fault(texts_of(names@), false) is None
                    &&& t.well_formed()
                    &&& t.names == names
                },
                Err(e) => declarations_fault(texts_of(names@), false) == Some(e@),
            },
    {
        let ghost texts = texts_of(names@);
        let mut index: usize = 0;
        while index < names.len()
            invariant
                index <= names@.len(),
                texts == texts_of(names@),
                first_declaration_fault(texts, 0, false) == first_declaration_fault(
                    texts,
                    index as int,
                    false,
                ),
                forall|i: int|
                    0 <= i < index ==> (#[trigger] texts[i]).len() <= TRAILER_NAME_MAX,
            decreases names@.len() - index,
        {
            let name: &[u8] = names[index].as_str().as_bytes();
            assert(texts[index as int] == name@);
            if !is_declarable(name) {
                return Err(invalid_trailer("invalid_declaration"));
            }
            if is_forbidden_name(name) {
                return Err(invalid_trailer("forbidden_field"));
            }
            index += 1;
        }
        let order: Vec<usize> = radix_order(names);
        if has_equal_neighbours(names, &order) {
            return Err(invalid_trailer("duplicate_declaration"));
        }
        Ok(Self { names, order })
    }

    fn contains(&self, name: &str) -> (found: bool)
        requires
            self.well_formed(),
        ensures
            found == texts_of(self.names@).contains(utf8(name@)),
    {
        let ghost texts = texts_of(self.names@);
        let mut k: usize = 0;
        while k < self.order.len()
            invariant
                self.well_formed(),
                texts == texts_of(self.names@),
                k <= self.order@.len(),
                forall|x: int|
                    0 <= x < k ==> texts[#[trigger] self.order@[x] as int] != utf8(name@),
            decreases self.order@.len() - k,
        {
            let index: usize = self.order[k];
            assert(texts[index as int] == utf8(self.names@[index as int]@));
            if same_text(self.names[index].as_str(), name) {
                return true;
            }
            k += 1;
        }
        proof {
            if texts.contains(utf8(name@)) {
                let i = choose|i: int| 0 <= i < texts.len() && texts[i] == utf8(name@);
                assert(is_listed(self.order@, i));
            }
        }
        false
    }
}

/// Whether a name can be declared, unless it is forbidden.
fn is_declarable(name: &[u8]) -> (valid: bool)
    ensures
        valid == !(name@.len() == 0 || name@.len() > TRAILER_NAME_MAX || !all_in(
            name@,
            ByteClass::Token,
        ) || any_in(name@, ByteClass::Upper)),
{
    name.len() > 0 && name.len() <= TRAILER_NAME_MAX && all_bytes_in(name, ByteClass::Token)
        && !any_byte_in(name, ByteClass::Upper)
}

pub fn parse_trailer_section(input: &[u8], declared_names: &[String]) -> (result: Result<
    TrailerBlock,
>)
    ensures
        outcome(result) == parsed(input@, texts_of(declared_names@)),
{
    let declarations = DeclarationTable::new(declared_names)?;
    let ghost declared = texts_of(declared_names@);
    let mut fields: Vec<HeaderField> = Vec::new();
    let mut cursor: usize = 0;
    assert(fields_of(fields@) =~= Seq::<FieldModel>::empty());
    loop
        invariant
            declarations.well_formed(),
            declarations.names == declared_names,
            declared == texts_of(declared_names@),
            declarations_fault(declared, false) is None,
            cursor <= input@.len(),
            cursor <= TRAILER_MAX,
            fields@.len() <= TRAILER_FIELD_MAX,
            parsed(input@, declared) == trailer_section(
                input@,
                cursor as int,
                declared,
                fields_of(fields@),
            ),
        decreases input@.len() - cursor,
    {
        let (line_end, next_line) = locate_line_end(input, cursor)?;
        if line_end == cursor {
            return Ok(TrailerBlock { fields, bytes_consumed: next_line });
        }
        if fields.len() == TRAILER_FIELD_MAX {
            return Err(invalid_trailer("too_many_fields"));
        }
        let span = match summarize_and_decide(input, cursor, line_end) {
            LineVerdict::Field(span) => span,
            LineVerdict::Invalid(reason) => return Err(invalid_trailer(reason)),
        };
        let name: String = token_text(&input[cursor..span.name_end]);
        if is_forbidden_name(name.as_str().as_bytes()) {
            return Err(invalid_trailer("forbidden_field"));
        }
        if !declarations.contains(name.as_str()) {
            return Err(invalid_trailer("undeclared_field"));
        }
        if is_received(&fields, name.as_str()) {
            return Err(invalid_trailer("duplicate_field"));
        }
        let ghost before = fields_of(fields@);
        let field = HeaderField {
            name,
            value: vstd::slice::slice_to_vec(&input[span.value_start..span.value_end]),
        };
        fields.push(field);
        assert(fields_of(fields@) =~= before.push(field@));
        cursor = next_line;
    }
}

/// Whether a field of the name has been received.
fn is_received(fields: &Vec<HeaderField>, name: &str) -> (received: bool)
    ensures
        received == has_name(fields_of(fields@), utf8(name@)),
{
    let ghost models = fields_of(fields@);
    let mut index: usize = 0;
    while index < fields.len()
        invariant
            index <= fields@.len(),
            models == fields_of(fields@),
            forall|i: int| 0 <= i < index ==> (#[trigger] models[i]).name != utf8(name@),
        decreases fields@.len() - index,
    {
        assert(models[index as int].name == utf8(fields@[index as int].name@));
        if same_text(fields[index].name.as_str(), name) {
            return true;
        }
        index += 1;
    }
    false
}

fn locate_line_end(input: &[u8], start: usize) -> (found: Result<(usize, usize)>)
    requires
        start <= input@.len(),
        start <= TRAILER_MAX,
    ensures
        ({
            let end = trailer_line_end(input@, start as int, false);
            match found {
                Ok((at, next)) => {
                    &&& end == Ok::<int, Fault>(at as int)
                    &&& start <= at
                    &&& next == at + 2
                    &&& next <= input@.len()
                    &&& next <= TRAILER_MAX
                },
                Err(e) => end == Err::<int, Fault>(e@),
            }
        }),
{
    let mut position: usize = start;
    loop
        invariant
            start <= position <= input@.len(),
            position <= TRAILER_MAX,
            trailer_line_end(input@, start as int, false) == trailer_line_end(
                input@,
                position as int,
                false,
            ),
        decreases input@.len() - position,
    {
        if position == TRAILER_MAX {
            return if position == input.len() {
                Err(PolyguardError::Incomplete)
            } else {
                Err(trailer_byte_limit(TRAILER_MAX + 1))
            };
        }
        if position >= input.len() {
            return Err(PolyguardError::Incomplete);
        }
        match input[position] {
            10 => return Err(invalid_trailer("bare_line_ending")),
            13 => {
                if position + 1 >= input.len() || input[position + 1] != '\n' as u8 {
                    return Err(invalid_trailer("bare_line_ending"));
                }
                let after: usize = position + 2;
                if after > TRAILER_MAX {
                    return Err(trailer_byte_limit(after));
                }
                return Ok((position, after));
            },
            _ => {
                position += 1;
            },
        }
    }
}

fn summarize_and_decide(input: &[u8], start: usize, end: usize) -> (verdict: LineVerdict)
    requires
        start < end <= input@.len(),
    ensures
        ({
            let line = input@.subrange(start as int, end as int);
            match verdict {
                LineVerdict::Field(span) => {
                    &&& start <= span.name_end <= end
                    &&& span.value_start <= span.value_end <= end
                    &&& all_in(
                        input@.subrange(start as int, span.name_end as int),
                        ByteClass::Token,
                    )
                    &&& trailer_field(line, true) == Ok::<FieldModel, Fault>(
                        span.field(input@, start as int),
                    )
                },
                LineVerdict::Invalid(reason) => trailer_field(line, true) == Err::<
                    FieldModel,
                    Fault,
                >(trailer_fault(reason@)),
            }
        }),
{
    let starts_with_whitespace: bool = is_ows(input[start]);
    let summary = observe_line(input, start, end);
    let name_length: usize = match summary.colon {
        Some(colon) => colon - start,
        None => 0,
    };
    let value_start: usize = match summary.first_value_content {
        Some(first) => first,
        None => end,
    };
    let value_end: usize = match summary.first_value_content {
        Some(_) => summary.last_value_content,
        None => end,
    };
    let value_length: usize = value_end - value_start;
    assert(input@.subrange(start as int, end as int)[0] == input@[start as int]);
    // This sequence is the single precedence point for wire-field grammar decisions.
    if starts_with_whitespace {
        return LineVerdict::Invalid("obs_fold");
    }
    let name_end: usize = match summary.colon {
        Some(colon) => colon,
        None => return LineVerdict::Invalid("invalid_name"),
    };
    if name_length == 0 {
        LineVerdict::Invalid("invalid_name")
    } else if name_length > TRAILER_NAME_MAX {
        LineVerdict::Invalid("name_too_long")
    } else if summary.name_has_whitespace {
        LineVerdict::Invalid("whitespace_before_colon")
    } else if summary.name_has_invalid_byte {
        LineVerdict::Invalid("invalid_name")
    } else if summary.value_has_invalid_byte {
        LineVerdict::Invalid("invalid_value_byte")
    } else if value_length > TRAILER_VALUE_MAX {
        LineVerdict::Invalid("value_too_long")
    } else {
        LineVerdict::Field(FieldSpan { name_end, value_start, value_end })
    }
}

fn trailer_byte_limit(actual: usize) -> (error: PolyguardError)
    ensures
        error@ == (Fault::LimitExceeded {
            limit: "trailer_bytes"@,
            max: TRAILER_MAX as int,
            actual: actual as int,
        }),
{
    limit_exceeded("trailer_bytes", TRAILER_MAX, actual)
}

} // verus!
