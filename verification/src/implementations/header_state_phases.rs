//! Header parsing in phases: the boundary of the section, its grammar, its fields.

use vstd::prelude::*;
use crate::bytes::{
    ByteClass, all_in, any_in, is_field_byte, is_ows, is_token, lemma_first_from_unique, lowered,
    trimmed,
};
use crate::header::{
    FIELD_MAX, FieldLayout, NAME_MAX, SECTION_MAX, VALUE_MAX, build_header_block, content_seen,
    field_of_greedy, fields_at, header_fault, lemma_content_seen, lemma_line_end,
    lemma_line_end_is_first_cr, lemma_section_end_after, line_end, lines, name_fault,
    parsed_whole, section_end, value_fault,
};
use crate::types::{
    Fault, FieldModel, HeaderBlock, PolyguardError, Result, invalid_header, limit_exceeded,
    outcome,
};

verus! {

#[derive(Clone, Copy)]
enum BoundaryState {
    LineStart { offset: usize },
    LineBody { offset: usize },
}

#[derive(Clone, Copy, PartialEq, Eq, Structural)]
enum NameClass {
    Token,
    ContainsWhitespace,
    Invalid,
}

/// The class of a whole name.
spec fn name_class(name: Seq<u8>) -> NameClass {
    if any_in(name, ByteClass::Ows) {
        NameClass::ContainsWhitespace
    } else if !all_in(name, ByteClass::Token) {
        NameClass::Invalid
    } else {
        NameClass::Token
    }
}

#[derive(Clone, Copy)]
enum LexState {
    LineStart,
    Name { line_start: usize, name_start: usize, class: NameClass },
    Value {
        line_start: usize,
        name_start: usize,
        name_end: usize,
        value_start: Option<usize>,
        value_end: usize,
    },
}

/// The line at `start` of a framed section reaches at least up to `cursor`.
spec fn within_line(input: Seq<u8>, start: int, cursor: int, stop: int) -> bool {
    &&& 0 <= start < cursor
    &&& start < stop
    &&& section_end(input, start, false) == Ok::<int, Fault>(stop)
    &&& line_end(input, start, start, false) is Ok
    &&& cursor <= line_end(input, start, start, false)->Ok_0
}

impl LexState {
    /// Where the line begins that is being read.
    spec fn line(self, cursor: int) -> int {
        match self {
            LexState::LineStart => cursor,
            LexState::Name { line_start, .. } => line_start as int,
            LexState::Value { line_start, .. } => line_start as int,
        }
    }

    /// What the state says of the input up to the cursor.
    spec fn seen(self, input: Seq<u8>, cursor: int, stop: int) -> bool {
        match self {
            LexState::LineStart => section_end(input, cursor, false) == Ok::<int, Fault>(stop),
            LexState::Name { line_start, name_start, class } => {
                &&& name_start == line_start
                &&& within_line(input, line_start as int, cursor, stop)
                &&& !is_ows(input[line_start as int])
                &&& forall|j: int| line_start < j < cursor ==> #[trigger] input[j] != ':' as u8
                &&& class == name_class(input.subrange(name_start as int, cursor))
            },
            LexState::Value { line_start, name_start, name_end, value_start, value_end } => {
                &&& name_start == line_start < name_end < cursor
                &&& within_line(input, line_start as int, cursor, stop)
                &&& !is_ows(input[line_start as int])
                &&& input[name_end as int] == ':' as u8
                &&& forall|j: int| line_start < j < name_end ==> #[trigger] input[j] != ':' as u8
                &&& name_fault(
                    input.subrange(name_start as int, name_end as int),
                    line_start as int,
                ) is None
                &&& forall|j: int| name_end < j < cursor ==> is_field_byte(#[trigger] input[j])
                &&& content_seen(input, name_end + 1, cursor, value_start, value_end as int)
            },
        }
    }
}

struct ValidatedSection {
    fields: Vec<FieldLayout>,
    bytes_consumed: usize,
}

pub fn parse_header_section(input: &[u8]) -> (result: Result<HeaderBlock>)
    ensures
        outcome(result) == parsed_whole(input@, false, true),
{
    let bytes_consumed: usize = prove_section_boundary(input)?;
    let validated = validate_field_grammar(input, bytes_consumed)?;
    Ok(build_header_block(input, validated.fields, validated.bytes_consumed))
}

/// Proves that the complete field section is present before doing any proportional allocation.
fn prove_section_boundary(input: &[u8]) -> (boundary: Result<usize>)
    ensures
        match boundary {
            Ok(consumed) => consumed >= 2 && section_end(input@, 0, false) == Ok::<int, Fault>(
                consumed - 2,
            ),
            Err(e) => section_end(input@, 0, false) == Err::<int, Fault>(e@),
        },
{
    let mut state = BoundaryState::LineStart { offset: 0 };
    let mut cursor: usize = 0;
    let ghost mut start = 0int;
    while cursor < input.len()
        invariant
            0 <= start <= cursor <= input@.len(),
            cursor <= SECTION_MAX,
            match state {
                BoundaryState::LineStart { offset } => offset == start == cursor,
                BoundaryState::LineBody { offset } => offset == start < cursor,
            },
            section_end(input@, 0, false) == section_end(input@, start, false),
            line_end(input@, start, start, false) == line_end(input@, start, cursor as int, false),
        decreases input@.len() - cursor,
    {
        if cursor == SECTION_MAX {
            return Err(limit_exceeded("header_section_bytes", SECTION_MAX, SECTION_MAX + 1));
        }
        let line_start: usize = match state {
            BoundaryState::LineStart { offset } => offset,
            BoundaryState::LineBody { offset } => offset,
        };
        match input[cursor] {
            10 => return Err(invalid_header(line_start, "bare_line_ending")),
            13 => {
                if cursor + 1 >= input.len() || input[cursor + 1] != '\n' as u8 {
                    return Err(invalid_header(line_start, "bare_line_ending"));
                }
                let next: usize = cursor + 2;
                if next > SECTION_MAX {
                    return Err(limit_exceeded("header_section_bytes", SECTION_MAX, next));
                }
                if let BoundaryState::LineStart { .. } = state {
                    return Ok(next);
                }
                state = BoundaryState::LineStart { offset: next };
                cursor = next;
                proof {
                    start = next as int;
                }
            },
            _ => {
                state = BoundaryState::LineBody { offset: line_start };
                cursor += 1;
            },
        }
    }
    Err(PolyguardError::Incomplete)
}

/// Converts the bounded section into immutable spans using an explicit lexical state machine.
fn validate_field_grammar(input: &[u8], bytes_consumed: usize) -> (validated: Result<
    ValidatedSection,
>)
    requires
        bytes_consumed >= 2,
        section_end(input@, 0, false) == Ok::<int, Fault>(bytes_consumed - 2),
    ensures
        ({
            let fields = lines(input@, 0, bytes_consumed - 2, Seq::empty(), true);
            match validated {
                Ok(v) => {
                    &&& fields == Ok::<Seq<FieldModel>, Fault>(fields_at(input@, v.fields@))
                    &&& v.bytes_consumed == bytes_consumed
                    &&& forall|i: int|
                        0 <= i < v.fields@.len() ==> (#[trigger] v.fields@[i]).fits(input@)
                },
                Err(e) => fields == Err::<Seq<FieldModel>, Fault>(e@),
            }
        }),
{
    let fields_end: usize = bytes_consumed - 2;
    let ghost stop = fields_end as int;
    let ghost wanted = lines(input@, 0, stop, Seq::empty(), true);
    let mut plans: Vec<FieldLayout> = Vec::new();
    let mut state = LexState::LineStart;
    let mut cursor: usize = 0;
    proof {
        lemma_section_end_after(input@, 0, false);
        assert(fields_at(input@, plans@) =~= Seq::<FieldModel>::empty());
    }
    while cursor < fields_end
        invariant
            stop == fields_end == bytes_consumed - 2,
            wanted == lines(input@, 0, stop, Seq::empty(), true),
            stop + 2 <= input@.len(),
            cursor <= fields_end,
            state.seen(input@, cursor as int, stop),
            plans@.len() <= FIELD_MAX,
            state is LineStart || plans@.len() < FIELD_MAX,
            forall|i: int| 0 <= i < plans@.len() ==> (#[trigger] plans@[i]).fits(input@),
            wanted == lines(
                input@,
                state.line(cursor as int),
                stop,
                fields_at(input@, plans@),
                true,
            ),
        decreases fields_end - cursor,
    {
        let ghost start = state.line(cursor as int);
        proof {
            lemma_line_end(input@, start, start, false);
            lemma_line_end_is_first_cr(input@, start, false);
            lemma_section_end_after(input@, start, false);
        }
        let ghost end = line_end(input@, start, start, false)->Ok_0;
        proof {
            assert(end > start);
            lemma_section_end_after(input@, end + 2, false);
        }
        state = match state {
            LexState::LineStart => {
                if plans.len() == FIELD_MAX {
                    return Err(PolyguardError::TooManyHeaders);
                }
                if is_ows(input[cursor]) {
                    assert(input@.subrange(start, end)[0] == input@[start]);
                    return Err(invalid_header(cursor, "obs_fold"));
                }
                let class = classify_name_byte(input[cursor]);
                let line_start: usize = cursor;
                cursor += 1;
                assert(input@.subrange(start, cursor as int) =~= seq![input@[start]]);
                LexState::Name { line_start, name_start: line_start, class }
            },
            LexState::Name { line_start, name_start, class } => match input[cursor] {
                0x3a => {
                    proof {
                        lemma_line_with_colon(input@, start, cursor as int, end);
                    }
                    validate_name(
                        name_start,
                        cursor,
                        class,
                        line_start,
                        Ghost(input@.subrange(start, cursor as int)),
                    )?;
                    cursor += 1;
                    LexState::Value {
                        line_start,
                        name_start,
                        name_end: cursor - 1,
                        value_start: None,
                        value_end: cursor,
                    }
                },
                13 => {
                    proof {
                        assert(cursor == end);
                        lemma_line_without_colon(input@, start, end);
                    }
                    return Err(invalid_header(line_start, "invalid_name"));
                },
                byte => {
                    proof {
                        let name = input@.subrange(start, cursor as int);
                        lemma_name_class(name, byte);
                        assert(name.push(byte) =~= input@.subrange(start, cursor + 1));
                    }
                    cursor += 1;
                    LexState::Name { line_start, name_start, class: advance_name_class(class, byte) }
                },
            },
            LexState::Value { line_start, name_start, name_end, value_start, value_end } => {
                let byte: u8 = input[cursor];
                proof {
                    lemma_line_with_colon(input@, start, name_end as int, end);
                }
                let ghost value = input@.subrange(name_end + 1, end);
                if byte == '\r' as u8 {
                    assert(cursor == end);
                    let value_from: usize = match value_start {
                        Some(first) => first,
                        None => cursor,
                    };
                    let value_upto: usize = match value_start {
                        Some(_) => value_end,
                        None => cursor,
                    };
                    let trimmed_length: usize = value_upto - value_from;
                    proof {
                        lemma_content_seen(
                            input@,
                            name_end + 1,
                            end,
                            value_start,
                            value_end as int,
                        );
                        assert(all_in(value, ByteClass::Field));
                    }
                    if trimmed_length > VALUE_MAX {
                        return Err(limit_exceeded("header_value_bytes", VALUE_MAX, trimmed_length));
                    }
                    let plan = FieldLayout {
                        name_start,
                        name_end,
                        value_start: value_from,
                        value_end: value_upto,
                    };
                    let ghost before = fields_at(input@, plans@);
                    plans.push(plan);
                    assert(fields_at(input@, plans@) =~= before.push(plan.field(input@)));
                    cursor += 2;
                    LexState::LineStart
                } else {
                    if !is_field_byte(byte) {
                        assert(!ByteClass::Field.has(value[cursor - name_end - 1]));
                        return Err(invalid_header(line_start, "invalid_value_byte"));
                    }
                    let is_content: bool = !is_ows(byte);
                    let next_start: Option<usize> = match value_start {
                        Some(first) => Some(first),
                        None => if is_content {
                            Some(cursor)
                        } else {
                            None
                        },
                    };
                    let next_end: usize = if is_content {
                        cursor + 1
                    } else {
                        value_end
                    };
                    cursor += 1;
                    LexState::Value {
                        line_start,
                        name_start,
                        name_end,
                        value_start: next_start,
                        value_end: next_end,
                    }
                }
            },
        };
    }
    proof {
        let start = state.line(cursor as int);
        lemma_line_end(input@, start, start, false);
        if !(state is LineStart) {
            let end = line_end(input@, start, start, false)->Ok_0;
            lemma_section_end_after(input@, end + 2, false);
        }
    }
    Ok(ValidatedSection { fields: plans, bytes_consumed })
}

/// The field of a line whose first colon, the first byte aside, is at `colon`.
proof fn lemma_line_with_colon(input: Seq<u8>, start: int, colon: int, end: int)
    requires
        0 <= start < colon < end <= input.len(),
        !is_ows(input[start]),
        input[colon] == ':' as u8,
        forall|j: int| start < j < colon ==> #[trigger] input[j] != ':' as u8,
    ensures
        ({
            let name = input.subrange(start, colon);
            let value = input.subrange(colon + 1, end);
            field_of_greedy(input.subrange(start, end), start) == if name_fault(name, start) is Some {
                Err::<FieldModel, Fault>(name_fault(name, start).unwrap())
            } else if value_fault(value, start) is Some {
                Err(value_fault(value, start).unwrap())
            } else {
                Ok(FieldModel { name: lowered(name), value: trimmed(value) })
            }
        }),
        name_fault(input.subrange(start, colon), start) is None ==> all_in(
            input.subrange(start, colon),
            ByteClass::Token,
        ),
{
    let line = input.subrange(start, end);
    let class = ByteClass::Only(':' as u8);
    let from: int = if line[0] == ':' as u8 {
        1
    } else {
        0
    };
    assert forall|j: int| from <= j < colon - start implies !class.has(#[trigger] line[j]) by {
        assert(line[j] == input[start + j]);
    }
    assert(line[colon - start] == input[colon]);
    lemma_first_from_unique(line, class, from, colon - start);
    assert(line.subrange(0, colon - start) =~= input.subrange(start, colon));
    assert(line.subrange(colon - start + 1, line.len() as int) =~= input.subrange(colon + 1, end));
    if from == 1 {
        let name = input.subrange(start, colon);
        assert(!ByteClass::Token.has(name[0]));
        assert(name_fault(name, start) is Some);
    }
}

/// A line with no colon after its first byte holds no field.
proof fn lemma_line_without_colon(input: Seq<u8>, start: int, end: int)
    requires
        0 <= start < end <= input.len(),
        !is_ows(input[start]),
        forall|j: int| start < j < end ==> #[trigger] input[j] != ':' as u8,
    ensures
        field_of_greedy(input.subrange(start, end), start) == Err::<FieldModel, Fault>(
            header_fault(start, "invalid_name"@),
        ),
{
    let line = input.subrange(start, end);
    let class = ByteClass::Only(':' as u8);
    let from: int = if line[0] == ':' as u8 {
        1
    } else {
        0
    };
    assert forall|j: int| from <= j < line.len() implies !class.has(#[trigger] line[j]) by {
        assert(line[j] == input[start + j]);
    }
    lemma_first_from_unique(line, class, from, line.len() as int);
}

fn validate_name(
    name_start: usize,
    name_end: usize,
    class: NameClass,
    line_start: usize,
    Ghost(name): Ghost<Seq<u8>>,
) -> (valid: Result<()>)
    requires
        name_start < name_end,
        name.len() == name_end - name_start,
        class == name_class(name),
    ensures
        match valid {
            Ok(_) => name_fault(name, line_start as int) is None,
            Err(e) => name_fault(name, line_start as int) == Some(e@),
        },
{
    let length: usize = name_end - name_start;
    if length > NAME_MAX {
        return Err(limit_exceeded("header_name_bytes", NAME_MAX, length));
    }
    match class {
        NameClass::Token => Ok(()),
        NameClass::ContainsWhitespace => Err(
            invalid_header(line_start, "whitespace_before_colon"),
        ),
        NameClass::Invalid => Err(invalid_header(line_start, "invalid_name")),
    }
}

fn classify_name_byte(byte: u8) -> (class: NameClass)
    ensures
        class == name_class(seq![byte]),
{
    let ghost name = seq![byte];
    assert(name[0] == byte);
    if is_token(byte) {
        NameClass::Token
    } else if is_ows(byte) {
        assert(ByteClass::Ows.has(name[0]));
        NameClass::ContainsWhitespace
    } else {
        assert(!ByteClass::Token.has(name[0]));
        NameClass::Invalid
    }
}

/// The class of a name that goes on with one more byte.
spec fn advanced(class: NameClass, next: NameClass) -> NameClass {
    match (class, next) {
        (NameClass::ContainsWhitespace, _) => NameClass::ContainsWhitespace,
        (_, NameClass::ContainsWhitespace) => NameClass::ContainsWhitespace,
        (NameClass::Invalid, _) => NameClass::Invalid,
        (_, NameClass::Invalid) => NameClass::Invalid,
        (NameClass::Token, NameClass::Token) => NameClass::Token,
    }
}

proof fn lemma_name_class(name: Seq<u8>, byte: u8)
    ensures
        name_class(name.push(byte)) == advanced(name_class(name), name_class(seq![byte])),
{
    let longer = name.push(byte);
    let one = seq![byte];
    assert(longer[name.len() as int] == byte);
    assert(one[0] == byte);
    assert forall|j: int| 0 <= j < name.len() implies #[trigger] longer[j] == name[j] by {}
    if any_in(name, ByteClass::Ows) {
        let j = choose|j: int| 0 <= j < name.len() && ByteClass::Ows.has(#[trigger] name[j]);
        assert(ByteClass::Ows.has(longer[j]));
    }
    if any_in(longer, ByteClass::Ows) && !is_ows(byte) {
        let j = choose|j: int| 0 <= j < longer.len() && ByteClass::Ows.has(#[trigger] longer[j]);
        assert(ByteClass::Ows.has(name[j]));
    }
    if !all_in(name, ByteClass::Token) {
        let j = choose|j: int| 0 <= j < name.len() && !ByteClass::Token.has(#[trigger] name[j]);
        assert(!ByteClass::Token.has(longer[j]));
    }
}

fn advance_name_class(class: NameClass, byte: u8) -> (next: NameClass)
    ensures
        next == advanced(class, name_class(seq![byte])),
{
    match (class, classify_name_byte(byte)) {
        (NameClass::ContainsWhitespace, _) | (_, NameClass::ContainsWhitespace) => {
            NameClass::ContainsWhitespace
        },
        (NameClass::Invalid, _) | (_, NameClass::Invalid) => NameClass::Invalid,
        _ => NameClass::Token,
    }
}

} // verus!
