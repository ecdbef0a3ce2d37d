//! Header parsing by two transition functions: one frames the lines, one reduces each of them.

use vstd::prelude::*;
use crate::bytes::{
    ByteClass, all_in, any_in, find_from, is_field_byte, is_ows, is_token,
    lemma_first_from_unique, lemma_one_more,
};
use crate::header::{
    FIELD_MAX, FieldLayout, NAME_MAX, SECTION_MAX, VALUE_MAX, build_header_block, content_seen,
    field_of, fields_at, header_fault, lemma_content_seen, lemma_line_count_stays, lemma_line_end,
    lemma_line_end_is_first_cr, lemma_section_end_after, line_count, line_end, lines,
    parsed_whole, section_end,
};
use crate::types::{
    Fault, FieldModel, HeaderBlock, PolyguardError, Result, invalid_header, limit_exceeded,
    outcome,
};

verus! {

#[derive(Clone, Copy)]
enum FramingState {
    LineStart { offset: usize },
    LineData { offset: usize },
    AfterCarriageReturn { offset: usize, empty: bool },
}

impl FramingState {
    spec fn line(self) -> int {
        match self {
            FramingState::LineStart { offset } => offset as int,
            FramingState::LineData { offset } => offset as int,
            FramingState::AfterCarriageReturn { offset, .. } => offset as int,
        }
    }

    /// Whether a field line is done where one state follows the other.
    spec fn ends_with(self, next: Self) -> bool {
        self matches FramingState::AfterCarriageReturn { empty: false, .. } && next is LineStart
    }

    /// What the state says of the input up to the cursor.
    spec fn seen(self, input: Seq<u8>, cursor: int) -> bool {
        let start = self.line();
        let end = line_end(input, start, start, true);
        match self {
            FramingState::LineStart { .. } => cursor == start,
            FramingState::LineData { .. } => start < cursor && end == line_end(
                input,
                start,
                cursor,
                true,
            ),
            FramingState::AfterCarriageReturn { empty, .. } => {
                &&& start < cursor
                &&& input[cursor - 1] == '\r' as u8
                &&& empty == (start == cursor - 1)
                &&& end == line_end(input, start, cursor - 1, true)
            },
        }
    }
}

enum FramingTransition {
    Continue(FramingState),
    Complete,
}

/// How many bytes a section takes up, and how many field lines it has.
#[derive(Clone, Copy)]
pub struct SectionEnvelope {
    pub bytes_consumed: usize,
    pub field_count: usize,
}

impl SectionEnvelope {
    /// Whether the envelope is that of the section at the start of the input.
    pub open spec fn frames(self, input: Seq<u8>) -> bool {
        &&& self.bytes_consumed >= 2
        &&& section_end(input, 0, true) == Ok::<int, Fault>(self.bytes_consumed - 2)
        &&& self.field_count == line_count(input, self.bytes_consumed - 2)
    }
}

#[derive(Clone, Copy)]
struct NameFacts {
    length: usize,
    has_whitespace: bool,
    has_invalid: bool,
}

impl NameFacts {
    /// What the facts say of a name.
    spec fn describes(self, name: Seq<u8>) -> bool {
        &&& self.length == name.len()
        &&& self.has_whitespace == any_in(name, ByteClass::Ows)
        &&& self.has_invalid == !all_in(name, ByteClass::Token)
        &&& forall|j: int| 0 <= j < name.len() ==> #[trigger] name[j] != ':' as u8
    }
}

#[derive(Clone, Copy)]
struct ValueFacts {
    name: NameFacts,
    colon: usize,
    first_content: Option<usize>,
    content_end: usize,
    has_invalid: bool,
}

#[derive(Clone, Copy)]
enum FieldState {
    Name(NameFacts),
    Value(ValueFacts),
}

impl FieldState {
    /// What the state says of the line up to `upto`.
    spec fn seen(self, line: Seq<u8>, upto: int) -> bool {
        match self {
            FieldState::Name(facts) => facts.describes(line.subrange(0, upto)),
            FieldState::Value(facts) => {
                &&& facts.colon < upto
                &&& line[facts.colon as int] == ':' as u8
                &&& facts.name.describes(line.subrange(0, facts.colon as int))
                &&& facts.has_invalid == !all_in(
                    line.subrange(facts.colon + 1, upto),
                    ByteClass::Field,
                )
                &&& content_seen(
                    line,
                    facts.colon + 1,
                    upto,
                    facts.first_content,
                    facts.content_end as int,
                )
            },
        }
    }
}

pub fn parse_header_section(input: &[u8]) -> (result: Result<HeaderBlock>)
    ensures
        outcome(result) == parsed_whole(input@, true, false),
{
    let envelope = validate_framing(input)?;
    let plans = validate_fields(input, envelope)?;
    Ok(build_header_block(input, plans, envelope.bytes_consumed))
}

/// Establishes the complete, bounded envelope of lines without allocating from untrusted input.
pub fn validate_framing(input: &[u8]) -> (envelope: Result<SectionEnvelope>)
    ensures
        match envelope {
            Ok(e) => e.frames(input@),
            Err(e) => section_end(input@, 0, true) == Err::<int, Fault>(e@),
        },
{
    let mut state = FramingState::LineStart { offset: 0 };
    let mut cursor: usize = 0;
    let mut field_count: usize = 0;
    loop
        invariant
            cursor <= SECTION_MAX,
            field_count <= cursor,
            field_count == line_count(input@, cursor as int),
            cursor <= input@.len(),
            0 <= state.line(),
            state.seen(input@, cursor as int),
            section_end(input@, 0, true) == section_end(input@, state.line(), true),
        decreases SECTION_MAX - cursor,
    {
        if cursor == SECTION_MAX {
            if cursor < input.len() {
                return Err(limit_exceeded("header_section_bytes", SECTION_MAX, SECTION_MAX + 1));
            }
            return match state {
                FramingState::AfterCarriageReturn { offset, .. } => Err(
                    invalid_header(offset, "bare_line_ending"),
                ),
                _ => Err(PolyguardError::Incomplete),
            };
        }
        if cursor >= input.len() {
            return match state {
                FramingState::AfterCarriageReturn { offset, .. } => Err(
                    invalid_header(offset, "bare_line_ending"),
                ),
                _ => Err(PolyguardError::Incomplete),
            };
        }
        match framing_step(state, cursor, input[cursor], Ghost(input@)) {
            Ok(FramingTransition::Continue(next)) => {
                if is_line_done(state, next) {
                    field_count += 1;
                }
                state = next;
                cursor += 1;
            },
            Ok(FramingTransition::Complete) => {
                return Ok(SectionEnvelope { bytes_consumed: cursor + 1, field_count });
            },
            Err(reason) => return Err(invalid_header(line_offset(state), reason)),
        }
    }
}

fn is_line_done(state: FramingState, next: FramingState) -> (done: bool)
    ensures
        done == state.ends_with(next),
{
    match (state, next) {
        (
            FramingState::AfterCarriageReturn { empty: false, .. },
            FramingState::LineStart { .. },
        ) => true,
        _ => false,
    }
}

fn framing_step(
    state: FramingState,
    index: usize,
    byte: u8,
    Ghost(input): Ghost<Seq<u8>>,
) -> (step: std::result::Result<FramingTransition, &'static str>)
    requires
        index < input.len(),
        index < SECTION_MAX,
        byte == input[index as int],
        state.seen(input, index as int),
    ensures
        match step {
            Ok(FramingTransition::Continue(next)) => {
                &&& next.seen(input, index + 1)
                &&& byte == '\n' as u8 <==> state.ends_with(next)
                &&& section_end(input, state.line(), true) == section_end(input, next.line(), true)
            },
            Ok(FramingTransition::Complete) => index >= 1 && input[index - 1] == '\r' as u8
                && section_end(input, state.line(), true) == Ok::<int, Fault>(index - 1),
            Err(reason) => section_end(input, state.line(), true) == Err::<int, Fault>(
                header_fault(state.line(), reason@),
            ),
        },
{
    match (state, byte) {
        (FramingState::LineStart { offset }, 13) => Ok(
            FramingTransition::Continue(FramingState::AfterCarriageReturn { offset, empty: true }),
        ),
        (FramingState::LineStart { .. }, 10) => Err("bare_line_ending"),
        (FramingState::LineStart { offset }, _) => Ok(
            FramingTransition::Continue(FramingState::LineData { offset }),
        ),
        (FramingState::LineData { offset }, 13) => Ok(
            FramingTransition::Continue(FramingState::AfterCarriageReturn { offset, empty: false }),
        ),
        (FramingState::LineData { .. }, 10) => Err("bare_line_ending"),
        (FramingState::LineData { offset }, _) => Ok(
            FramingTransition::Continue(FramingState::LineData { offset }),
        ),
        (FramingState::AfterCarriageReturn { empty: true, .. }, 10) => Ok(
            FramingTransition::Complete,
        ),
        (FramingState::AfterCarriageReturn { empty: false, .. }, 10) => Ok(
            FramingTransition::Continue(FramingState::LineStart { offset: index + 1 }),
        ),
        (FramingState::AfterCarriageReturn { .. }, _) => Err("bare_line_ending"),
    }
}

fn line_offset(state: FramingState) -> (offset: usize)
    ensures
        offset == state.line(),
{
    match state {
        FramingState::LineStart { offset } => offset,
        FramingState::LineData { offset } => offset,
        FramingState::AfterCarriageReturn { offset, .. } => offset,
    }
}

/// Reduces each already framed line to immutable source spans before creating owned output.
fn validate_fields(input: &[u8], envelope: SectionEnvelope) -> (plans: Result<Vec<FieldLayout>>)
    requires
        envelope.frames(input@),
    ensures
        ({
            let fields = lines(input@, 0, envelope.bytes_consumed - 2, Seq::empty(), false);
            match plans {
                Ok(v) => {
                    &&& v@.len() == envelope.field_count
                    &&& fields == Ok::<Seq<FieldModel>, Fault>(fields_at(input@, v@))
                    &&& forall|i: int| 0 <= i < v@.len() ==> (#[trigger] v@[i]).fits(input@)
                },
                Err(e) => fields == Err::<Seq<FieldModel>, Fault>(e@),
            }
        }),
{
    let stop: usize = envelope.bytes_consumed - 2;
    let ghost wanted = lines(input@, 0, stop as int, Seq::empty(), false);
    let mut line_start: usize = 0;
    let mut plans: Vec<FieldLayout> = Vec::new();
    proof {
        lemma_section_end_after(input@, 0, true);
        assert(fields_at(input@, plans@) =~= Seq::<FieldModel>::empty());
    }
    while line_start < stop
        invariant
            stop == envelope.bytes_consumed - 2,
            stop + 2 <= input@.len(),
            line_start <= stop,
            section_end(input@, line_start as int, true) == Ok::<int, Fault>(stop as int),
            envelope.field_count == line_count(input@, stop as int),
            plans@.len() <= FIELD_MAX,
            plans@.len() == line_count(input@, line_start as int),
            forall|i: int| 0 <= i < plans@.len() ==> (#[trigger] plans@[i]).fits(input@),
            wanted == lines(input@, 0, stop as int, Seq::empty(), false),
            wanted == lines(
                input@,
                line_start as int,
                stop as int,
                fields_at(input@, plans@),
                false,
            ),
        decreases stop - line_start,
    {
        let ghost start = line_start as int;
        let ghost end = line_end(input@, start, start, true)->Ok_0;
        proof {
            lemma_line_end(input@, start, start, true);
            lemma_line_end_is_first_cr(input@, start, true);
            lemma_section_end_after(input@, start, true);
            lemma_section_end_after(input@, end + 2, true);
        }
        if plans.len() == FIELD_MAX {
            return Err(PolyguardError::TooManyHeaders);
        }
        let line_feed: usize = find_from(input, ByteClass::Only('\n' as u8), line_start);
        proof {
            assert forall|j: int| start <= j < end + 1 implies !ByteClass::Only('\n' as u8).has(
                #[trigger] input@[j],
            ) by {
                if j < end {
                    assert(!ByteClass::LineBreak.has(input@[j]));
                }
            }
            lemma_first_from_unique(input@, ByteClass::Only('\n' as u8), start, end + 1);
            assert forall|j: int| start <= j < end + 1 implies #[trigger] input@[j]
                != '\n' as u8 by {
                assert(!ByteClass::Only('\n' as u8).has(input@[j]));
            }
            lemma_line_count_stays(input@, start, end + 1);
        }
        let line: &[u8] = &input[line_start..line_feed - 1];
        let plan = reduce_field(line, line_start, Ghost(input@))?;
        let ghost before = fields_at(input@, plans@);
        plans.push(plan);
        assert(fields_at(input@, plans@) =~= before.push(plan.field(input@)));
        line_start = line_feed + 1;
    }
    Ok(plans)
}

fn reduce_field(line: &[u8], line_start: usize, Ghost(input): Ghost<Seq<u8>>) -> (plan: Result<
    FieldLayout,
>)
    requires
        line@.len() > 0,
        line_start + line@.len() <= input.len(),
        line_start + line@.len() <= usize::MAX,
        line@ == input.subrange(line_start as int, line_start + line@.len()),
    ensures
        match plan {
            Ok(p) => p.fits(input) && field_of(line@, line_start as int) == Ok::<
                FieldModel,
                Fault,
            >(p.field(input)),
            Err(e) => field_of(line@, line_start as int) == Err::<FieldModel, Fault>(e@),
        },
{
    if is_ows(line[0]) {
        return Err(invalid_header(line_start, "obs_fold"));
    }
    let mut state = FieldState::Name(
        NameFacts { length: 0, has_whitespace: false, has_invalid: false },
    );
    let mut index: usize = 0;
    while index < line.len()
        invariant
            index <= line@.len(),
            state.seen(line@, index as int),
        decreases line@.len() - index,
    {
        state = field_step(state, index, line[index], Ghost(line@));
        index += 1;
    }
    decide_field(state, line_start, line, Ghost(input))
}

fn field_step(state: FieldState, index: usize, byte: u8, Ghost(line): Ghost<Seq<u8>>) -> (next:
    FieldState)
    requires
        index < line.len() <= usize::MAX,
        byte == line[index as int],
        state.seen(line, index as int),
    ensures
        next.seen(line, index + 1),
{
    match state {
        FieldState::Name(facts) => if byte == ':' as u8 {
            FieldState::Value(
                ValueFacts {
                    name: facts,
                    colon: index,
                    first_content: None,
                    content_end: index + 1,
                    has_invalid: false,
                },
            )
        } else {
            proof {
                lemma_one_more(line, 0, index as int, ByteClass::Ows);
                lemma_one_more(line, 0, index as int, ByteClass::Token);
                assert(line.subrange(0, index + 1) =~= line.subrange(0, index as int).push(byte));
            }
            FieldState::Name(
                NameFacts {
                    length: facts.length + 1,
                    has_whitespace: facts.has_whitespace || is_ows(byte),
                    has_invalid: facts.has_invalid || !is_token(byte),
                },
            )
        },
        FieldState::Value(facts) => {
            proof {
                lemma_one_more(line, facts.colon + 1, index as int, ByteClass::Field);
            }
            let content: bool = !is_ows(byte);
            FieldState::Value(
                ValueFacts {
                    name: facts.name,
                    colon: facts.colon,
                    first_content: match facts.first_content {
                        Some(first) => Some(first),
                        None => if content {
                            Some(index)
                        } else {
                            None
                        },
                    },
                    content_end: if content {
                        index + 1
                    } else {
                        facts.content_end
                    },
                    has_invalid: facts.has_invalid || !is_field_byte(byte),
                },
            )
        },
    }
}

fn decide_field(
    state: FieldState,
    line_start: usize,
    line: &[u8],
    Ghost(input): Ghost<Seq<u8>>,
) -> (plan: Result<FieldLayout>)
    requires
        line@.len() > 0,
        !is_ows(line@[0]),
        line_start + line@.len() <= input.len(),
        line_start + line@.len() <= usize::MAX,
        line@ == input.subrange(line_start as int, line_start + line@.len()),
        state.seen(line@, line@.len() as int),
    ensures
        match plan {
            Ok(p) => p.fits(input) && field_of(line@, line_start as int) == Ok::<
                FieldModel,
                Fault,
            >(p.field(input)),
            Err(e) => field_of(line@, line_start as int) == Err::<FieldModel, Fault>(e@),
        },
{
    let line_len: usize = line.len();
    let ghost class = ByteClass::Only(':' as u8);
    let value = match state {
        FieldState::Value(value) => value,
        FieldState::Name(_) => {
            proof {
                let name = line@.subrange(0, line@.len() as int);
                assert forall|j: int| 0 <= j < line@.len() implies !class.has(
                    #[trigger] line@[j],
                ) by {
                    assert(name[j] == line@[j]);
                }
                lemma_first_from_unique(line@, class, 0, line@.len() as int);
            }
            return Err(invalid_header(line_start, "invalid_name"));
        },
    };
    let ghost colon = value.colon as int;
    proof {
        let name = line@.subrange(0, colon);
        assert forall|j: int| 0 <= j < colon implies !class.has(#[trigger] line@[j]) by {
            assert(name[j] == line@[j]);
        }
        lemma_first_from_unique(line@, class, 0, colon);
        lemma_content_seen(
            line@,
            colon + 1,
            line@.len() as int,
            value.first_content,
            value.content_end as int,
        );
    }
    if value.colon == 0 {
        return Err(invalid_header(line_start, "invalid_name"));
    }
    if value.name.length > NAME_MAX {
        return Err(limit_exceeded("header_name_bytes", NAME_MAX, value.name.length));
    }
    if value.name.has_whitespace {
        return Err(invalid_header(line_start, "whitespace_before_colon"));
    }
    if value.name.has_invalid {
        return Err(invalid_header(line_start, "invalid_name"));
    }
    if value.has_invalid {
        return Err(invalid_header(line_start, "invalid_value_byte"));
    }
    let value_start: usize = match value.first_content {
        Some(first) => first,
        None => line_len,
    };
    let value_end: usize = match value.first_content {
        Some(_) => value.content_end,
        None => line_len,
    };
    let value_length: usize = value_end - value_start;
    if value_length > VALUE_MAX {
        return Err(limit_exceeded("header_value_bytes", VALUE_MAX, value_length));
    }
    let plan = FieldLayout {
        name_start: line_start,
        name_end: line_start + value.colon,
        value_start: line_start + value_start,
        value_end: line_start + value_end,
    };
    proof {
        assert(input.subrange(plan.name_start as int, plan.name_end as int) =~= line@.subrange(
            0,
            colon,
        ));
        assert(input.subrange(plan.value_start as int, plan.value_end as int) =~= line@.subrange(
            value_start as int,
            value_end as int,
        ));
    }
    Ok(plan)
}

} // verus!
