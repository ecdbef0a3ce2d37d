//! Trailer parsing by an automaton whose events are lines.

use vstd::prelude::*;
use crate::bytes::{
    ByteClass, all_bytes_in, all_in, any_byte_in, any_in, first_from, is_field_byte, is_ows,
    is_token, lemma_first_from_unique, lemma_one_more, lower_bytes, lowered, same_ignoring_case,
};
use crate::header::{FieldLayout, build_header_block, content_seen, fields_at, lemma_content_seen};
use crate::names::NameSet;
use crate::text::{token_text, utf8};
use crate::trailer::{
    TRAILER_FIELD_MAX, TRAILER_MAX, TRAILER_NAME_MAX, TRAILER_VALUE_MAX, declaration_fault,
    declarations_fault, envelope, first_declaration_fault, grammar, has_name, is_forbidden,
    is_forbidden_name, lemma_policy_prefix, lemma_prefix_decides, parsed_in_phases, policy_fault,
    trailer_fault, trailer_field, trailer_line_end,
};
use crate::types::{
    BlockModel, Fault, FieldModel, PolyguardError, Result, TrailerBlock, invalid_trailer,
    limit_exceeded, outcome, texts_of,
};

verus! {

enum DeclarationFact {
    Usable,
    Malformed,
    Forbidden,
}

/// The declared names.
struct DeclarationDomain {
    ordered: NameSet,
}

#[derive(Clone, Copy)]
struct NameFacts {
    start: usize,
    length: usize,
    begins_with_ows: bool,
    contains_ows: bool,
    contains_non_token: bool,
}

impl NameFacts {
    /// What the facts say of a name in `input[start..end]`.
    spec fn describes(self, input: Seq<u8>, start: int, end: int) -> bool {
        let name = input.subrange(start, end);
        &&& self.start == start
        &&& self.length == end - start
        &&& self.begins_with_ows == is_ows(input[start])
        &&& self.contains_ows == any_in(name, ByteClass::Ows)
        &&& self.contains_non_token == !all_in(name, ByteClass::Token)
        &&& forall|j: int| start <= j < end ==> #[trigger] input[j] != ':' as u8
    }
}

#[derive(Clone, Copy)]
struct ValueFacts {
    name: NameFacts,
    name_end: usize,
    value_start: usize,
    first_content: Option<usize>,
    content_end: usize,
    contains_invalid_octet: bool,
}

impl ValueFacts {
    /// What the facts say of a name and a value in `input[start..end]`.
    spec fn describes(self, input: Seq<u8>, start: int, end: int) -> bool {
        &&& start <= self.name_end < end
        &&& self.name.describes(input, start, self.name_end as int)
        &&& input[self.name_end as int] == ':' as u8
        &&& self.value_start == self.name_end + 1
        &&& self.first_content is None ==> self.content_end == self.value_start
        &&& content_seen(
            input,
            self.value_start as int,
            end,
            self.first_content,
            self.content_end as int,
        )
        &&& self.contains_invalid_octet == !all_in(
            input.subrange(self.value_start as int, end),
            ByteClass::Field,
        )
    }
}

#[derive(Clone, Copy)]
enum RawLine {
    MissingColon(NameFacts),
    Complete(ValueFacts),
}

impl RawLine {
    spec fn describes(self, input: Seq<u8>, start: int, end: int) -> bool {
        match self {
            RawLine::MissingColon(facts) => facts.describes(input, start, end),
            RawLine::Complete(facts) => facts.describes(input, start, end),
        }
    }
}

#[derive(Clone, Copy)]
enum PendingLine {
    Terminator,
    Field(RawLine),
}

#[derive(Clone, Copy)]
enum MachineState {
    LineStart,
    Name(NameFacts),
    Value(ValueFacts),
    NeedLineFeed(PendingLine),
}

impl MachineState {
    /// What the state says of the line at `start`, read up to the cursor.
    spec fn seen(self, input: Seq<u8>, start: int, cursor: int) -> bool {
        let end = trailer_line_end(input, start, true);
        match self {
            MachineState::LineStart => cursor == start,
            MachineState::Name(facts) => {
                &&& start < cursor
                &&& end == trailer_line_end(input, cursor, true)
                &&& facts.describes(input, start, cursor)
            },
            MachineState::Value(facts) => {
                &&& start < cursor
                &&& end == trailer_line_end(input, cursor, true)
                &&& facts.describes(input, start, cursor)
            },
            MachineState::NeedLineFeed(pending) => {
                &&& start < cursor
                &&& input[cursor - 1] == '\r' as u8
                &&& end == trailer_line_end(input, cursor - 1, true)
                &&& match pending {
                    PendingLine::Terminator => start == cursor - 1,
                    PendingLine::Field(line) => start < cursor - 1 && line.describes(
                        input,
                        start,
                        cursor - 1,
                    ),
                }
            },
        }
    }
}

enum MachineEvent {
    Advance(MachineState),
    Emit(RawLine),
    Finish,
}

struct WireEnvelope {
    lines: Vec<RawLine>,
    bytes_consumed: usize,
    spans: Ghost<Seq<(int, int)>>,
}

/// Whether a raw line describes the span of the input that it came from.
spec fn describes_span(line: RawLine, input: Seq<u8>, span: (int, int)) -> bool {
    0 <= span.0 < span.1 <= input.len() && line.describes(input, span.0, span.1)
}

/// Whether raw lines describe the spans of the input that they came from.
spec fn describe_all(lines: Seq<RawLine>, input: Seq<u8>, spans: Seq<(int, int)>) -> bool {
    &&& lines.len() == spans.len()
    &&& forall|i: int|
        0 <= i < lines.len() ==> describes_span(#[trigger] lines[i], input, spans[i])
}

pub fn parse_trailer_section(input: &[u8], declared_names: &[String]) -> (result: Result<
    TrailerBlock,
>)
    ensures
        outcome(result) == parsed_in_phases(input@, texts_of(declared_names@)),
{
    let declarations = compile_declarations(declared_names)?;
    let envelope = run_wire_automaton(input)?;
    let plans = decide_field_grammar(&envelope.lines, Ghost(input@), Ghost(envelope.spans@))?;
    enforce_trailer_policy(input, &plans, &declarations, Ghost(texts_of(declared_names@)))?;
    Ok(materialize(input, plans, envelope.bytes_consumed))
}

fn compile_declarations(names: &[String]) -> (domain: Result<DeclarationDomain>)
    ensures
        match domain {
            Ok(d) => {
                &&& declarations_fault(texts_of(names@), false) is None
                &&& d.ordered.well_formed()
                &&& forall|name: Seq<u8>| #[trigger]
                    d.ordered.has(name) <==> texts_of(names@).contains(name)
            },
            Err(e) => declarations_fault(texts_of(names@), false) == Some(e@),
        },
{
    let ghost texts = texts_of(names@);
    // Every bound on a single name is established before any storage is allocated.
    let mut index: usize = 0;
    while index < names.len()
        invariant
            index <= names@.len(),
            texts == texts_of(names@),
            first_declaration_fault(texts, 0, false) == first_declaration_fault(
                texts,
                index as int,
                false,
            ),
        decreases names@.len() - index,
    {
        let name: &[u8] = names[index].as_str().as_bytes();
        assert(texts[index as int] == name@);
        match classify_declaration(name) {
            DeclarationFact::Usable => {},
            DeclarationFact::Malformed => return Err(invalid_trailer("invalid_declaration")),
            DeclarationFact::Forbidden => return Err(invalid_trailer("forbidden_field")),
        }
        index += 1;
    }
    let mut ordered = NameSet::new();
    let mut added: usize = 0;
    assert(texts.take(0) =~= Seq::<Seq<u8>>::empty());
    while added < names.len()
        invariant
            added <= names@.len(),
            texts == texts_of(names@),
            first_declaration_fault(texts, 0, false) is None,
            texts.take(added as int).no_duplicates(),
            ordered.well_formed(),
            forall|name: Seq<u8>| #[trigger]
                ordered.has(name) <==> texts.take(added as int).contains(name),
        decreases names@.len() - added,
    {
        let ghost before = texts.take(added as int);
        let name: String = names[added].clone();
        assert(texts[added as int] == utf8(name@));
        if ordered.contains(name.as_str()) {
            proof {
                let j = choose|j: int| 0 <= j < before.len() && before[j] == utf8(name@);
                assert(texts[j] == texts[added as int]);
            }
            return Err(invalid_trailer("duplicate_declaration"));
        }
        ordered.insert(name);
        proof {
            let after = texts.take(added + 1);
            assert(after =~= before.push(texts[added as int]));
            assert forall|other: Seq<u8>| #[trigger] ordered.has(other) <==> after.contains(
                other,
            ) by {
                if before.contains(other) {
                    let j = choose|j: int| 0 <= j < before.len() && before[j] == other;
                    assert(after[j] == other);
                }
                if other == texts[added as int] {
                    assert(after[added as int] == other);
                }
                if after.contains(other) && other != texts[added as int] {
                    let j = choose|j: int| 0 <= j < after.len() && after[j] == other;
                    assert(before[j] == other);
                }
            }
        }
        added += 1;
    }
    assert(texts.take(added as int) =~= texts);
    Ok(DeclarationDomain { ordered })
}

fn classify_declaration(name: &[u8]) -> (fact: DeclarationFact)
    ensures
        declaration_fault(name@, true) == match fact {
            DeclarationFact::Usable => None::<Fault>,
            DeclarationFact::Malformed => Some(trailer_fault("invalid_declaration"@)),
            DeclarationFact::Forbidden => Some(trailer_fault("forbidden_field"@)),
        },
{
    if name.len() == 0 || name.len() > TRAILER_NAME_MAX || any_byte_in(name, ByteClass::Upper)
        || !all_bytes_in(name, ByteClass::Token) {
        DeclarationFact::Malformed
    } else if is_forbidden_name(name) {
        DeclarationFact::Forbidden
    } else {
        DeclarationFact::Usable
    }
}

fn run_wire_automaton(input: &[u8]) -> (found: Result<WireEnvelope>)
    ensures
        match found {
            Ok(e) => {
                &&& e.bytes_consumed >= 2
                &&& envelope(input@, 0, Seq::empty()) == Ok::<(Seq<(int, int)>, int), Fault>(
                    (e.spans@, e.bytes_consumed - 2),
                )
                &&& describe_all(e.lines@, input@, e.spans@)
            },
            Err(e) => envelope(input@, 0, Seq::empty()) == Err::<(Seq<(int, int)>, int), Fault>(e@),
        },
{
    let mut state = MachineState::LineStart;
    let mut cursor: usize = 0;
    let mut lines: Vec<RawLine> = Vec::new();
    let ghost mut start = 0int;
    let ghost mut spans: Seq<(int, int)> = Seq::empty();
    loop
        invariant
            cursor <= TRAILER_MAX,
            cursor <= input@.len(),
            0 <= start <= cursor,
            state.seen(input@, start, cursor as int),
            lines@.len() <= TRAILER_FIELD_MAX,
            describe_all(lines@, input@, spans),
            envelope(input@, 0, Seq::empty()) == envelope(input@, start, spans),
        decreases TRAILER_MAX - cursor,
    {
        if cursor == TRAILER_MAX {
            if input.len() > TRAILER_MAX {
                return Err(section_limit(TRAILER_MAX + 1));
            }
            return Err(end_of_input(state));
        }
        if cursor >= input.len() {
            return Err(end_of_input(state));
        }
        match transition(state, cursor, input[cursor], Ghost(input@), Ghost(start)) {
            Err(reason) => return Err(invalid_trailer(reason)),
            Ok(MachineEvent::Advance(next)) => {
                state = next;
            },
            Ok(MachineEvent::Emit(line)) => {
                if lines.len() == TRAILER_FIELD_MAX {
                    return Err(invalid_trailer("too_many_fields"));
                }
                let ghost before = lines@;
                lines.push(line);
                proof {
                    let longer = spans.push((start, cursor - 1));
                    assert forall|i: int| 0 <= i < lines@.len() implies describes_span(
                        #[trigger] lines@[i],
                        input@,
                        longer[i],
                    ) by {
                        if i < before.len() {
                            assert(describes_span(before[i], input@, spans[i]));
                        }
                    }
                    spans = longer;
                    start = cursor + 1;
                }
                state = MachineState::LineStart;
            },
            Ok(MachineEvent::Finish) => {
                return Ok(
                    WireEnvelope { lines, bytes_consumed: cursor + 1, spans: Ghost(spans) },
                );
            },
        }
        cursor += 1;
    }
}

fn end_of_input(state: MachineState) -> (error: PolyguardError)
    ensures
        error@ == match state {
            MachineState::NeedLineFeed(_) => trailer_fault("bare_line_ending"@),
            _ => Fault::Incomplete,
        },
{
    match state {
        MachineState::NeedLineFeed(_) => invalid_trailer("bare_line_ending"),
        MachineState::LineStart | MachineState::Name(_) | MachineState::Value(_) => {
            PolyguardError::Incomplete
        },
    }
}

fn transition(
    state: MachineState,
    index: usize,
    byte: u8,
    Ghost(input): Ghost<Seq<u8>>,
    Ghost(start): Ghost<int>,
) -> (event: std::result::Result<MachineEvent, &'static str>)
    requires
        0 <= start <= index < input.len(),
        index < TRAILER_MAX,
        byte == input[index as int],
        state.seen(input, start, index as int),
    ensures
        ({
            let end = trailer_line_end(input, start, true);
            match event {
                Ok(MachineEvent::Advance(next)) => next.seen(input, start, index + 1),
                Ok(MachineEvent::Emit(line)) => {
                    &&& start < index - 1
                    &&& end == Ok::<int, Fault>(index - 1)
                    &&& line.describes(input, start, index - 1)
                },
                Ok(MachineEvent::Finish) => start == index - 1 && end == Ok::<int, Fault>(index - 1),
                Err(reason) => end == Err::<int, Fault>(trailer_fault(reason@)),
            }
        }),
{
    match (state, byte) {
        (MachineState::LineStart, 13) => Ok(
            MachineEvent::Advance(MachineState::NeedLineFeed(PendingLine::Terminator)),
        ),
        (MachineState::LineStart, 10) => Err("bare_line_ending"),
        (MachineState::LineStart, symbol) => {
            let facts = NameFacts {
                start: index,
                length: 0,
                begins_with_ows: is_ows(symbol),
                contains_ows: false,
                contains_non_token: false,
            };
            Ok(MachineEvent::Advance(consume_name(facts, index, symbol, Ghost(input), Ghost(start))))
        },
        (MachineState::Name(facts), 13) => Ok(
            MachineEvent::Advance(
                MachineState::NeedLineFeed(PendingLine::Field(RawLine::MissingColon(facts))),
            ),
        ),
        (MachineState::Name(_), 10) => Err("bare_line_ending"),
        (MachineState::Name(facts), symbol) => Ok(
            MachineEvent::Advance(consume_name(facts, index, symbol, Ghost(input), Ghost(start))),
        ),
        (MachineState::Value(facts), 13) => Ok(
            MachineEvent::Advance(
                MachineState::NeedLineFeed(PendingLine::Field(RawLine::Complete(facts))),
            ),
        ),
        (MachineState::Value(_), 10) => Err("bare_line_ending"),
        (MachineState::Value(facts), symbol) => Ok(
            MachineEvent::Advance(
                MachineState::Value(
                    consume_value(facts, index, symbol, Ghost(input), Ghost(start)),
                ),
            ),
        ),
        (MachineState::NeedLineFeed(PendingLine::Terminator), 10) => Ok(MachineEvent::Finish),
        (MachineState::NeedLineFeed(PendingLine::Field(line)), 10) => Ok(MachineEvent::Emit(line)),
        (MachineState::NeedLineFeed(_), _) => Err("bare_line_ending"),
    }
}

fn consume_name(
    facts: NameFacts,
    index: usize,
    byte: u8,
    Ghost(input): Ghost<Seq<u8>>,
    Ghost(start): Ghost<int>,
) -> (next: MachineState)
    requires
        0 <= start <= index < input.len(),
        index < TRAILER_MAX,
        byte == input[index as int],
        byte != '\r' as u8,
        byte != '\n' as u8,
        facts.describes(input, start, index as int),
        trailer_line_end(input, start, true) == trailer_line_end(input, index as int, true),
    ensures
        next.seen(input, start, index + 1),
{
    if byte == ':' as u8 {
        MachineState::Value(
            ValueFacts {
                name: facts,
                name_end: index,
                value_start: index + 1,
                first_content: None,
                content_end: index + 1,
                contains_invalid_octet: false,
            },
        )
    } else {
        proof {
            lemma_one_more(input, start, index as int, ByteClass::Ows);
            lemma_one_more(input, start, index as int, ByteClass::Token);
        }
        MachineState::Name(
            NameFacts {
                start: facts.start,
                length: facts.length + 1,
                begins_with_ows: facts.begins_with_ows,
                contains_ows: facts.contains_ows || is_ows(byte),
                contains_non_token: facts.contains_non_token || !is_token(byte),
            },
        )
    }
}

fn consume_value(
    facts: ValueFacts,
    index: usize,
    byte: u8,
    Ghost(input): Ghost<Seq<u8>>,
    Ghost(start): Ghost<int>,
) -> (next: ValueFacts)
    requires
        0 <= start < index < input.len(),
        index < TRAILER_MAX,
        byte == input[index as int],
        facts.describes(input, start, index as int),
    ensures
        next.describes(input, start, index + 1),
{
    proof {
        lemma_one_more(input, facts.value_start as int, index as int, ByteClass::Field);
    }
    let is_content: bool = !is_ows(byte);
    ValueFacts {
        name: facts.name,
        name_end: facts.name_end,
        value_start: facts.value_start,
        first_content: match facts.first_content {
            Some(first) => Some(first),
            None => if is_content {
                Some(index)
            } else {
                None
            },
        },
        content_end: if is_content {
            index + 1
        } else {
            facts.content_end
        },
        contains_invalid_octet: facts.contains_invalid_octet || !is_field_byte(byte),
    }
}

fn decide_field_grammar(
    lines: &Vec<RawLine>,
    Ghost(input): Ghost<Seq<u8>>,
    Ghost(spans): Ghost<Seq<(int, int)>>,
) -> (plans: Result<Vec<FieldLayout>>)
    requires
        describe_all(lines@, input, spans),
    ensures
        match plans {
            Ok(p) => {
                &&& grammar(input, spans) == Ok::<Seq<FieldModel>, Fault>(fields_at(input, p@))
                &&& forall|i: int| 0 <= i < p@.len() ==> (#[trigger] p@[i]).fits(input)
            },
            Err(e) => grammar(input, spans) == Err::<Seq<FieldModel>, Fault>(e@),
        },
{
    let mut plans: Vec<FieldLayout> = Vec::new();
    let mut index: usize = 0;
    assert(fields_at(input, plans@) =~= Seq::<FieldModel>::empty());
    assert(spans.take(0) =~= Seq::<(int, int)>::empty());
    while index < lines.len()
        invariant
            index <= lines@.len(),
            describe_all(lines@, input, spans),
            forall|i: int| 0 <= i < plans@.len() ==> (#[trigger] plans@[i]).fits(input),
            grammar(input, spans.take(index as int)) == Ok::<Seq<FieldModel>, Fault>(
                fields_at(input, plans@),
            ),
        decreases lines@.len() - index,
    {
        let ghost prefix = spans.take(index + 1);
        proof {
            assert(describes_span(lines@[index as int], input, spans[index as int]));
            assert(prefix.drop_last() =~= spans.take(index as int));
            lemma_prefix_decides(input, prefix, spans, Seq::empty());
        }
        let plan = decide_one_field(
            lines[index],
            Ghost(input),
            Ghost(spans[index as int].0),
            Ghost(spans[index as int].1),
        )?;
        let ghost before = fields_at(input, plans@);
        plans.push(plan);
        assert(fields_at(input, plans@) =~= before.push(plan.field(input)));
        index += 1;
    }
    assert(spans.take(index as int) =~= spans);
    Ok(plans)
}

/// What the name and the value of a line are, given its first colon.
proof fn lemma_line_parts(input: Seq<u8>, start: int, colon: int, end: int)
    requires
        0 <= start <= colon <= end <= input.len(),
        forall|j: int| start <= j < colon ==> #[trigger] input[j] != ':' as u8,
        colon < end ==> input[colon] == ':' as u8,
    ensures
        ({
            let line = input.subrange(start, end);
            &&& first_from(line, ByteClass::Only(':' as u8), 0) == colon - start
            &&& line.subrange(0, colon - start) == input.subrange(start, colon)
            &&& colon < end ==> line.subrange(colon - start + 1, line.len() as int)
                == input.subrange(colon + 1, end)
        }),
{
    let line = input.subrange(start, end);
    assert forall|j: int| 0 <= j < colon - start implies !ByteClass::Only(':' as u8).has(
        #[trigger] line[j],
    ) by {
        assert(line[j] == input[start + j]);
    }
    lemma_first_from_unique(line, ByteClass::Only(':' as u8), 0, colon - start);
    assert(line.subrange(0, colon - start) =~= input.subrange(start, colon));
    if colon < end {
        assert(line.subrange(colon - start + 1, line.len() as int) =~= input.subrange(
            colon + 1,
            end,
        ));
    }
}

fn decide_one_field(
    line: RawLine,
    Ghost(input): Ghost<Seq<u8>>,
    Ghost(start): Ghost<int>,
    Ghost(end): Ghost<int>,
) -> (plan: Result<FieldLayout>)
    requires
        0 <= start < end <= input.len(),
        line.describes(input, start, end),
    ensures
        match plan {
            Ok(p) => p.fits(input) && trailer_field(input.subrange(start, end), false) == Ok::<
                FieldModel,
                Fault,
            >(p.field(input)),
            Err(e) => trailer_field(input.subrange(start, end), false) == Err::<FieldModel, Fault>(
                e@,
            ),
        },
{
    assert(input.subrange(start, end)[0] == input[start]);
    let value = match line {
        RawLine::MissingColon(name) => {
            proof {
                lemma_line_parts(input, start, end, end);
            }
            if name.begins_with_ows {
                return Err(invalid_trailer("obs_fold"));
            }
            return Err(invalid_trailer("invalid_name"));
        },
        RawLine::Complete(value) => {
            if value.name.begins_with_ows {
                return Err(invalid_trailer("obs_fold"));
            }
            value
        },
    };
    proof {
        lemma_line_parts(input, start, value.name_end as int, end);
        lemma_content_seen(
            input,
            value.value_start as int,
            end,
            value.first_content,
            value.content_end as int,
        );
    }
    let value_length: usize = match value.first_content {
        Some(first) => value.content_end - first,
        None => 0,
    };
    if value.name.length == 0 {
        Err(invalid_trailer("invalid_name"))
    } else if value.name.length > TRAILER_NAME_MAX {
        Err(invalid_trailer("invalid_name"))
    } else if value.name.contains_ows {
        Err(invalid_trailer("whitespace_before_colon"))
    } else if value.name.contains_non_token {
        Err(invalid_trailer("invalid_name"))
    } else if value.contains_invalid_octet {
        Err(invalid_trailer("invalid_value_byte"))
    } else if value_length > TRAILER_VALUE_MAX {
        Err(invalid_trailer("value_too_long"))
    } else {
        let value_start: usize = match value.first_content {
            Some(first) => first,
            None => value.value_start,
        };
        proof {
            if value.first_content is None {
                assert(input.subrange(value_start as int, value.content_end as int)
                    =~= input.subrange(end, end));
            }
        }
        Ok(
            FieldLayout {
                name_start: value.name.start,
                name_end: value.name_end,
                value_start,
                value_end: value.content_end,
            },
        )
    }
}

fn enforce_trailer_policy(
    input: &[u8],
    plans: &Vec<FieldLayout>,
    declarations: &DeclarationDomain,
    Ghost(declared): Ghost<Seq<Seq<u8>>>,
) -> (enforced: Result<()>)
    requires
        forall|i: int| 0 <= i < plans@.len() ==> (#[trigger] plans@[i]).fits(input@),
        declarations.ordered.well_formed(),
        forall|name: Seq<u8>| #[trigger]
            declarations.ordered.has(name) <==> declared.contains(name),
    ensures
        match enforced {
            Ok(_) => policy_fault(fields_at(input@, plans@), declared) is None,
            Err(e) => policy_fault(fields_at(input@, plans@), declared) == Some(e@),
        },
{
    let ghost fields = fields_at(input@, plans@);
    let mut index: usize = 0;
    assert(fields.take(0) =~= Seq::<FieldModel>::empty());
    while index < plans.len()
        invariant
            index <= plans@.len(),
            fields == fields_at(input@, plans@),
            forall|i: int| 0 <= i < plans@.len() ==> (#[trigger] plans@[i]).fits(input@),
            declarations.ordered.well_formed(),
            forall|name: Seq<u8>| #[trigger]
                declarations.ordered.has(name) <==> declared.contains(name),
            policy_fault(fields.take(index as int), declared) is None,
        decreases plans@.len() - index,
    {
        let plan: FieldLayout = plans[index];
        let ghost before = fields.take(index as int);
        assert(plan.fits(input@));
        let wire_name: &[u8] = &input[plan.name_start..plan.name_end];
        proof {
            let longer = fields.take(index + 1);
            assert(longer.drop_last() =~= before);
            assert(longer.last() == plan.field(input@));
            lemma_policy_prefix(fields, index + 1, declared);
        }
        if is_forbidden_wire(wire_name) {
            return Err(invalid_trailer("forbidden_field"));
        }
        if !declarations.contains_wire_name(wire_name) {
            return Err(invalid_trailer("undeclared_field"));
        }
        let mut earlier: usize = 0;
        while earlier < index
            invariant
                earlier <= index < plans@.len(),
                fields == fields_at(input@, plans@),
                before == fields.take(index as int),
                forall|i: int| 0 <= i < plans@.len() ==> (#[trigger] plans@[i]).fits(input@),
                forall|i: int|
                    0 <= i < earlier ==> (#[trigger] before[i]).name != lowered(wire_name@),
                has_name(before, lowered(wire_name@)) && !is_forbidden(lowered(wire_name@))
                    && declared.contains(lowered(wire_name@)) ==> policy_fault(fields, declared)
                    == Some(trailer_fault("duplicate_field"@)),
                !is_forbidden(lowered(wire_name@)),
                declared.contains(lowered(wire_name@)),
            decreases index - earlier,
        {
            let other: FieldLayout = plans[earlier];
            assert(other.fits(input@));
            assert(before[earlier as int] == other.field(input@));
            if same_ignoring_case(&input[other.name_start..other.name_end], wire_name) {
                assert(has_name(before, lowered(wire_name@)));
                return Err(invalid_trailer("duplicate_field"));
            }
            earlier += 1;
        }
        index += 1;
    }
    assert(fields.take(index as int) =~= fields);
    Ok(())
}

impl DeclarationDomain {
    fn contains_wire_name(&self, wire: &[u8]) -> (found: bool)
        requires
            self.ordered.well_formed(),
            all_in(wire@, ByteClass::Token),
        ensures
            found == self.ordered.has(lowered(wire@)),
    {
        self.ordered.contains(token_text(wire).as_str())
    }
}

fn materialize(input: &[u8], plans: Vec<FieldLayout>, bytes_consumed: usize) -> (block: TrailerBlock)
    requires
        forall|i: int| 0 <= i < plans@.len() ==> (#[trigger] plans@[i]).fits(input@),
    ensures
        block@ == (BlockModel {
            fields: fields_at(input@, plans@),
            bytes_consumed: bytes_consumed as int,
        }),
{
    let block = build_header_block(input, plans, bytes_consumed);
    TrailerBlock { fields: block.fields, bytes_consumed: block.bytes_consumed }
}

fn is_forbidden_wire(name: &[u8]) -> (forbidden: bool)
    ensures
        forbidden == is_forbidden(lowered(name@)),
{
    let lower: Vec<u8> = lower_bytes(name);
    is_forbidden_name(lower.as_slice())
}

fn section_limit(actual: usize) -> (error: PolyguardError)
    ensures
        error@ == (Fault::LimitExceeded {
            limit: "trailer_bytes"@,
            max: TRAILER_MAX as int,
            actual: actual as int,
        }),
{
    limit_exceeded("trailer_bytes", TRAILER_MAX, actual)
}

} // verus!
