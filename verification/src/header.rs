//! Parsing a header section.

use vstd::prelude::*;
use crate::bytes::{
    ByteClass, all_bytes_in, all_in, any_byte_in, any_in, first_from, is_first_from, is_ows,
    is_trimmed_range, lemma_first_from, lemma_first_from_unique, lemma_trimmed,
    lemma_trimmed_ends, lowered, to_lower, trim_ows, trimmed,
};
use crate::text::{token_text, utf8};
use crate::types::{
    BlockModel, Fault, FieldModel, HeaderBlock, HeaderField, Result, Verdict, fields_of,
    invalid_header, limit_exceeded,
};

verus! {

pub const SECTION_MAX: usize = 32_768;

pub const FIELD_MAX: usize = 128;

pub const NAME_MAX: usize = 128;

pub const VALUE_MAX: usize = 8_192;

pub open spec fn header_fault(index: int, reason: Seq<char>) -> Fault {
    Fault::InvalidHeader { index, reason }
}

/// The error for a section that is too long. Its length is not read any further.
pub open spec fn section_too_long() -> Fault {
    Fault::LimitExceeded {
        limit: "header_section_bytes"@,
        max: SECTION_MAX as int,
        actual: SECTION_MAX + 1,
    }
}

/// The end of the line that starts at `start` and has been read up to `i`. A bare line ending is
/// refused. Where the limit falls between a carriage return and what follows it, `hasty` tells
/// whether the limit is seen before the missing line feed.
pub open spec fn line_end(input: Seq<u8>, start: int, i: int, hasty: bool) -> Verdict<int>
    decreases input.len() - i,
{
    if i >= SECTION_MAX && i < input.len() {
        Err(section_too_long())
    } else if i >= input.len() {
        Err(Fault::Incomplete)
    } else if input[i] == '\n' as u8 {
        Err(header_fault(start, "bare_line_ending"@))
    } else if input[i] != '\r' as u8 {
        line_end(input, start, i + 1, hasty)
    } else if hasty && i + 1 == SECTION_MAX && i + 1 < input.len() {
        Err(section_too_long())
    } else if i + 1 >= input.len() || input[i + 1] != '\n' as u8 {
        Err(header_fault(start, "bare_line_ending"@))
    } else if i + 2 > SECTION_MAX {
        Err(section_too_long())
    } else {
        Ok(i)
    }
}

/// What is wrong with a field name in the line at `offset`.
pub open spec fn name_fault(name: Seq<u8>, offset: int) -> Option<Fault> {
    if name.len() == 0 {
        Some(header_fault(offset, "invalid_name"@))
    } else if name.len() > NAME_MAX {
        Some(
            Fault::LimitExceeded {
                limit: "header_name_bytes"@,
                max: NAME_MAX as int,
                actual: name.len() as int,
            },
        )
    } else if any_in(name, ByteClass::Ows) {
        Some(header_fault(offset, "whitespace_before_colon"@))
    } else if !all_in(name, ByteClass::Token) {
        Some(header_fault(offset, "invalid_name"@))
    } else {
        None
    }
}

/// What is wrong with a field value in the line at `offset`.
pub open spec fn value_fault(value: Seq<u8>, offset: int) -> Option<Fault> {
    if !all_in(value, ByteClass::Field) {
        Some(header_fault(offset, "invalid_value_byte"@))
    } else if trimmed(value).len() > VALUE_MAX {
        Some(
            Fault::LimitExceeded {
                limit: "header_value_bytes"@,
                max: VALUE_MAX as int,
                actual: trimmed(value).len() as int,
            },
        )
    } else {
        None
    }
}

/// The field of the line at `offset`: a name in lower case, a colon, and a value without the white
/// space around it.
pub open spec fn field_of(line: Seq<u8>, offset: int) -> Verdict<FieldModel> {
    let colon = first_from(line, ByteClass::Only(':' as u8), 0);
    let name = line.subrange(0, colon);
    let value = line.subrange(colon + 1, line.len() as int);
    if line.len() > 0 && is_ows(line[0]) {
        Err(header_fault(offset, "obs_fold"@))
    } else if colon >= line.len() {
        Err(header_fault(offset, "invalid_name"@))
    } else if name_fault(name, offset) is Some {
        Err(name_fault(name, offset).unwrap())
    } else if value_fault(value, offset) is Some {
        Err(value_fault(value, offset).unwrap())
    } else {
        Ok(FieldModel { name: lowered(name), value: trimmed(value) })
    }
}

/// The field of a line whose first byte never ends its name: a line that starts with a colon has a
/// name that goes on to the next one, and is refused for what the name then holds.
pub open spec fn field_of_greedy(line: Seq<u8>, offset: int) -> Verdict<FieldModel> {
    if line.len() > 0 && line[0] == ':' as u8 {
        let colon = first_from(line, ByteClass::Only(':' as u8), 1);
        if colon >= line.len() {
            Err(header_fault(offset, "invalid_name"@))
        } else {
            Err(name_fault(line.subrange(0, colon), offset).unwrap())
        }
    } else {
        field_of(line, offset)
    }
}

/// The section from `start` on, after the fields that have been read: each line is checked as soon
/// as it is complete.
pub open spec fn section(input: Seq<u8>, start: int, fields: Seq<FieldModel>) -> Verdict<BlockModel>
    decreases input.len() - start,
{
    match line_end(input, start, start, false) {
        Err(fault) => Err(fault),
        Ok(end) => if end <= start || end + 2 > input.len() {
            Ok(BlockModel { fields, bytes_consumed: end + 2 })
        } else if fields.len() == FIELD_MAX {
            Err(Fault::TooManyHeaders)
        } else {
            match field_of(input.subrange(start, end), start) {
                Ok(field) => section(input, end + 2, fields.push(field)),
                Err(fault) => Err(fault),
            }
        },
    }
}

/// The header section at the start of the input.
pub open spec fn parsed(input: Seq<u8>) -> Verdict<BlockModel> {
    section(input, 0, Seq::empty())
}

/// Where the empty line that ends the section begins, from the line at `start` on.
pub open spec fn section_end(input: Seq<u8>, start: int, hasty: bool) -> Verdict<int>
    decreases input.len() - start,
{
    match line_end(input, start, start, hasty) {
        Err(fault) => Err(fault),
        Ok(end) => if end <= start || end + 2 > input.len() {
            Ok(end)
        } else {
            section_end(input, end + 2, hasty)
        },
    }
}

/// How many lines end before `upto`: as many as there are line feeds.
pub open spec fn line_count(input: Seq<u8>, upto: int) -> int
    decreases upto,
{
    if upto <= 0 {
        0
    } else if input[upto - 1] == '\n' as u8 {
        line_count(input, upto - 1) + 1
    } else {
        line_count(input, upto - 1)
    }
}

/// The fields of the lines from `start` up to `stop`, after those that have been read.
pub open spec fn lines(
    input: Seq<u8>,
    start: int,
    stop: int,
    fields: Seq<FieldModel>,
    greedy: bool,
) -> Verdict<Seq<FieldModel>>
    decreases
        if start < stop {
            stop - start
        } else {
            0
        },
{
    if start >= stop {
        Ok(fields)
    } else if fields.len() == FIELD_MAX {
        Err(Fault::TooManyHeaders)
    } else {
        let end = first_from(input, ByteClass::Only('\r' as u8), start);
        let line = input.subrange(start, end);
        match if greedy {
            field_of_greedy(line, start)
        } else {
            field_of(line, start)
        } {
            Ok(field) => if end >= start {
                lines(input, end + 2, stop, fields.push(field), greedy)
            } else {
                Ok(fields)
            },
            Err(fault) => Err(fault),
        }
    }
}

/// The header section at the start of the input, where the whole section has to be there before
/// any line is looked at.
pub open spec fn parsed_whole(input: Seq<u8>, hasty: bool, greedy: bool) -> Verdict<BlockModel> {
    match section_end(input, 0, hasty) {
        Err(fault) => Err(fault),
        Ok(stop) => match lines(input, 0, stop, Seq::empty(), greedy) {
            Ok(fields) => Ok(BlockModel { fields, bytes_consumed: stop + 2 }),
            Err(fault) => Err(fault),
        },
    }
}

/// No line ends where there is no line feed.
pub proof fn lemma_line_count_stays(input: Seq<u8>, from: int, upto: int)
    requires
        0 <= from <= upto,
        forall|j: int| from <= j < upto ==> #[trigger] input[j] != '\n' as u8,
    ensures
        line_count(input, upto) == line_count(input, from),
    decreases upto - from,
{
    if from < upto {
        lemma_line_count_stays(input, from, upto - 1);
        assert(input[upto - 1] != '\n' as u8);
    }
}

/// A line that ends ends with a line ending, and holds none before it.
pub proof fn lemma_line_end(input: Seq<u8>, start: int, i: int, hasty: bool)
    requires
        0 <= start <= i,
    ensures
        line_end(input, start, i, hasty) matches Ok(end) ==> {
            &&& i <= end
            &&& end + 2 <= SECTION_MAX
            &&& end + 2 <= input.len()
            &&& input[end] == '\r' as u8
            &&& input[end + 1] == '\n' as u8
            &&& forall|j: int| i <= j < end ==> !ByteClass::LineBreak.has(#[trigger] input[j])
        },
    decreases input.len() - i,
{
    if i < input.len() && i < SECTION_MAX && !ByteClass::LineBreak.has(input[i]) {
        lemma_line_end(input, start, i + 1, hasty);
    }
}

/// Where a line ends does not depend on when the limit is seen.
pub proof fn lemma_line_end_hasty(input: Seq<u8>, start: int, i: int)
    requires
        0 <= start <= i,
    ensures
        line_end(input, start, i, true) is Ok <==> line_end(input, start, i, false) is Ok,
        line_end(input, start, i, true) is Ok ==> line_end(input, start, i, true) == line_end(
            input,
            start,
            i,
            false,
        ),
    decreases input.len() - i,
{
    if i < input.len() && i < SECTION_MAX && !ByteClass::LineBreak.has(input[i]) {
        lemma_line_end_hasty(input, start, i + 1);
    }
}

/// A line's end, given where the first line break from `i` on is.
pub proof fn lemma_line_end_at(input: Seq<u8>, start: int, i: int, p: int, hasty: bool)
    requires
        0 <= start <= i,
        i <= input.len(),
        is_first_from(input, ByteClass::LineBreak, i, p),
        p <= SECTION_MAX,
    ensures
        line_end(input, start, i, hasty) == line_end(input, start, p, hasty),
    decreases p - i,
{
    if i < p {
        assert(!ByteClass::LineBreak.has(input[i]));
        lemma_line_end_at(input, start, i + 1, p, hasty);
    }
}

/// A line that goes on to the limit is too long.
pub proof fn lemma_line_too_long(input: Seq<u8>, start: int, i: int, hasty: bool)
    requires
        0 <= start <= i <= SECTION_MAX < input.len(),
        forall|j: int| i <= j < SECTION_MAX ==> !ByteClass::LineBreak.has(#[trigger] input[j]),
    ensures
        line_end(input, start, i, hasty) == Err::<int, Fault>(section_too_long()),
    decreases SECTION_MAX - i,
{
    if i < SECTION_MAX {
        assert(!ByteClass::LineBreak.has(input[i]));
        lemma_line_too_long(input, start, i + 1, hasty);
    }
}

/// The end of a line, found by its carriage return.
pub proof fn lemma_line_end_is_first_cr(input: Seq<u8>, start: int, hasty: bool)
    requires
        0 <= start <= input.len(),
        line_end(input, start, start, hasty) is Ok,
    ensures
        first_from(input, ByteClass::Only('\r' as u8), start) == line_end(
            input,
            start,
            start,
            hasty,
        )->Ok_0,
{
    lemma_line_end(input, start, start, hasty);
    let end = line_end(input, start, start, hasty)->Ok_0;
    assert forall|j: int| start <= j < end implies !ByteClass::Only('\r' as u8).has(
        #[trigger] input[j],
    ) by {
        assert(!ByteClass::LineBreak.has(input[j]));
    }
    lemma_first_from_unique(input, ByteClass::Only('\r' as u8), start, end);
}

proof fn lemma_greedy(line: Seq<u8>, offset: int)
    ensures
        field_of_greedy(line, offset) is Ok <==> field_of(line, offset) is Ok,
        field_of_greedy(line, offset) is Ok ==> field_of_greedy(line, offset) == field_of(
            line,
            offset,
        ),
{
    if line.len() > 0 && line[0] == ':' as u8 {
        lemma_first_from_unique(line, ByteClass::Only(':' as u8), 0, 0);
        assert(field_of(line, offset) is Err);
    }
}

proof fn lemma_section_in_parts(
    input: Seq<u8>,
    start: int,
    fields: Seq<FieldModel>,
    hasty: bool,
    greedy: bool,
)
    requires
        0 <= start <= input.len(),
    ensures
        ({
            let whole = section_end(input, start, hasty);
            match section(input, start, fields) {
                Ok(block) => {
                    &&& whole is Ok
                    &&& start <= whole->Ok_0
                    &&& lines(input, start, whole->Ok_0, fields, greedy) == Ok::<
                        Seq<FieldModel>,
                        Fault,
                    >(block.fields)
                    &&& block.bytes_consumed == whole->Ok_0 + 2
                },
                Err(_) => whole is Ok ==> lines(input, start, whole->Ok_0, fields, greedy) is Err,
            }
        }),
    decreases input.len() - start,
{
    lemma_line_end_hasty(input, start, start);
    lemma_line_end(input, start, start, false);
    if let Ok(end) = line_end(input, start, start, false) {
        if end > start {
            let line = input.subrange(start, end);
            lemma_line_end_is_first_cr(input, start, false);
            lemma_greedy(line, start);
            lemma_section_end_after(input, end + 2, hasty);
            if fields.len() != FIELD_MAX {
                if let Ok(field) = field_of(line, start) {
                    lemma_section_in_parts(input, end + 2, fields.push(field), hasty, greedy);
                }
            }
        }
    }
}

/// The end of the section lies no earlier than where the search for it starts.
pub proof fn lemma_section_end_after(input: Seq<u8>, start: int, hasty: bool)
    requires
        0 <= start,
    ensures
        section_end(input, start, hasty) matches Ok(stop) ==> {
            &&& start <= stop
            &&& stop + 2 <= input.len()
            &&& stop + 2 <= SECTION_MAX
        },
    decreases input.len() - start,
{
    lemma_line_end(input, start, start, hasty);
    if let Ok(end) = line_end(input, start, start, hasty) {
        if end > start {
            lemma_section_end_after(input, end + 2, hasty);
        }
    }
}

/// All ways of parsing accept the same sections and read the same fields from them; they differ
/// only in which error they give for a section that they refuse.
pub proof fn lemma_parsers_accept_alike(input: Seq<u8>, hasty: bool, greedy: bool)
    ensures
        parsed(input) is Ok <==> parsed_whole(input, hasty, greedy) is Ok,
        parsed(input) is Ok ==> parsed(input) == parsed_whole(input, hasty, greedy),
{
    lemma_section_in_parts(input, 0, Seq::empty(), hasty, greedy);
}

proof fn lemma_section_bounds(input: Seq<u8>, start: int, fields: Seq<FieldModel>)
    requires
        0 <= start <= input.len(),
        fields.len() <= FIELD_MAX,
        forall|i: int| 0 <= i < fields.len() ==> well_formed_field(#[trigger] fields[i]),
    ensures
        section(input, start, fields) matches Ok(block) ==> {
            &&& start + 2 <= block.bytes_consumed <= input.len()
            &&& block.bytes_consumed <= SECTION_MAX
            &&& block.fields.len() <= FIELD_MAX
            &&& forall|i: int|
                0 <= i < block.fields.len() ==> well_formed_field(#[trigger] block.fields[i])
        },
    decreases input.len() - start,
{
    lemma_line_end(input, start, start, false);
    if let Ok(end) = line_end(input, start, start, false) {
        if end > start && fields.len() != FIELD_MAX {
            let line = input.subrange(start, end);
            if let Ok(field) = field_of(line, start) {
                lemma_field_is_well_formed(line, start);
                lemma_section_bounds(input, end + 2, fields.push(field));
            }
        }
    }
}

/// Whether a field is as parsing leaves it: a lower-case token and a trimmed value of field bytes,
/// both within their limits.
pub open spec fn well_formed_field(field: FieldModel) -> bool {
    &&& 0 < field.name.len() <= NAME_MAX
    &&& all_in(field.name, ByteClass::Token)
    &&& lowered(field.name) == field.name
    &&& field.value.len() <= VALUE_MAX
    &&& all_in(field.value, ByteClass::Field)
    &&& field.value.len() > 0 ==> !is_ows(field.value[0]) && !is_ows(field.value.last())
}

proof fn lemma_field_is_well_formed(line: Seq<u8>, offset: int)
    requires
        field_of(line, offset) is Ok,
    ensures
        well_formed_field(field_of(line, offset)->Ok_0),
{
    let colon = first_from(line, ByteClass::Only(':' as u8), 0);
    lemma_first_from(line, ByteClass::Only(':' as u8), 0);
    let name = line.subrange(0, colon);
    let value = line.subrange(colon + 1, line.len() as int);
    assert forall|i: int| 0 <= i < name.len() implies ByteClass::Token.has(
        #[trigger] lowered(name)[i],
    ) && to_lower(lowered(name)[i]) == lowered(name)[i] by {
        assert(ByteClass::Token.has(name[i]));
    }
    assert(lowered(lowered(name)) =~= lowered(name));
    lemma_trimmed_ends(value);
    let (a, b) = choose|a: int, b: int|
        #[trigger] is_trimmed_range(value, a, b) && trimmed(value) == value.subrange(a, b);
    assert forall|i: int| 0 <= i < trimmed(value).len() implies ByteClass::Field.has(
        #[trigger] trimmed(value)[i],
    ) by {
        assert(ByteClass::Field.has(value[a + i]));
    }
}

/// What a parsed section is, in whatever way it is parsed: at most 128 fields, each a lower-case
/// token with a trimmed value within the limits, in at most 32768 bytes of the input.
pub proof fn lemma_parsed_section(input: Seq<u8>)
    ensures
        parsed(input) matches Ok(block) ==> {
            &&& 2 <= block.bytes_consumed <= input.len()
            &&& block.bytes_consumed <= SECTION_MAX
            &&& block.fields.len() <= FIELD_MAX
            &&& forall|i: int|
                0 <= i < block.fields.len() ==> well_formed_field(#[trigger] block.fields[i])
        },
        forall|hasty: bool, greedy: bool|
            #[trigger] parsed_whole(input, hasty, greedy) is Ok ==> parsed_whole(
                input,
                hasty,
                greedy,
            ) == parsed(input),
{
    lemma_section_bounds(input, 0, Seq::empty());
    assert forall|hasty: bool, greedy: bool| #[trigger]
        parsed_whole(input, hasty, greedy) is Ok implies parsed_whole(input, hasty, greedy)
        == parsed(input) by {
        lemma_parsers_accept_alike(input, hasty, greedy);
    }
}

proof fn lemma_line_is_local(input: Seq<u8>, other: Seq<u8>, start: int, i: int)
    requires
        0 <= start <= i,
        line_end(input, start, i, false) matches Ok(end) && end + 2 <= other.len() && forall|j: int|
            i <= j < end + 2 ==> #[trigger] other[j] == input[j],
    ensures
        line_end(other, start, i, false) == line_end(input, start, i, false),
    decreases input.len() - i,
{
    lemma_line_end(input, start, i, false);
    assert(other[i] == input[i]);
    if input[i] != '\r' as u8 {
        lemma_line_is_local(input, other, start, i + 1);
    } else {
        assert(other[i + 1] == input[i + 1]);
    }
}

proof fn lemma_section_after(input: Seq<u8>, start: int, fields: Seq<FieldModel>)
    requires
        0 <= start,
    ensures
        section(input, start, fields) matches Ok(block) ==> start + 2 <= block.bytes_consumed
            <= input.len(),
    decreases input.len() - start,
{
    lemma_line_end(input, start, start, false);
    if let Ok(end) = line_end(input, start, start, false) {
        if end > start && fields.len() != FIELD_MAX {
            if let Ok(field) = field_of(input.subrange(start, end), start) {
                lemma_section_after(input, end + 2, fields.push(field));
            }
        }
    }
}

proof fn lemma_section_is_local(
    input: Seq<u8>,
    other: Seq<u8>,
    start: int,
    fields: Seq<FieldModel>,
)
    requires
        0 <= start,
        section(input, start, fields) matches Ok(block) && block.bytes_consumed <= other.len()
            && forall|j: int| start <= j < block.bytes_consumed ==> #[trigger] other[j] == input[j],
    ensures
        section(other, start, fields) == section(input, start, fields),
    decreases input.len() - start,
{
    lemma_line_end(input, start, start, false);
    lemma_section_after(input, start, fields);
    let end = line_end(input, start, start, false)->Ok_0;
    if end > start {
        let field = field_of(input.subrange(start, end), start)->Ok_0;
        lemma_section_after(input, end + 2, fields.push(field));
        lemma_line_is_local(input, other, start, start);
        assert(other.subrange(start, end) =~= input.subrange(start, end));
        lemma_section_is_local(input, other, end + 2, fields.push(field));
    } else {
        lemma_line_is_local(input, other, start, start);
    }
}

/// An accepted section depends only on the bytes that it takes up, in whatever way it is parsed:
/// nothing after them is looked at.
pub proof fn lemma_parsed_is_local(input: Seq<u8>, rest: Seq<u8>)
    ensures
        parsed(input) matches Ok(block) ==> parsed(input.take(block.bytes_consumed) + rest) == parsed(
            input,
        ),
        forall|hasty: bool, greedy: bool|
            #[trigger] parsed_whole(input, hasty, greedy) matches Ok(block) ==> parsed_whole(
                input.take(block.bytes_consumed) + rest,
                hasty,
                greedy,
            ) == parsed_whole(input, hasty, greedy),
{
    lemma_section_after(input, 0, Seq::empty());
    if let Ok(block) = parsed(input) {
        lemma_section_is_local(input, input.take(block.bytes_consumed) + rest, 0, Seq::empty());
    }
    assert forall|hasty: bool, greedy: bool| #[trigger]
        parsed_whole(input, hasty, greedy) matches Ok(block) implies parsed_whole(
        input.take(parsed_whole(input, hasty, greedy)->Ok_0.bytes_consumed) + rest,
        hasty,
        greedy,
    ) == parsed_whole(input, hasty, greedy) by {
        let block = parsed_whole(input, hasty, greedy)->Ok_0;
        lemma_parsers_accept_alike(input, hasty, greedy);
        lemma_parsers_accept_alike(input.take(block.bytes_consumed) + rest, hasty, greedy);
    }
}

/// What has been seen of a value in `s[from..upto]`: where its first byte that is not white space
/// is, and the end of its last.
pub open spec fn content_seen(
    s: Seq<u8>,
    from: int,
    upto: int,
    first: Option<usize>,
    end: int,
) -> bool {
    match first {
        None => forall|j: int| from <= j < upto ==> is_ows(#[trigger] s[j]),
        Some(f) => {
            &&& from <= f < end <= upto
            &&& forall|j: int| from <= j < f ==> is_ows(#[trigger] s[j])
            &&& !is_ows(s[f as int])
            &&& !is_ows(s[end - 1])
            &&& forall|j: int| end <= j < upto ==> is_ows(#[trigger] s[j])
        },
    }
}

/// The trimmed value, given where its content is.
pub proof fn lemma_content_seen(
    s: Seq<u8>,
    from: int,
    upto: int,
    first: Option<usize>,
    end: int,
)
    requires
        0 <= from <= upto <= s.len(),
        content_seen(s, from, upto, first, end),
    ensures
        ({
            let (a, b) = match first {
                Some(f) => (f as int, end),
                None => (upto, upto),
            };
            trimmed(s.subrange(from, upto)) == s.subrange(a, b)
        }),
{
    let value = s.subrange(from, upto);
    let (a, b) = match first {
        Some(f) => (f as int, end),
        None => (upto, upto),
    };
    assert forall|j: int| 0 <= j < a - from implies is_ows(#[trigger] value[j]) by {
        assert(value[j] == s[from + j]);
    }
    assert forall|j: int| b - from <= j < value.len() implies is_ows(#[trigger] value[j]) by {
        assert(value[j] == s[from + j]);
    }
    lemma_trimmed(value, a - from, b - from);
    assert(value.subrange(a - from, b - from) =~= s.subrange(a, b));
}

/// A checked name in lower case.
pub fn canonical_name(bytes: &[u8], offset: usize) -> (name: Result<String>)
    ensures
        match name {
            Ok(n) => name_fault(bytes@, offset as int) is None && utf8(n@) == lowered(bytes@),
            Err(e) => name_fault(bytes@, offset as int) == Some(e@),
        },
{
    if bytes.len() == 0 {
        return Err(invalid_header(offset, "invalid_name"));
    }
    if bytes.len() > NAME_MAX {
        return Err(limit_exceeded("header_name_bytes", NAME_MAX, bytes.len()));
    }
    if any_byte_in(bytes, ByteClass::Ows) {
        return Err(invalid_header(offset, "whitespace_before_colon"));
    }
    if !all_bytes_in(bytes, ByteClass::Token) {
        return Err(invalid_header(offset, "invalid_name"));
    }
    Ok(token_text(bytes))
}

/// A checked value without the white space around it.
pub fn trimmed_value(bytes: &[u8], offset: usize) -> (value: Result<Vec<u8>>)
    ensures
        match value {
            Ok(v) => value_fault(bytes@, offset as int) is None && v@ == trimmed(bytes@),
            Err(e) => value_fault(bytes@, offset as int) == Some(e@),
        },
{
    if !all_bytes_in(bytes, ByteClass::Field) {
        return Err(invalid_header(offset, "invalid_value_byte"));
    }
    let inner: &[u8] = trim_ows(bytes);
    if inner.len() > VALUE_MAX {
        return Err(limit_exceeded("header_value_bytes", VALUE_MAX, inner.len()));
    }
    Ok(vstd::slice::slice_to_vec(inner))
}

/// Where in the input a checked field lies.
#[derive(Clone, Copy)]
pub struct FieldLayout {
    pub name_start: usize,
    pub name_end: usize,
    pub value_start: usize,
    pub value_end: usize,
}

impl FieldLayout {
    /// Whether the layout lies within the input, its name a token.
    pub open spec fn fits(self, input: Seq<u8>) -> bool {
        &&& self.name_start <= self.name_end <= input.len()
        &&& self.value_start <= self.value_end <= input.len()
        &&& all_in(input.subrange(self.name_start as int, self.name_end as int), ByteClass::Token)
    }

    /// The field that the layout cuts out of the input.
    pub open spec fn field(self, input: Seq<u8>) -> FieldModel {
        FieldModel {
            name: lowered(input.subrange(self.name_start as int, self.name_end as int)),
            value: input.subrange(self.value_start as int, self.value_end as int),
        }
    }
}

/// The fields that layouts cut out of the input.
pub open spec fn fields_at(input: Seq<u8>, layouts: Seq<FieldLayout>) -> Seq<FieldModel> {
    layouts.map_values(|layout: FieldLayout| layout.field(input))
}

/// Copies the fields out of the input, once all of it has been checked.
pub fn build_header_block(
    input: &[u8],
    layouts: Vec<FieldLayout>,
    bytes_consumed: usize,
) -> (block: HeaderBlock)
    requires
        forall|i: int| 0 <= i < layouts@.len() ==> (#[trigger] layouts@[i]).fits(input@),
    ensures
        block@ == (BlockModel {
            fields: fields_at(input@, layouts@),
            bytes_consumed: bytes_consumed as int,
        }),
{
    let mut fields: Vec<HeaderField> = Vec::new();
    let mut index: usize = 0;
    let ghost wanted = fields_at(input@, layouts@);
    while index < layouts.len()
        invariant
            index <= layouts@.len(),
            wanted == fields_at(input@, layouts@),
            forall|i: int| 0 <= i < layouts@.len() ==> (#[trigger] layouts@[i]).fits(input@),
            fields_of(fields@) =~= wanted.take(index as int),
        decreases layouts@.len() - index,
    {
        let layout: FieldLayout = layouts[index];
        assert(layout.fits(input@));
        let name: String = token_text(&input[layout.name_start..layout.name_end]);
        let field = HeaderField {
            name,
            value: vstd::slice::slice_to_vec(&input[layout.value_start..layout.value_end]),
        };
        let ghost before = fields_of(fields@);
        fields.push(field);
        assert(fields_of(fields@) =~= before.push(field@));
        assert(wanted[index as int] == layout.field(input@));
        index += 1;
    }
    assert(wanted.take(index as int) =~= wanted);
    HeaderBlock { fields, bytes_consumed }
}

} // verus!
