//! Parsing a trailer section.

use vstd::prelude::*;
use crate::bytes::{
    ByteClass, all_in, any_in, first_from, is_ows, lemma_first_from_unique, lowered, trimmed,
};
use crate::text::{same_bytes, starts_with, utf8};
use crate::types::{BlockModel, Fault, FieldModel, Verdict};

verus! {

pub const TRAILER_MAX: usize = 8_192;

pub const TRAILER_FIELD_MAX: usize = 32;

pub const TRAILER_NAME_MAX: usize = 128;

pub const TRAILER_VALUE_MAX: usize = 8_192;

pub open spec fn trailer_fault(reason: Seq<char>) -> Fault {
    Fault::InvalidTrailer { reason }
}

/// The error for a section that is too long. Its length is not read any further.
pub open spec fn trailer_too_long() -> Fault {
    Fault::LimitExceeded {
        limit: "trailer_bytes"@,
        max: TRAILER_MAX as int,
        actual: TRAILER_MAX + 1,
    }
}

/// The names that no trailer field may have.
pub open spec fn is_forbidden(name: Seq<u8>) -> bool {
    ||| utf8("x-forwarded-"@).is_prefix_of(name)
    ||| name == utf8("content-length"@)
    ||| name == utf8("transfer-encoding"@)
    ||| name == utf8("host"@)
    ||| name == utf8("connection"@)
    ||| name == utf8("trailer"@)
    ||| name == utf8("upgrade"@)
    ||| name == utf8("forwarded"@)
    ||| name == utf8("authorization"@)
    ||| name == utf8("proxy-authorization"@)
    ||| name == utf8("cookie"@)
    ||| name == utf8("set-cookie"@)
}

/// What is wrong with a declared name by itself. Whether its length is limited is for the caller.
pub open spec fn declaration_fault(name: Seq<u8>, limited: bool) -> Option<Fault> {
    if name.len() == 0 || (limited && name.len() > TRAILER_NAME_MAX) || !all_in(
        name,
        ByteClass::Token,
    ) || any_in(name, ByteClass::Upper) {
        Some(trailer_fault("invalid_declaration"@))
    } else if is_forbidden(name) {
        Some(trailer_fault("forbidden_field"@))
    } else {
        None
    }
}

/// What is wrong with the declared names from the first `upto` on: the first of them that is bad
/// by itself or, where `eager`, stands among those before it.
pub open spec fn first_declaration_fault(names: Seq<Seq<u8>>, upto: int, eager: bool) -> Option<
    Fault,
>
    decreases names.len() - upto,
{
    if upto >= names.len() {
        None
    } else if declaration_fault(names[upto], !eager) is Some {
        declaration_fault(names[upto], !eager)
    } else if eager && names.take(upto).contains(names[upto]) {
        Some(trailer_fault("duplicate_declaration"@))
    } else {
        first_declaration_fault(names, upto + 1, eager)
    }
}

/// What is wrong with the declared names. An eager check sees a name twice as soon as it reads it;
/// the other one looks for names that stand twice when all have been read, and limits their length.
pub open spec fn declarations_fault(names: Seq<Seq<u8>>, eager: bool) -> Option<Fault> {
    if first_declaration_fault(names, 0, eager) is Some {
        first_declaration_fault(names, 0, eager)
    } else if !eager && !names.no_duplicates() {
        Some(trailer_fault("duplicate_declaration"@))
    } else {
        None
    }
}

/// The end of a line that has been read up to `i`. Where the limit falls between a carriage return
/// and what follows it, `hasty` tells whether the limit is seen before the missing line feed.
pub open spec fn trailer_line_end(input: Seq<u8>, i: int, hasty: bool) -> Verdict<int>
    decreases input.len() - i,
{
    if i >= TRAILER_MAX && i < input.len() {
        Err(trailer_too_long())
    } else if i >= input.len() {
        Err(Fault::Incomplete)
    } else if input[i] == '\n' as u8 {
        Err(trailer_fault("bare_line_ending"@))
    } else if input[i] != '\r' as u8 {
        trailer_line_end(input, i + 1, hasty)
    } else if hasty && i + 1 == TRAILER_MAX && i + 1 < input.len() {
        Err(trailer_too_long())
    } else if i + 1 >= input.len() || input[i + 1] != '\n' as u8 {
        Err(trailer_fault("bare_line_ending"@))
    } else if i + 2 > TRAILER_MAX {
        Err(trailer_too_long())
    } else {
        Ok(i)
    }
}

/// Why a line holds no field. A name that is too long may have a reason of its own.
pub open spec fn line_fault(line: Seq<u8>, worded: bool) -> Option<Seq<char>> {
    let colon = first_from(line, ByteClass::Only(':' as u8), 0);
    let name = line.subrange(0, colon);
    let value = line.subrange(colon + 1, line.len() as int);
    if line.len() > 0 && is_ows(line[0]) {
        Some("obs_fold"@)
    } else if colon >= line.len() || name.len() == 0 {
        Some("invalid_name"@)
    } else if name.len() > TRAILER_NAME_MAX {
        Some(
            if worded {
                "name_too_long"@
            } else {
                "invalid_name"@
            },
        )
    } else if any_in(name, ByteClass::Ows) {
        Some("whitespace_before_colon"@)
    } else if !all_in(name, ByteClass::Token) {
        Some("invalid_name"@)
    } else if !all_in(value, ByteClass::Field) {
        Some("invalid_value_byte"@)
    } else if trimmed(value).len() > TRAILER_VALUE_MAX {
        Some("value_too_long"@)
    } else {
        None
    }
}

/// The field of a line: a name in lower case, a colon, and a value without the white space around
/// it.
pub open spec fn trailer_field(line: Seq<u8>, worded: bool) -> Verdict<FieldModel> {
    let colon = first_from(line, ByteClass::Only(':' as u8), 0);
    match line_fault(line, worded) {
        Some(reason) => Err(trailer_fault(reason)),
        None => Ok(
            FieldModel {
                name: lowered(line.subrange(0, colon)),
                value: trimmed(line.subrange(colon + 1, line.len() as int)),
            },
        ),
    }
}

/// Whether some field has the name.
pub open spec fn has_name(fields: Seq<FieldModel>, name: Seq<u8>) -> bool {
    exists|i: int| 0 <= i < fields.len() && (#[trigger] fields[i]).name == name
}

/// Why a name may not come after the fields before it.
pub open spec fn received_fault(
    name: Seq<u8>,
    declared: Seq<Seq<u8>>,
    before: Seq<FieldModel>,
) -> Option<Fault> {
    if is_forbidden(name) {
        Some(trailer_fault("forbidden_field"@))
    } else if !declared.contains(name) {
        Some(trailer_fault("undeclared_field"@))
    } else if has_name(before, name) {
        Some(trailer_fault("duplicate_field"@))
    } else {
        None
    }
}

/// The field of a line that comes after other fields.
pub open spec fn next_field(
    line: Seq<u8>,
    declared: Seq<Seq<u8>>,
    before: Seq<FieldModel>,
    worded: bool,
) -> Verdict<FieldModel> {
    match trailer_field(line, worded) {
        Err(fault) => Err(fault),
        Ok(field) => match received_fault(field.name, declared, before) {
            Some(fault) => Err(fault),
            None => Ok(field),
        },
    }
}

/// The section from `start` on, after the fields that have been read: each line is checked as soon
/// as it is complete.
pub open spec fn trailer_section(
    input: Seq<u8>,
    start: int,
    declared: Seq<Seq<u8>>,
    fields: Seq<FieldModel>,
) -> Verdict<BlockModel>
    decreases input.len() - start,
{
    match trailer_line_end(input, start, false) {
        Err(fault) => Err(fault),
        Ok(end) => if end <= start || end + 2 > input.len() {
            Ok(BlockModel { fields, bytes_consumed: end + 2 })
        } else if fields.len() == TRAILER_FIELD_MAX {
            Err(trailer_fault("too_many_fields"@))
        } else {
            match next_field(input.subrange(start, end), declared, fields, true) {
                Ok(field) => trailer_section(input, end + 2, declared, fields.push(field)),
                Err(fault) => Err(fault),
            }
        },
    }
}

/// The trailer section at the start of the input: the declared names are checked first, then one
/// line after the other.
pub open spec fn parsed(input: Seq<u8>, declared: Seq<Seq<u8>>) -> Verdict<BlockModel> {
    match declarations_fault(declared, false) {
        Some(fault) => Err(fault),
        None => trailer_section(input, 0, declared, Seq::empty()),
    }
}

/// Where the empty line that ends the section begins, from the line at `start` on.
pub open spec fn trailer_end(input: Seq<u8>, start: int) -> Verdict<int>
    decreases input.len() - start,
{
    match trailer_line_end(input, start, false) {
        Err(fault) => Err(fault),
        Ok(end) => if end <= start || end + 2 > input.len() {
            Ok(end)
        } else {
            trailer_end(input, end + 2)
        },
    }
}

/// The fields of the lines from `start` up to `stop`, after those that have been read.
pub open spec fn trailer_lines(
    input: Seq<u8>,
    start: int,
    stop: int,
    declared: Seq<Seq<u8>>,
    fields: Seq<FieldModel>,
) -> Verdict<Seq<FieldModel>>
    decreases
        if start < stop {
            stop - start
        } else {
            0
        },
{
    if start >= stop {
        Ok(fields)
    } else if fields.len() == TRAILER_FIELD_MAX {
        Err(trailer_fault("too_many_fields"@))
    } else {
        let end = first_from(input, ByteClass::Only('\r' as u8), start);
        match next_field(input.subrange(start, end), declared, fields, false) {
            Ok(field) => if end >= start {
                trailer_lines(input, end + 2, stop, declared, fields.push(field))
            } else {
                Ok(fields)
            },
            Err(fault) => Err(fault),
        }
    }
}

/// The trailer section at the start of the input, where the whole section has to be there before
/// any name or line is looked at.
pub open spec fn parsed_framed(input: Seq<u8>, declared: Seq<Seq<u8>>) -> Verdict<BlockModel> {
    match trailer_end(input, 0) {
        Err(fault) => Err(fault),
        Ok(stop) => match declarations_fault(declared, true) {
            Some(fault) => Err(fault),
            None => match trailer_lines(input, 0, stop, declared, Seq::empty()) {
                Err(fault) => Err(fault),
                Ok(fields) => Ok(BlockModel { fields, bytes_consumed: stop + 2 }),
            },
        },
    }
}

/// The lines of the section from `start` on, after those that have been found, and where the empty
/// line that ends it begins.
pub open spec fn envelope(input: Seq<u8>, start: int, found: Seq<(int, int)>) -> Verdict<
    (Seq<(int, int)>, int),
>
    decreases input.len() - start,
{
    match trailer_line_end(input, start, true) {
        Err(fault) => Err(fault),
        Ok(end) => if end <= start || end + 2 > input.len() {
            Ok((found, end))
        } else if found.len() == TRAILER_FIELD_MAX {
            Err(trailer_fault("too_many_fields"@))
        } else {
            envelope(input, end + 2, found.push((start, end)))
        },
    }
}

/// The fields of lines, whatever their names.
pub open spec fn grammar(input: Seq<u8>, found: Seq<(int, int)>) -> Verdict<Seq<FieldModel>>
    decreases found.len(),
{
    if found.len() == 0 {
        Ok(Seq::empty())
    } else {
        match grammar(input, found.drop_last()) {
            Err(fault) => Err(fault),
            Ok(fields) => match trailer_field(
                input.subrange(found.last().0, found.last().1),
                false,
            ) {
                Err(fault) => Err(fault),
                Ok(field) => Ok(fields.push(field)),
            },
        }
    }
}

/// Why fields may not come one after the other.
pub open spec fn policy_fault(fields: Seq<FieldModel>, declared: Seq<Seq<u8>>) -> Option<Fault>
    decreases fields.len(),
{
    if fields.len() == 0 {
        None
    } else {
        match policy_fault(fields.drop_last(), declared) {
            Some(fault) => Some(fault),
            None => received_fault(fields.last().name, declared, fields.drop_last()),
        }
    }
}

/// The trailer section at the start of the input, in phases: the declared names, all the lines,
/// the grammar of each, the names of each.
pub open spec fn parsed_in_phases(input: Seq<u8>, declared: Seq<Seq<u8>>) -> Verdict<BlockModel> {
    match declarations_fault(declared, false) {
        Some(fault) => Err(fault),
        None => match envelope(input, 0, Seq::empty()) {
            Err(fault) => Err(fault),
            Ok((found, stop)) => match grammar(input, found) {
                Err(fault) => Err(fault),
                Ok(fields) => match policy_fault(fields, declared) {
                    Some(fault) => Err(fault),
                    None => Ok(BlockModel { fields, bytes_consumed: stop + 2 }),
                },
            },
        },
    }
}

/// A line that ends ends with a line ending, and holds none before it.
pub proof fn lemma_trailer_line_end(input: Seq<u8>, i: int, hasty: bool)
    requires
        0 <= i,
    ensures
        trailer_line_end(input, i, hasty) matches Ok(end) ==> {
            &&& i <= end
            &&& end + 2 <= TRAILER_MAX
            &&& end + 2 <= input.len()
            &&& input[end] == '\r' as u8
            &&& input[end + 1] == '\n' as u8
            &&& forall|j: int| i <= j < end ==> !ByteClass::LineBreak.has(#[trigger] input[j])
        },
    decreases input.len() - i,
{
    if i < input.len() && i < TRAILER_MAX && !ByteClass::LineBreak.has(input[i]) {
        lemma_trailer_line_end(input, i + 1, hasty);
    }
}

/// Where a line ends does not depend on when the limit is seen.
proof fn lemma_trailer_line_end_hasty(input: Seq<u8>, i: int)
    requires
        0 <= i,
    ensures
        trailer_line_end(input, i, true) is Ok <==> trailer_line_end(input, i, false) is Ok,
        trailer_line_end(input, i, true) is Ok ==> trailer_line_end(input, i, true)
            == trailer_line_end(input, i, false),
    decreases input.len() - i,
{
    if i < input.len() && i < TRAILER_MAX && !ByteClass::LineBreak.has(input[i]) {
        lemma_trailer_line_end_hasty(input, i + 1);
    }
}

/// The end of a line, found by its carriage return.
pub proof fn lemma_trailer_line_end_is_first_cr(input: Seq<u8>, start: int, hasty: bool)
    requires
        0 <= start <= input.len(),
        trailer_line_end(input, start, hasty) is Ok,
    ensures
        first_from(input, ByteClass::Only('\r' as u8), start) == trailer_line_end(
            input,
            start,
            hasty,
        )->Ok_0,
{
    lemma_trailer_line_end(input, start, hasty);
    let end = trailer_line_end(input, start, hasty)->Ok_0;
    assert forall|j: int| start <= j < end implies !ByteClass::Only('\r' as u8).has(
        #[trigger] input[j],
    ) by {
        assert(!ByteClass::LineBreak.has(input[j]));
    }
    lemma_first_from_unique(input, ByteClass::Only('\r' as u8), start, end);
}

/// The end of the section lies no earlier than where the search for it starts.
pub proof fn lemma_trailer_end_after(input: Seq<u8>, start: int)
    requires
        0 <= start,
    ensures
        trailer_end(input, start) matches Ok(stop) ==> {
            &&& start <= stop
            &&& stop + 2 <= input.len()
            &&& stop + 2 <= TRAILER_MAX
        },
    decreases input.len() - start,
{
    lemma_trailer_line_end(input, start, false);
    if let Ok(end) = trailer_line_end(input, start, false) {
        if end > start {
            lemma_trailer_end_after(input, end + 2);
        }
    }
}

/// How a line that is refused is worded decides nothing else.
proof fn lemma_worded(line: Seq<u8>, declared: Seq<Seq<u8>>, before: Seq<FieldModel>)
    ensures
        next_field(line, declared, before, true) is Ok <==> next_field(
            line,
            declared,
            before,
            false,
        ) is Ok,
        next_field(line, declared, before, true) is Ok ==> next_field(line, declared, before, true)
            == next_field(line, declared, before, false),
        trailer_field(line, true) is Ok <==> trailer_field(line, false) is Ok,
        trailer_field(line, true) is Ok ==> trailer_field(line, true) == trailer_field(line, false),
{
}

proof fn lemma_section_framed(
    input: Seq<u8>,
    start: int,
    declared: Seq<Seq<u8>>,
    fields: Seq<FieldModel>,
)
    requires
        0 <= start <= input.len(),
    ensures
        ({
            let whole = trailer_end(input, start);
            match trailer_section(input, start, declared, fields) {
                Ok(block) => {
                    &&& whole is Ok
                    &&& start <= whole->Ok_0
                    &&& trailer_lines(input, start, whole->Ok_0, declared, fields) == Ok::<
                        Seq<FieldModel>,
                        Fault,
                    >(block.fields)
                    &&& block.bytes_consumed == whole->Ok_0 + 2
                },
                Err(_) => whole is Ok ==> trailer_lines(
                    input,
                    start,
                    whole->Ok_0,
                    declared,
                    fields,
                ) is Err,
            }
        }),
    decreases input.len() - start,
{
    lemma_trailer_line_end(input, start, false);
    if let Ok(end) = trailer_line_end(input, start, false) {
        if end > start {
            let line = input.subrange(start, end);
            lemma_trailer_line_end_is_first_cr(input, start, false);
            lemma_worded(line, declared, fields);
            lemma_trailer_end_after(input, end + 2);
            if fields.len() != TRAILER_FIELD_MAX {
                if let Ok(field) = next_field(line, declared, fields, true) {
                    lemma_section_framed(input, end + 2, declared, fields.push(field));
                }
            }
        }
    }
}

/// With names no longer than a field may have, an eager check of the declared names refuses the
/// same ones.
proof fn lemma_eager(names: Seq<Seq<u8>>, upto: int)
    requires
        0 <= upto <= names.len(),
        forall|i: int| 0 <= i < names.len() ==> (#[trigger] names[i]).len() <= TRAILER_NAME_MAX,
        names.take(upto).no_duplicates(),
    ensures
        first_declaration_fault(names, upto, true) is None <==> first_declaration_fault(
            names,
            upto,
            false,
        ) is None && names.no_duplicates(),
    decreases names.len() - upto,
{
    if upto == names.len() {
        assert(names.take(upto) =~= names);
    } else {
        let before = names.take(upto);
        if before.contains(names[upto]) {
            let j = choose|j: int| 0 <= j < before.len() && before[j] == names[upto];
            assert(names[j] == names[upto]);
            assert(!names.no_duplicates());
        } else {
            assert(names.take(upto + 1) =~= before.push(names[upto]));
            assert(names.take(upto + 1).no_duplicates());
            lemma_eager(names, upto + 1);
        }
    }
}

/// To frame the whole section first decides only which error comes. Names that are longer than a
/// field's may be declared then, and are left out here.
pub proof fn lemma_framed_accepts_alike(input: Seq<u8>, declared: Seq<Seq<u8>>)
    requires
        forall|i: int|
            0 <= i < declared.len() ==> (#[trigger] declared[i]).len() <= TRAILER_NAME_MAX,
    ensures
        parsed(input, declared) is Ok <==> parsed_framed(input, declared) is Ok,
        parsed(input, declared) is Ok ==> parsed(input, declared) == parsed_framed(input, declared),
{
    lemma_section_framed(input, 0, declared, Seq::empty());
    assert(declared.take(0).no_duplicates());
    lemma_eager(declared, 0);
}

proof fn lemma_envelope_extends(input: Seq<u8>, start: int, found: Seq<(int, int)>)
    ensures
        envelope(input, start, found) matches Ok((all, _)) ==> found.is_prefix_of(all),
    decreases input.len() - start,
{
    if let Ok(end) = trailer_line_end(input, start, true) {
        if !(end <= start || end + 2 > input.len()) && found.len() != TRAILER_FIELD_MAX {
            lemma_envelope_extends(input, end + 2, found.push((start, end)));
            if let Ok((all, _)) = envelope(input, start, found) {
                let longer = found.push((start, end));
                assert(longer.is_prefix_of(all));
                assert(found =~= longer.subrange(0, found.len() as int));
                assert(found =~= all.subrange(0, found.len() as int));
            }
        }
    }
}

/// A bad line, or a bad name, stays so whatever comes after it.
pub proof fn lemma_prefix_decides(
    input: Seq<u8>,
    prefix: Seq<(int, int)>,
    all: Seq<(int, int)>,
    declared: Seq<Seq<u8>>,
)
    requires
        prefix.is_prefix_of(all),
    ensures
        grammar(input, prefix) is Err ==> grammar(input, all) == grammar(input, prefix),
        grammar(input, all) matches Ok(fields) ==> grammar(input, prefix) == Ok::<
            Seq<FieldModel>,
            Fault,
        >(fields.take(prefix.len() as int)) && fields.len() == all.len() && (policy_fault(
            fields.take(prefix.len() as int),
            declared,
        ) is Some ==> policy_fault(fields, declared) is Some),
    decreases all.len(),
{
    if prefix.len() == all.len() {
        assert(prefix =~= all);
        lemma_grammar_len(input, all);
        if let Ok(fields) = grammar(input, all) {
            assert(fields.take(prefix.len() as int) =~= fields);
        }
    } else {
        let shorter = all.drop_last();
        assert(prefix =~= shorter.subrange(0, prefix.len() as int));
        lemma_prefix_decides(input, prefix, shorter, declared);
        if let Ok(fields) = grammar(input, all) {
            let less = grammar(input, shorter)->Ok_0;
            assert(fields.drop_last() =~= less);
            assert(fields.take(prefix.len() as int) =~= less.take(prefix.len() as int));
        }
    }
}

/// A name that may not come stays so whatever comes after it.
pub proof fn lemma_policy_prefix(fields: Seq<FieldModel>, len: int, declared: Seq<Seq<u8>>)
    requires
        0 <= len <= fields.len(),
    ensures
        policy_fault(fields.take(len), declared) is Some ==> policy_fault(fields, declared)
            == policy_fault(fields.take(len), declared),
    decreases fields.len(),
{
    if len == fields.len() {
        assert(fields.take(len) =~= fields);
    } else {
        lemma_policy_prefix(fields.drop_last(), len, declared);
        assert(fields.drop_last().take(len) =~= fields.take(len));
    }
}

proof fn lemma_grammar_len(input: Seq<u8>, found: Seq<(int, int)>)
    ensures
        grammar(input, found) matches Ok(fields) ==> fields.len() == found.len(),
    decreases found.len(),
{
    if found.len() > 0 {
        lemma_grammar_len(input, found.drop_last());
    }
}

proof fn lemma_section_in_phases(
    input: Seq<u8>,
    start: int,
    declared: Seq<Seq<u8>>,
    fields: Seq<FieldModel>,
    found: Seq<(int, int)>,
)
    requires
        0 <= start <= input.len(),
        grammar(input, found) == Ok::<Seq<FieldModel>, Fault>(fields),
        policy_fault(fields, declared) is None,
        fields.len() == found.len(),
    ensures
        match trailer_section(input, start, declared, fields) {
            Ok(block) => match envelope(input, start, found) {
                Ok((all, stop)) => {
                    &&& grammar(input, all) == Ok::<Seq<FieldModel>, Fault>(block.fields)
                    &&& policy_fault(block.fields, declared) is None
                    &&& block.bytes_consumed == stop + 2
                },
                Err(_) => false,
            },
            Err(_) => match envelope(input, start, found) {
                Ok((all, stop)) => match grammar(input, all) {
                    Ok(every) => policy_fault(every, declared) is Some,
                    Err(_) => true,
                },
                Err(_) => true,
            },
        },
    decreases input.len() - start,
{
    lemma_trailer_line_end_hasty(input, start);
    lemma_trailer_line_end(input, start, false);
    if let Ok(end) = trailer_line_end(input, start, false) {
        if end > start && fields.len() != TRAILER_FIELD_MAX {
            let line = input.subrange(start, end);
            let longer = found.push((start, end));
            lemma_worded(line, declared, fields);
            assert(longer.drop_last() =~= found);
            if let Ok(field) = trailer_field(line, false) {
                let more = fields.push(field);
                assert(more.drop_last() =~= fields);
                assert(grammar(input, longer) == Ok::<Seq<FieldModel>, Fault>(more));
                if received_fault(field.name, declared, fields) is None {
                    lemma_section_in_phases(input, end + 2, declared, more, longer);
                } else {
                    assert(policy_fault(more, declared) is Some);
                    lemma_envelope_extends(input, end + 2, longer);
                    if let Ok((all, _)) = envelope(input, end + 2, longer) {
                        lemma_prefix_decides(input, longer, all, declared);
                    }
                }
            } else {
                assert(grammar(input, longer) is Err);
                lemma_envelope_extends(input, end + 2, longer);
                if let Ok((all, _)) = envelope(input, end + 2, longer) {
                    lemma_prefix_decides(input, longer, all, declared);
                }
            }
        }
    }
}

/// To go through the lines in phases decides only which error comes.
pub proof fn lemma_phases_accept_alike(input: Seq<u8>, declared: Seq<Seq<u8>>)
    ensures
        parsed(input, declared) is Ok <==> parsed_in_phases(input, declared) is Ok,
        parsed(input, declared) is Ok ==> parsed(input, declared) == parsed_in_phases(
            input,
            declared,
        ),
{
    assert(grammar(input, Seq::empty()) == Ok::<Seq<FieldModel>, Fault>(Seq::empty()));
    lemma_section_in_phases(input, 0, declared, Seq::empty(), Seq::empty());
}

/// What holds of the fields of every accepted section: each was declared, none is forbidden, no
/// two have the same name.
pub open spec fn is_permitted(fields: Seq<FieldModel>, declared: Seq<Seq<u8>>) -> bool {
    &&& fields.len() <= TRAILER_FIELD_MAX
    &&& forall|i: int|
        0 <= i < fields.len() ==> declared.contains((#[trigger] fields[i]).name) && !is_forbidden(
            fields[i].name,
        )
    &&& forall|i: int, j: int|
        0 <= i < j < fields.len() ==> (#[trigger] fields[i]).name != (#[trigger] fields[j]).name
}

proof fn lemma_section_permitted(
    input: Seq<u8>,
    start: int,
    declared: Seq<Seq<u8>>,
    fields: Seq<FieldModel>,
)
    requires
        0 <= start <= input.len(),
        is_permitted(fields, declared),
    ensures
        trailer_section(input, start, declared, fields) matches Ok(block) ==> {
            &&& is_permitted(block.fields, declared)
            &&& 2 <= block.bytes_consumed <= TRAILER_MAX
            &&& block.bytes_consumed <= input.len()
        },
    decreases input.len() - start,
{
    lemma_trailer_line_end(input, start, false);
    if let Ok(end) = trailer_line_end(input, start, false) {
        if end > start && fields.len() != TRAILER_FIELD_MAX {
            if let Ok(field) = next_field(input.subrange(start, end), declared, fields, true) {
                let more = fields.push(field);
                assert forall|i: int, j: int| 0 <= i < j < more.len() implies (
                #[trigger] more[i]).name != (#[trigger] more[j]).name by {
                    if j == fields.len() && fields[i].name == field.name {
                        assert(has_name(fields, field.name));
                    }
                }
                lemma_section_permitted(input, end + 2, declared, more);
            }
        }
    }
}

proof fn lemma_trailer_line_is_local(input: Seq<u8>, other: Seq<u8>, i: int)
    requires
        0 <= i,
        trailer_line_end(input, i, false) matches Ok(end) && end + 2 <= other.len() && forall|j: int|
            i <= j < end + 2 ==> #[trigger] other[j] == input[j],
    ensures
        trailer_line_end(other, i, false) == trailer_line_end(input, i, false),
    decreases input.len() - i,
{
    lemma_trailer_line_end(input, i, false);
    assert(other[i] == input[i]);
    if input[i] != '\r' as u8 {
        lemma_trailer_line_is_local(input, other, i + 1);
    } else {
        assert(other[i + 1] == input[i + 1]);
    }
}

proof fn lemma_trailer_section_after(
    input: Seq<u8>,
    start: int,
    declared: Seq<Seq<u8>>,
    fields: Seq<FieldModel>,
)
    requires
        0 <= start,
    ensures
        trailer_section(input, start, declared, fields) matches Ok(block) ==> start + 2
            <= block.bytes_consumed <= input.len(),
    decreases input.len() - start,
{
    lemma_trailer_line_end(input, start, false);
    if let Ok(end) = trailer_line_end(input, start, false) {
        if end > start && fields.len() != TRAILER_FIELD_MAX {
            if let Ok(field) = next_field(input.subrange(start, end), declared, fields, true) {
                lemma_trailer_section_after(input, end + 2, declared, fields.push(field));
            }
        }
    }
}

proof fn lemma_trailer_section_is_local(
    input: Seq<u8>,
    other: Seq<u8>,
    start: int,
    declared: Seq<Seq<u8>>,
    fields: Seq<FieldModel>,
)
    requires
        0 <= start,
        trailer_section(input, start, declared, fields) matches Ok(block) && block.bytes_consumed
            <= other.len() && forall|j: int|
            start <= j < block.bytes_consumed ==> #[trigger] other[j] == input[j],
    ensures
        trailer_section(other, start, declared, fields) == trailer_section(
            input,
            start,
            declared,
            fields,
        ),
    decreases input.len() - start,
{
    lemma_trailer_line_end(input, start, false);
    lemma_trailer_section_after(input, start, declared, fields);
    let end = trailer_line_end(input, start, false)->Ok_0;
    if end > start {
        let field = next_field(input.subrange(start, end), declared, fields, true)->Ok_0;
        lemma_trailer_section_after(input, end + 2, declared, fields.push(field));
        lemma_trailer_line_is_local(input, other, start);
        assert(other.subrange(start, end) =~= input.subrange(start, end));
        lemma_trailer_section_is_local(input, other, end + 2, declared, fields.push(field));
    } else {
        lemma_trailer_line_is_local(input, other, start);
    }
}

/// An accepted section depends only on the bytes that it takes up, in whatever way it is parsed:
/// nothing after them is looked at.
pub proof fn lemma_parsed_is_local(input: Seq<u8>, rest: Seq<u8>, declared: Seq<Seq<u8>>)
    ensures
        parsed(input, declared) matches Ok(block) ==> parsed(
            input.take(block.bytes_consumed) + rest,
            declared,
        ) == parsed(input, declared),
        parsed_framed(input, declared) matches Ok(block) ==> parsed_framed(
            input.take(block.bytes_consumed) + rest,
            declared,
        ) == parsed_framed(input, declared),
        parsed_in_phases(input, declared) matches Ok(block) ==> parsed_in_phases(
            input.take(block.bytes_consumed) + rest,
            declared,
        ) == parsed_in_phases(input, declared),
{
    lemma_trailer_section_after(input, 0, declared, Seq::empty());
    lemma_section_framed(input, 0, declared, Seq::empty());
    lemma_phases_accept_alike(input, declared);
    if let Ok(block) = trailer_section(input, 0, declared, Seq::empty()) {
        let other = input.take(block.bytes_consumed) + rest;
        lemma_trailer_section_is_local(input, other, 0, declared, Seq::empty());
        lemma_section_framed(other, 0, declared, Seq::empty());
        lemma_phases_accept_alike(other, declared);
    }
}

/// Every accepted field was declared, none is forbidden, and none comes twice, in whatever way the
/// section is parsed.
pub proof fn lemma_accepted_is_permitted(input: Seq<u8>, declared: Seq<Seq<u8>>)
    ensures
        parsed(input, declared) matches Ok(block) ==> {
            &&& is_permitted(block.fields, declared)
            &&& 2 <= block.bytes_consumed <= TRAILER_MAX
            &&& block.bytes_consumed <= input.len()
        },
        parsed_framed(input, declared) matches Ok(block) ==> {
            &&& is_permitted(block.fields, declared)
            &&& 2 <= block.bytes_consumed <= TRAILER_MAX
            &&& block.bytes_consumed <= input.len()
        },
        parsed_in_phases(input, declared) matches Ok(block) ==> {
            &&& is_permitted(block.fields, declared)
            &&& 2 <= block.bytes_consumed <= TRAILER_MAX
            &&& block.bytes_consumed <= input.len()
        },
{
    lemma_section_framed(input, 0, declared, Seq::empty());
    lemma_phases_accept_alike(input, declared);
    lemma_section_permitted(input, 0, declared, Seq::empty());
}

/// Whether a name is one that no trailer field may have.
pub fn is_forbidden_name(name: &[u8]) -> (forbidden: bool)
    ensures
        forbidden == is_forbidden(name@),
{
    starts_with(name, "x-forwarded-".as_bytes()) || same_bytes(name, "content-length".as_bytes())
        || same_bytes(name, "transfer-encoding".as_bytes()) || same_bytes(name, "host".as_bytes())
        || same_bytes(name, "connection".as_bytes()) || same_bytes(name, "trailer".as_bytes())
        || same_bytes(name, "upgrade".as_bytes()) || same_bytes(name, "forwarded".as_bytes())
        || same_bytes(name, "authorization".as_bytes()) || same_bytes(
        name,
        "proxy-authorization".as_bytes(),
    ) || same_bytes(name, "cookie".as_bytes()) || same_bytes(name, "set-cookie".as_bytes())
}

} // verus!
