//! Field sections on the wire: header sections and trailer sections, line by line.

use vstd::prelude::*;
use crate::bytes::{
    ByteClass, all_in, any_in, first_from, is_ows, lemma_first_from, lemma_first_from_unique,
    lowered, trimmed,
};
use crate::header::{
    field_of, lemma_line_end_at, lemma_parsed_section, lemma_parsers_accept_alike, parsed_whole,
    section,
};
use crate::laws::byte_text::{lemma_trimmed_off, lemma_trimmed_parts};
use crate::text::{lemma_ascii_literal, utf8};
use crate::trailer::{
    declaration_fault, first_declaration_fault, has_name, lemma_accepted_is_permitted,
    lemma_framed_accepts_alike, lemma_trailer_line_end, next_field, parsed_framed,
    parsed_in_phases, received_fault, trailer_field, trailer_line_end, trailer_section,
};
use crate::types::{BlockModel, Fault, FieldModel};

verus! {

/// A field line: the name before the colon, the value, and the spaces and tabs around it.
pub struct WireField {
    pub name: Seq<u8>,
    pub before: Seq<u8>,
    pub value: Seq<u8>,
    pub after: Seq<u8>,
}

/// Whether a name is one to 128 visible bytes without the delimiters `"(),/:;<=>?@[\]{}`.
pub open spec fn is_name(name: Seq<u8>) -> bool {
    &&& 1 <= name.len() <= 128
    &&& forall|i: int|
        0 <= i < name.len() ==> 0x21 <= #[trigger] name[i] <= 0x7e && name[i] != 0x22 && name[i]
            != 0x28 && name[i] != 0x29 && name[i] != 0x2c && name[i] != 0x2f && name[i] != 0x3a
            && name[i] != 0x3b && name[i] != 0x3c && name[i] != 0x3d && name[i] != 0x3e && name[i]
            != 0x3f && name[i] != 0x40 && name[i] != 0x5b && name[i] != 0x5c && name[i] != 0x5d
            && name[i] != 0x7b && name[i] != 0x7d
}

/// Whether a text is spaces and tabs.
pub open spec fn is_padding(s: Seq<u8>) -> bool {
    forall|i: int| 0 <= i < s.len() ==> #[trigger] s[i] == 0x20 || s[i] == 0x09
}

/// Whether a value is at most 8192 bytes without control bytes but tabs, and neither begins nor
/// ends with a space or a tab.
pub open spec fn is_value(value: Seq<u8>) -> bool {
    &&& value.len() <= 8192
    &&& forall|i: int|
        0 <= i < value.len() ==> #[trigger] value[i] == 0x09 || 0x20 <= value[i] <= 0x7e || 0x80
            <= value[i]
    &&& value.len() > 0 ==> value[0] != 0x20 && value[0] != 0x09 && value[value.len() - 1] != 0x20
        && value[value.len() - 1] != 0x09
}

/// Whether a line is one that a section may hold.
pub open spec fn is_line(line: WireField) -> bool {
    is_name(line.name) && is_padding(line.before) && is_value(line.value) && is_padding(line.after)
}

/// The bytes of a line.
pub open spec fn line_bytes(line: WireField) -> Seq<u8> {
    line.name + seq![0x3au8] + line.before + line.value + line.after
}

/// The bytes of lines, each with its line ending.
pub open spec fn lines_bytes(lines: Seq<WireField>) -> Seq<u8>
    decreases lines.len(),
{
    if lines.len() == 0 {
        Seq::empty()
    } else {
        line_bytes(lines[0]) + seq![0x0du8, 0x0au8] + lines_bytes(lines.skip(1))
    }
}

/// What a line says: the name in lower case and the value.
pub open spec fn said(line: WireField) -> FieldModel {
    FieldModel { name: lowered(line.name), value: line.value }
}

/// What the lines say.
pub open spec fn all_said(lines: Seq<WireField>) -> Seq<FieldModel> {
    Seq::new(lines.len(), |i: int| said(lines[i]))
}

/// The parts of a line are found where they are.
pub(crate) proof fn lemma_line_found(line: WireField)
    requires
        is_line(line),
    ensures
        ({
            let s = line_bytes(line);
            let n = line.name.len() as int;
            let raw = s.subrange(n + 1, s.len() as int);
            &&& first_from(s, ByteClass::Only(':' as u8), 0) == n
            &&& n < s.len()
            &&& s.subrange(0, n) == line.name
            &&& !is_ows(s[0])
            &&& all_in(line.name, ByteClass::Token)
            &&& !any_in(line.name, ByteClass::Ows)
            &&& all_in(raw, ByteClass::Field)
            &&& trimmed(raw) == line.value
            &&& forall|j: int| 0 <= j < s.len() ==> !ByteClass::LineBreak.has(#[trigger] s[j])
        }),
{
    let s = line_bytes(line);
    let n = line.name.len() as int;
    let only = ByteClass::Only(':' as u8);
    let raw = s.subrange(n + 1, s.len() as int);
    let b = line.before.len() as int;
    let v = line.value.len() as int;
    assert forall|j: int| 0 <= j < n implies ByteClass::Token.has(#[trigger] line.name[j])
        && !ByteClass::Ows.has(line.name[j]) && !only.has(line.name[j]) by {}
    assert forall|j: int| 0 <= j < n implies !only.has(#[trigger] s[j]) by {
        assert(s[j] == line.name[j]);
    }
    assert(s[n] == 0x3a);
    lemma_first_from_unique(s, only, 0, n);
    assert(s.subrange(0, n) =~= line.name);
    assert(s[0] == line.name[0]);
    assert(ByteClass::Token.has(line.name[0]));
    assert(raw =~= line.before + line.value + line.after);
    if v > 0 {
        assert(line.value.last() == line.value[v - 1]);
    }
    lemma_trimmed_off(line.before, line.value, line.after);
    assert forall|j: int| 0 <= j < raw.len() implies ByteClass::Field.has(#[trigger] raw[j]) by {
        if j < b {
            assert(raw[j] == line.before[j]);
        } else if j < b + v {
            assert(raw[j] == line.value[j - b]);
        } else {
            assert(raw[j] == line.after[j - b - v]);
        }
    }
    assert forall|j: int| 0 <= j < s.len() implies !ByteClass::LineBreak.has(#[trigger] s[j]) by {
        if j < n {
            assert(s[j] == line.name[j]);
        } else if j > n {
            assert(s[j] == raw[j - n - 1]);
            assert(ByteClass::Field.has(raw[j - n - 1]));
        }
    }
}

/// The parts of a line that is accepted.
proof fn lemma_line_parts(s: Seq<u8>) -> (line: WireField)
    requires
        ({
            let colon = first_from(s, ByteClass::Only(':' as u8), 0);
            let name = s.subrange(0, colon);
            let raw = s.subrange(colon + 1, s.len() as int);
            &&& colon < s.len()
            &&& 1 <= name.len() <= 128
            &&& all_in(name, ByteClass::Token)
            &&& all_in(raw, ByteClass::Field)
            &&& trimmed(raw).len() <= 8192
        }),
    ensures
        is_line(line),
        s == line_bytes(line),
        ({
            let colon = first_from(s, ByteClass::Only(':' as u8), 0);
            said(line) == FieldModel {
                name: lowered(s.subrange(0, colon)),
                value: trimmed(s.subrange(colon + 1, s.len() as int)),
            }
        }),
{
    let only = ByteClass::Only(':' as u8);
    lemma_first_from(s, only, 0);
    let colon = first_from(s, only, 0);
    let name = s.subrange(0, colon);
    let raw = s.subrange(colon + 1, s.len() as int);
    lemma_trimmed_parts(raw);
    let (before, after) = choose|before: Seq<u8>, after: Seq<u8>|
        #![trigger before + trimmed(raw) + after]
        {
            &&& raw == before + trimmed(raw) + after
            &&& forall|i: int|
                0 <= i < before.len() ==> #[trigger] before[i] == 0x20 || before[i] == 0x09
            &&& forall|i: int|
                0 <= i < after.len() ==> #[trigger] after[i] == 0x20 || after[i] == 0x09
        };
    let value = trimmed(raw);
    let line = WireField { name, before, value, after };
    assert(s[colon] == 0x3a);
    assert(s =~= name + seq![0x3au8] + raw);
    assert(s =~= line_bytes(line));
    assert(is_name(name)) by {
        assert forall|i: int| 0 <= i < name.len() implies ByteClass::Token.has(
            #[trigger] name[i],
        ) by {}
    }
    assert(is_value(value)) by {
        assert forall|i: int| 0 <= i < value.len() implies #[trigger] value[i] == 0x09 || 0x20
            <= value[i] <= 0x7e || 0x80 <= value[i] by {
            assert(raw[before.len() + i] == value[i]);
            assert(ByteClass::Field.has(raw[before.len() + i]));
        }
        if value.len() > 0 {
            assert(value.last() == value[value.len() - 1]);
        }
    }
    line
}

proof fn lemma_header_lines_from(
    input: Seq<u8>,
    start: int,
    lines: Seq<WireField>,
    k: int,
    rest: Seq<u8>,
)
    requires
        0 <= k <= lines.len() <= 128,
        0 <= start <= input.len(),
        forall|i: int| 0 <= i < lines.len() ==> is_line(#[trigger] lines[i]),
        input.skip(start) == lines_bytes(lines.skip(k)) + seq![0x0du8, 0x0au8] + rest,
        start + lines_bytes(lines.skip(k)).len() + 2 <= 32768,
    ensures
        section(input, start, all_said(lines.take(k))) == Ok::<BlockModel, Fault>(
            BlockModel {
                fields: all_said(lines),
                bytes_consumed: start + lines_bytes(lines.skip(k)).len() + 2,
            },
        ),
    decreases lines.len() - k,
{
    let left = lines.skip(k);
    let read = all_said(lines.take(k));
    let tail = input.skip(start);
    if k < lines.len() {
        let line = lines[k];
        let s = line_bytes(line);
        let n = s.len() as int;
        let end = start + n;
        assert(left[0] == line);
        assert(left.skip(1) =~= lines.skip(k + 1));
        lemma_line_found(line);
        assert(tail =~= s + seq![0x0du8, 0x0au8] + (lines_bytes(lines.skip(k + 1)) + seq![
            0x0du8,
            0x0au8,
        ] + rest));
        assert(tail.len() == input.len() - start);
        assert forall|j: int| start <= j < end implies !ByteClass::LineBreak.has(
            #[trigger] input[j],
        ) by {
            assert(input[j] == tail[j - start]);
            assert(tail[j - start] == s[j - start]);
        }
        assert(input[end] == tail[n]);
        assert(input[end + 1] == tail[n + 1]);
        lemma_line_end_at(input, start, start, end, false);
        assert(crate::header::line_end(input, start, start, false) == Ok::<int, Fault>(end));
        assert(input.subrange(start, end) =~= s) by {
            assert forall|j: int| 0 <= j < n implies input.subrange(start, end)[j] == s[j] by {
                assert(input[start + j] == tail[j]);
            }
        }
        assert(field_of(s, start) == Ok::<FieldModel, Fault>(said(line)));
        assert(input.skip(end + 2) =~= lines_bytes(lines.skip(k + 1)) + seq![0x0du8, 0x0au8] + rest) by {
            assert(input.skip(end + 2) =~= tail.skip(n + 2));
        }
        lemma_header_lines_from(input, end + 2, lines, k + 1, rest);
        assert(all_said(lines.take(k + 1)) =~= read.push(said(line)));
    } else {
        assert(lines_bytes(left) =~= Seq::<u8>::empty());
        assert(tail =~= seq![0x0du8, 0x0au8] + rest);
        assert(tail.len() == input.len() - start);
        assert(tail[0] == 0x0d && tail[1] == 0x0a);
        assert(input[start] == tail[0]);
        assert(input[start + 1] == tail[1]);
        assert(crate::header::line_end(input, start, start, false) == Ok::<int, Fault>(start));
        assert(lines.take(k) =~= lines);
    }
}

/// Up to 128 field lines in up to 32768 bytes are a header section, whatever the case of their
/// names and whatever stands around their values: each says its name in lower case and its
/// value, in their order. The section ends with the empty line, and nothing after it matters.
pub proof fn lemma_header_lines_are_read(lines: Seq<WireField>, rest: Seq<u8>)
    requires
        lines.len() <= 128,
        forall|i: int| 0 <= i < lines.len() ==> is_line(#[trigger] lines[i]),
        lines_bytes(lines).len() + 2 <= 32768,
    ensures
        ({
            let input = lines_bytes(lines) + seq![0x0du8, 0x0au8] + rest;
            let block = BlockModel {
                fields: all_said(lines),
                bytes_consumed: lines_bytes(lines).len() as int + 2,
            };
            &&& crate::header::parsed(input) == Ok::<BlockModel, Fault>(block)
            &&& forall|hasty: bool, greedy: bool|
                #[trigger] parsed_whole(input, hasty, greedy) == Ok::<BlockModel, Fault>(block)
        }),
{
    let input = lines_bytes(lines) + seq![0x0du8, 0x0au8] + rest;
    assert(lines.skip(0) =~= lines);
    assert(input.skip(0) =~= input);
    assert(all_said(lines.take(0)) =~= Seq::<FieldModel>::empty());
    lemma_header_lines_from(input, 0, lines, 0, rest);
    assert forall|hasty: bool, greedy: bool| #[trigger]
        parsed_whole(input, hasty, greedy) == crate::header::parsed(input) by {
        lemma_parsers_accept_alike(input, hasty, greedy);
    }
}

proof fn lemma_header_lines_of(input: Seq<u8>, start: int, fields: Seq<FieldModel>) -> (lines: Seq<
    WireField,
>)
    requires
        0 <= start <= input.len(),
        fields.len() <= 128,
        section(input, start, fields) is Ok,
    ensures
        ({
            let block = section(input, start, fields)->Ok_0;
            &&& forall|i: int| 0 <= i < lines.len() ==> is_line(#[trigger] lines[i])
            &&& fields.len() + lines.len() <= 128
            &&& block.fields == fields + all_said(lines)
            &&& start + 2 <= block.bytes_consumed <= input.len()
            &&& block.bytes_consumed <= 32768
            &&& input.subrange(start, block.bytes_consumed) == lines_bytes(lines) + seq![
                0x0du8,
                0x0au8,
            ]
        }),
    decreases input.len() - start,
{
    crate::header::lemma_line_end(input, start, start, false);
    let end = crate::header::line_end(input, start, start, false)->Ok_0;
    let block = section(input, start, fields)->Ok_0;
    if end <= start {
        let none = Seq::<WireField>::empty();
        assert(fields + all_said(none) =~= fields);
        assert(input.subrange(start, block.bytes_consumed) =~= lines_bytes(none) + seq![
            0x0du8,
            0x0au8,
        ]);
        none
    } else {
        let s = input.subrange(start, end);
        let field = field_of(s, start)->Ok_0;
        lemma_first_from(s, ByteClass::Only(':' as u8), 0);
        let line = lemma_line_parts(s);
        let later = lemma_header_lines_of(input, end + 2, fields.push(field));
        let lines = seq![line] + later;
        assert(lines.skip(1) =~= later);
        assert(fields + all_said(lines) =~= fields.push(field) + all_said(later));
        assert(input.subrange(start, block.bytes_consumed) =~= s + seq![0x0du8, 0x0au8]
            + input.subrange(end + 2, block.bytes_consumed));
        assert(input.subrange(start, block.bytes_consumed) =~= lines_bytes(lines) + seq![
            0x0du8,
            0x0au8,
        ]);
        lines
    }
}

/// Nothing else is a header section: where one is accepted, the bytes that it takes up are field
/// lines and an empty line, and the fields are what the lines say.
pub proof fn lemma_header_is_lines(input: Seq<u8>)
    ensures
        crate::header::parsed(input) matches Ok(block) ==> exists|lines: Seq<WireField>|
            {
                &&& lines.len() <= 128
                &&& forall|i: int| 0 <= i < lines.len() ==> is_line(#[trigger] lines[i])
                &&& block.fields == all_said(lines)
                &&& 2 <= block.bytes_consumed <= input.len()
                &&& block.bytes_consumed <= 32768
                &&& input.take(block.bytes_consumed) == #[trigger] lines_bytes(lines) + seq![
                    0x0du8,
                    0x0au8,
                ]
            },
        forall|hasty: bool, greedy: bool|
            #[trigger] parsed_whole(input, hasty, greedy) is Ok ==> parsed_whole(
                input,
                hasty,
                greedy,
            ) == crate::header::parsed(input),
{
    if crate::header::parsed(input) is Ok {
        let block = crate::header::parsed(input)->Ok_0;
        let none = Seq::<FieldModel>::empty();
        let lines = lemma_header_lines_of(input, 0, none);
        assert(none + all_said(lines) =~= all_said(lines));
        assert(input.take(block.bytes_consumed) =~= input.subrange(0, block.bytes_consumed));
        assert(input.take(block.bytes_consumed) == lines_bytes(lines) + seq![0x0du8, 0x0au8]);
    }
    lemma_parsed_section(input);
}

/// Whether a name may be declared for a trailer: a name without capitals that is none of the
/// eleven that frame, route, authorize or hold state, and does not begin with `x-forwarded-`.
pub open spec fn is_declarable(name: Seq<u8>) -> bool {
    &&& is_name(name)
    &&& forall|i: int| 0 <= i < name.len() ==> !(0x41 <= #[trigger] name[i] <= 0x5a)
    &&& name != utf8("content-length"@)
    &&& name != utf8("transfer-encoding"@)
    &&& name != utf8("host"@)
    &&& name != utf8("connection"@)
    &&& name != utf8("trailer"@)
    &&& name != utf8("upgrade"@)
    &&& name != utf8("forwarded"@)
    &&& name != utf8("authorization"@)
    &&& name != utf8("proxy-authorization"@)
    &&& name != utf8("cookie"@)
    &&& name != utf8("set-cookie"@)
    &&& !(name.len() >= 12 && name.take(12) == utf8("x-forwarded-"@))
}

pub(crate) proof fn lemma_declarable(name: Seq<u8>)
    ensures
        is_declarable(name) <==> declaration_fault(name, true) is None,
{
    reveal_strlit("x-forwarded-");
    lemma_ascii_literal("x-forwarded-"@);
    assert(utf8("x-forwarded-"@).is_prefix_of(name) <==> name.len() >= 12 && name.take(12) == utf8(
        "x-forwarded-"@,
    )) by {
        assert(utf8("x-forwarded-"@).len() == 12);
        if name.len() >= 12 {
            assert(name.take(12) =~= name.subrange(0, 12));
        }
    }
    assert(is_name(name) <==> 1 <= name.len() <= 128 && all_in(name, ByteClass::Token)) by {
        if is_name(name) {
            assert forall|i: int| 0 <= i < name.len() implies ByteClass::Token.has(
                #[trigger] name[i],
            ) by {}
        }
        if all_in(name, ByteClass::Token) && 1 <= name.len() <= 128 {
            assert forall|i: int| 0 <= i < name.len() implies ByteClass::Token.has(
                #[trigger] name[i],
            ) by {}
            assert(is_name(name));
        }
    }
    assert(any_in(name, ByteClass::Upper) <==> !forall|i: int|
        0 <= i < name.len() ==> !(0x41 <= #[trigger] name[i] <= 0x5a)) by {
        if any_in(name, ByteClass::Upper) {
            let i = choose|i: int| 0 <= i < name.len() && ByteClass::Upper.has(#[trigger] name[i]);
            assert(0x41 <= name[i] <= 0x5a);
        }
        if !forall|i: int| 0 <= i < name.len() ==> !(0x41 <= #[trigger] name[i] <= 0x5a) {
            let i = choose|i: int| 0 <= i < name.len() && (0x41 <= #[trigger] name[i] <= 0x5a);
            assert(ByteClass::Upper.has(name[i]));
        }
    }
}

pub(crate) proof fn lemma_declarations(names: Seq<Seq<u8>>, from: int)
    requires
        0 <= from <= names.len(),
    ensures
        first_declaration_fault(names, from, false) is None <==> forall|i: int|
            from <= i < names.len() ==> is_declarable(#[trigger] names[i]),
    decreases names.len() - from,
{
    if from < names.len() {
        lemma_declarable(names[from]);
        lemma_declarations(names, from + 1);
        if first_declaration_fault(names, from, false) is None {
            assert forall|i: int| from <= i < names.len() implies is_declarable(
                #[trigger] names[i],
            ) by {}
        } else if is_declarable(names[from]) {
            assert(!forall|i: int| from + 1 <= i < names.len() ==> is_declarable(
                #[trigger] names[i],
            ));
        }
    }
}

pub(crate) proof fn lemma_trailer_line_found(input: Seq<u8>, end: int, i: int)
    requires
        0 <= i <= end,
        end + 2 <= 8192,
        end + 2 <= input.len(),
        input[end] == 0x0d,
        input[end + 1] == 0x0a,
        forall|j: int| i <= j < end ==> !ByteClass::LineBreak.has(#[trigger] input[j]),
    ensures
        trailer_line_end(input, i, false) == Ok::<int, Fault>(end),
    decreases end - i,
{
    if i < end {
        assert(!ByteClass::LineBreak.has(input[i]));
        lemma_trailer_line_found(input, end, i + 1);
    }
}

proof fn lemma_trailer_lines_from(
    input: Seq<u8>,
    start: int,
    lines: Seq<WireField>,
    k: int,
    declared: Seq<Seq<u8>>,
    rest: Seq<u8>,
)
    requires
        0 <= k <= lines.len() <= 32,
        0 <= start <= input.len(),
        forall|i: int| 0 <= i < lines.len() ==> is_line(#[trigger] lines[i]),
        forall|i: int|
            0 <= i < lines.len() ==> declared.contains(lowered((#[trigger] lines[i]).name)),
        forall|i: int, j: int|
            0 <= i < j < lines.len() ==> lowered((#[trigger] lines[i]).name) != lowered(
                (#[trigger] lines[j]).name,
            ),
        forall|i: int| 0 <= i < declared.len() ==> is_declarable(#[trigger] declared[i]),
        input.skip(start) == lines_bytes(lines.skip(k)) + seq![0x0du8, 0x0au8] + rest,
        start + lines_bytes(lines.skip(k)).len() + 2 <= 8192,
    ensures
        trailer_section(input, start, declared, all_said(lines.take(k))) == Ok::<BlockModel, Fault>(
            BlockModel {
                fields: all_said(lines),
                bytes_consumed: start + lines_bytes(lines.skip(k)).len() + 2,
            },
        ),
    decreases lines.len() - k,
{
    let left = lines.skip(k);
    let read = all_said(lines.take(k));
    let tail = input.skip(start);
    if k < lines.len() {
        let line = lines[k];
        let s = line_bytes(line);
        let n = s.len() as int;
        let end = start + n;
        assert(left[0] == line);
        assert(left.skip(1) =~= lines.skip(k + 1));
        lemma_line_found(line);
        assert(tail =~= s + seq![0x0du8, 0x0au8] + (lines_bytes(lines.skip(k + 1)) + seq![
            0x0du8,
            0x0au8,
        ] + rest));
        assert forall|j: int| start <= j < end implies !ByteClass::LineBreak.has(
            #[trigger] input[j],
        ) by {
            assert(input[j] == tail[j - start]);
            assert(tail[j - start] == s[j - start]);
        }
        assert(input[end] == tail[n]);
        assert(input[end + 1] == tail[n + 1]);
        lemma_trailer_line_found(input, end, start);
        assert(input.subrange(start, end) =~= s) by {
            assert forall|j: int| 0 <= j < n implies input.subrange(start, end)[j] == s[j] by {
                assert(input[start + j] == tail[j]);
            }
        }
        assert(trailer_field(s, true) == Ok::<FieldModel, Fault>(said(line)));
        let name = lowered(line.name);
        assert(received_fault(name, declared, read) is None) by {
            let d = choose|d: int| 0 <= d < declared.len() && declared[d] == name;
            assert(declared.contains(name));
            assert(is_declarable(declared[d]));
            lemma_declarable(name);
            if has_name(read, name) {
                let i = choose|i: int| 0 <= i < read.len() && (#[trigger] read[i]).name == name;
                assert(lowered(lines[i].name) == lowered(lines[k].name));
            }
        }
        assert(next_field(s, declared, read, true) == Ok::<FieldModel, Fault>(said(line)));
        assert(input.skip(end + 2) =~= lines_bytes(lines.skip(k + 1)) + seq![0x0du8, 0x0au8] + rest) by {
            assert(input.skip(end + 2) =~= tail.skip(n + 2));
        }
        lemma_trailer_lines_from(input, end + 2, lines, k + 1, declared, rest);
        assert(all_said(lines.take(k + 1)) =~= read.push(said(line)));
    } else {
        assert(lines_bytes(left) =~= Seq::<u8>::empty());
        assert(tail =~= seq![0x0du8, 0x0au8] + rest);
        assert(tail.len() == input.len() - start);
        assert(tail[0] == 0x0d && tail[1] == 0x0a);
        assert(input[start] == tail[0]);
        assert(input[start + 1] == tail[1]);
        lemma_trailer_line_found(input, start, start);
        assert(lines.take(k) =~= lines);
    }
}

/// Up to 32 field lines in up to 8192 bytes are a trailer section where their names, in lower
/// case, are distinct and declared, and the declared names are distinct and may be declared: each
/// line says its name and its value. That holds in whatever way the section is parsed.
pub proof fn lemma_trailer_lines_are_read(
    lines: Seq<WireField>,
    declared: Seq<Seq<u8>>,
    rest: Seq<u8>,
)
    requires
        lines.len() <= 32,
        forall|i: int| 0 <= i < lines.len() ==> is_line(#[trigger] lines[i]),
        forall|i: int|
            0 <= i < lines.len() ==> declared.contains(lowered((#[trigger] lines[i]).name)),
        forall|i: int, j: int|
            0 <= i < j < lines.len() ==> lowered((#[trigger] lines[i]).name) != lowered(
                (#[trigger] lines[j]).name,
            ),
        forall|i: int|
            0 <= i < declared.len() ==> {
                let name = #[trigger] declared[i];
                &&& is_name(name)
                &&& forall|j: int| 0 <= j < name.len() ==> !(0x41 <= #[trigger] name[j] <= 0x5a)
                &&& name != utf8("content-length"@)
                &&& name != utf8("transfer-encoding"@)
                &&& name != utf8("host"@)
                &&& name != utf8("connection"@)
                &&& name != utf8("trailer"@)
                &&& name != utf8("upgrade"@)
                &&& name != utf8("forwarded"@)
                &&& name != utf8("authorization"@)
                &&& name != utf8("proxy-authorization"@)
                &&& name != utf8("cookie"@)
                &&& name != utf8("set-cookie"@)
                &&& !(name.len() >= 12 && name.take(12) == utf8("x-forwarded-"@))
            },
        declared.no_duplicates(),
        lines_bytes(lines).len() + 2 <= 8192,
    ensures
        ({
            let input = lines_bytes(lines) + seq![0x0du8, 0x0au8] + rest;
            let block = Ok::<BlockModel, Fault>(
                BlockModel {
                    fields: all_said(lines),
                    bytes_consumed: lines_bytes(lines).len() as int + 2,
                },
            );
            &&& crate::trailer::parsed(input, declared) == block
            &&& parsed_framed(input, declared) == block
            &&& parsed_in_phases(input, declared) == block
        }),
{
    let input = lines_bytes(lines) + seq![0x0du8, 0x0au8] + rest;
    assert(lines.skip(0) =~= lines);
    assert(input.skip(0) =~= input);
    assert(all_said(lines.take(0)) =~= Seq::<FieldModel>::empty());
    assert forall|i: int| 0 <= i < declared.len() implies is_declarable(#[trigger] declared[i]) by {}
    lemma_declarations(declared, 0);
    lemma_trailer_lines_from(input, 0, lines, 0, declared, rest);
    assert forall|i: int| 0 <= i < declared.len() implies (#[trigger] declared[i]).len() <= 128 by {
        assert(is_declarable(declared[i]));
    }
    lemma_framed_accepts_alike(input, declared);
    crate::trailer::lemma_phases_accept_alike(input, declared);
}

proof fn lemma_trailer_lines_of(
    input: Seq<u8>,
    start: int,
    declared: Seq<Seq<u8>>,
    fields: Seq<FieldModel>,
) -> (lines: Seq<WireField>)
    requires
        0 <= start <= input.len(),
        fields.len() <= 32,
        trailer_section(input, start, declared, fields) is Ok,
    ensures
        ({
            let block = trailer_section(input, start, declared, fields)->Ok_0;
            &&& forall|i: int| 0 <= i < lines.len() ==> is_line(#[trigger] lines[i])
            &&& fields.len() + lines.len() <= 32
            &&& block.fields == fields + all_said(lines)
            &&& start + 2 <= block.bytes_consumed <= input.len()
            &&& block.bytes_consumed <= 8192
            &&& input.subrange(start, block.bytes_consumed) == lines_bytes(lines) + seq![
                0x0du8,
                0x0au8,
            ]
        }),
    decreases input.len() - start,
{
    lemma_trailer_line_end(input, start, false);
    let end = trailer_line_end(input, start, false)->Ok_0;
    let block = trailer_section(input, start, declared, fields)->Ok_0;
    if end <= start {
        let none = Seq::<WireField>::empty();
        assert(fields + all_said(none) =~= fields);
        assert(input.subrange(start, block.bytes_consumed) =~= lines_bytes(none) + seq![
            0x0du8,
            0x0au8,
        ]);
        none
    } else {
        let s = input.subrange(start, end);
        let field = next_field(s, declared, fields, true)->Ok_0;
        lemma_first_from(s, ByteClass::Only(':' as u8), 0);
        let line = lemma_line_parts(s);
        let later = lemma_trailer_lines_of(input, end + 2, declared, fields.push(field));
        let lines = seq![line] + later;
        assert(lines.skip(1) =~= later);
        assert(fields + all_said(lines) =~= fields.push(field) + all_said(later));
        assert(input.subrange(start, block.bytes_consumed) =~= s + seq![0x0du8, 0x0au8]
            + input.subrange(end + 2, block.bytes_consumed));
        assert(input.subrange(start, block.bytes_consumed) =~= lines_bytes(lines) + seq![
            0x0du8,
            0x0au8,
        ]);
        lines
    }
}

/// Nothing else is a trailer section: where one is accepted, the bytes that it takes up are field
/// lines and an empty line, the fields are what the lines say, their names are distinct and
/// declared, and the declared names are distinct and may be declared.
pub proof fn lemma_trailer_is_lines(input: Seq<u8>, declared: Seq<Seq<u8>>)
    ensures
        crate::trailer::parsed(input, declared) matches Ok(block) ==> {
            &&& forall|i: int| 0 <= i < declared.len() ==> is_declarable(#[trigger] declared[i])
            &&& declared.no_duplicates()
            &&& forall|i: int|
                0 <= i < block.fields.len() ==> declared.contains((#[trigger] block.fields[i]).name)
            &&& forall|i: int, j: int|
                0 <= i < j < block.fields.len() ==> (#[trigger] block.fields[i]).name != (
                #[trigger] block.fields[j]).name
            &&& 2 <= block.bytes_consumed <= input.len()
            &&& block.bytes_consumed <= 8192
            &&& exists|lines: Seq<WireField>|
                {
                    &&& lines.len() <= 32
                    &&& forall|i: int| 0 <= i < lines.len() ==> is_line(#[trigger] lines[i])
                    &&& block.fields == all_said(lines)
                    &&& input.take(block.bytes_consumed) == #[trigger] lines_bytes(lines) + seq![
                        0x0du8,
                        0x0au8,
                    ]
                }
        },
        parsed_in_phases(input, declared) is Ok ==> parsed_in_phases(input, declared)
            == crate::trailer::parsed(input, declared),
{
    if crate::trailer::parsed(input, declared) is Ok {
        let block = crate::trailer::parsed(input, declared)->Ok_0;
        let none = Seq::<FieldModel>::empty();
        lemma_declarations(declared, 0);
        lemma_accepted_is_permitted(input, declared);
        let lines = lemma_trailer_lines_of(input, 0, declared, none);
        assert(none + all_said(lines) =~= all_said(lines));
        assert(input.take(block.bytes_consumed) =~= input.subrange(0, block.bytes_consumed));
        assert(input.take(block.bytes_consumed) == lines_bytes(lines) + seq![0x0du8, 0x0au8]);
    }
    crate::trailer::lemma_phases_accept_alike(input, declared);
}

} // verus!
